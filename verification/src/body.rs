//! Request bodies of actions: JSON, URL-encoded forms and simple
//! multipart forms, read into JSON.

use vstd::prelude::*;
use crate::actions::{all_ascii, ascii_upper};
use crate::collections::pair_views;
use crate::text::{
    chars_of, contains, ends_with, find_from, lines, lines_of, owned, split_char, split_vec, starts_with,
    str_contains, str_starts_with, string_of_range, trim, trim_bounds, trimmed, views, find_at, lemma_find_from_bounds,
    join, occurs_at,
};
use vstd::utf8::valid_utf8;

verus! {

/// Why a body could not be read.
#[derive(Debug)]
pub enum BodyParseError {
    /// The body is not JSON.
    InvalidJson(String),
    /// The multipart body is malformed.
    InvalidMultipart(String),
}

/// The text of a body error.
pub open spec fn body_error_message(e: BodyParseError) -> Seq<char> {
    match e {
        BodyParseError::InvalidJson(m) => "Invalid JSON: "@ + m@,
        BodyParseError::InvalidMultipart(m) => "Invalid multipart data: "@ + m@,
    }
}

impl BodyParseError {
    /// The error as text.
    pub fn to_message(&self) -> (r: String)
        ensures
            r@ == body_error_message(*self),
    {
        let mut out = String::new();
        match self {
            BodyParseError::InvalidJson(m) => {
                out.append("Invalid JSON: ");
                out.append(m.as_str());
            },
            BodyParseError::InvalidMultipart(m) => {
                out.append("Invalid multipart data: ");
                out.append(m.as_str());
            },
        }
        out
    }
}

/// `s.to_lowercase()` by Unicode rules.
pub uninterp spec fn unicode_lower(s: Seq<char>) -> Seq<char>;

/// ASCII letters lower-cased, other characters kept.
pub open spec fn ascii_lower(s: Seq<char>) -> Seq<char> {
    s.map_values(|c: char| if 'A' <= c <= 'Z' { ((c as u32) + 32) as char } else { c })
}

/// `str::to_lowercase`: the result is named `unicode_lower`; for ASCII text
/// it is the ASCII lower case, as the Unicode tables give it.
#[verifier::external_body]
fn lower_case(s: &str) -> (r: String)
    ensures
        r@ == unicode_lower(s@),
        all_ascii(s@) ==> r@ == ascii_lower(s@),
{
    s.to_lowercase()
}

/// `s` without every leading and trailing `c` (`str::trim_matches`).
pub open spec fn strip_char_both(s: Seq<char>, c: char) -> Seq<char> {
    strip_trailing(strip_leading(s, c), c)
}

/// `s` without its leading `c`s.
pub open spec fn strip_leading(s: Seq<char>, c: char) -> Seq<char>
    decreases s.len(),
{
    if s.len() > 0 && s[0] == c {
        strip_leading(s.drop_first(), c)
    } else {
        s
    }
}

/// `s` without its trailing `c`s.
pub open spec fn strip_trailing(s: Seq<char>, c: char) -> Seq<char>
    decreases s.len(),
{
    if s.len() > 0 && s.last() == c {
        strip_trailing(s.drop_last(), c)
    } else {
        s
    }
}

/// `s` without every trailing `p` (`str::trim_end_matches`).
pub open spec fn strip_suffixes(s: Seq<char>, p: Seq<char>) -> Seq<char>
    decreases s.len(),
{
    if p.len() > 0 && ends_with(s, p) {
        strip_suffixes(s.take(s.len() - p.len()), p)
    } else {
        s
    }
}

/// The first piece that, trimmed, starts with `pre`.
pub open spec fn first_trimmed_with(ps: Seq<Seq<char>>, pre: Seq<char>) -> Option<Seq<char>>
    decreases ps.len(),
{
    if ps.len() == 0 {
        None
    } else if starts_with(trim(ps[0]), pre) {
        Some(ps[0])
    } else {
        first_trimmed_with(ps.drop_first(), pre)
    }
}

/// The piece found starts, trimmed, with the prefix.
proof fn lemma_first_trimmed(ps: Seq<Seq<char>>, pre: Seq<char>)
    ensures
        first_trimmed_with(ps, pre) matches Some(q) ==> starts_with(trim(q), pre),
    decreases ps.len(),
{
    if ps.len() > 0 && !starts_with(trim(ps[0]), pre) {
        lemma_first_trimmed(ps.drop_first(), pre);
    }
}

/// `v[lo..hi]` without leading and trailing `c`s, as bounds.
fn strip_char_bounds(v: &Vec<char>, lo: usize, hi: usize, c: char) -> (r: (usize, usize))
    requires
        lo <= hi <= v@.len(),
    ensures
        lo <= r.0 <= r.1 <= hi,
        v@.subrange(r.0 as int, r.1 as int) == strip_char_both(v@.subrange(lo as int, hi as int), c),
{
    let mut a = lo;
    while a < hi && v[a] == c
        invariant
            lo <= a <= hi <= v@.len(),
            strip_leading(v@.subrange(lo as int, hi as int), c) == strip_leading(v@.subrange(a as int, hi as int), c),
        decreases hi - a,
    {
        proof {
            assert(v@.subrange(a as int, hi as int).drop_first() =~= v@.subrange(a + 1, hi as int));
        }
        a = a + 1;
    }
    proof {
        assert(strip_leading(v@.subrange(a as int, hi as int), c) == v@.subrange(a as int, hi as int));
    }
    let mut b = hi;
    while b > a && v[b - 1] == c
        invariant
            lo <= a <= b <= hi <= v@.len(),
            strip_trailing(v@.subrange(a as int, hi as int), c) == strip_trailing(v@.subrange(a as int, b as int), c),
        decreases b - a,
    {
        proof {
            assert(v@.subrange(a as int, b as int).drop_last() =~= v@.subrange(a as int, b - 1));
            assert(v@.subrange(a as int, b as int).last() == v@[b - 1]);
        }
        b = b - 1;
    }
    proof {
        if b > a {
            assert(v@.subrange(a as int, b as int).last() == v@[b - 1]);
        }
    }
    (a, b)
}

/// The first piece of `ps` that, trimmed, starts with `pre`.
fn find_trimmed_with(ps: &Vec<Vec<char>>, pre: &str) -> (r: Option<usize>)
    ensures
        match first_trimmed_with(ps@.map_values(|p: Vec<char>| p@), pre@) {
            Some(q) => r matches Some(i) && i < ps@.len() && ps@[i as int]@ == q,
            None => r is None,
        },
{
    let ghost all = ps@.map_values(|p: Vec<char>| p@);
    let mut i: usize = 0;
    proof {
        assert(all.skip(0) =~= all);
    }
    while i < ps.len()
        invariant
            i <= ps@.len() == all.len(),
            all == ps@.map_values(|p: Vec<char>| p@),
            first_trimmed_with(all, pre@) == first_trimmed_with(all.skip(i as int), pre@),
        decreases ps@.len() - i,
    {
        let p = &ps[i];
        let (a, b) = trim_bounds(p, 0, p.len());
        let t = string_of_range(p, a, b);
        proof {
            assert(p@.subrange(0, p@.len() as int) =~= p@);
            assert(all.skip(i as int)[0] == p@);
            assert(all.skip(i as int).drop_first() =~= all.skip(i + 1));
        }
        if str_starts_with(t.as_str(), pre) {
            return Some(i);
        }
        i = i + 1;
    }
    None
}


/// The boundary named in a multipart content type, without quotes.
pub open spec fn boundary_of(ct: Seq<char>) -> Option<Seq<char>> {
    match first_trimmed_with(split_char(ct, ';'), "boundary="@) {
        Some(p) => Some(strip_char_both(trim(p).skip(9), '"')),
        None => None,
    }
}

/// The text of `v` with the bounds `(a, b)` stripped of quotes after `skip`
/// characters of its trimmed form.
fn trimmed_tail_unquoted(p: &Vec<char>, skip: usize) -> (r: String)
    requires
        trim(p@).len() >= skip,
    ensures
        r@ == strip_char_both(trim(p@).skip(skip as int), '"'),
{
    let (a, b) = trim_bounds(p, 0, p.len());
    proof {
        assert(p@.subrange(0, p@.len() as int) =~= p@);
        assert(p@.subrange(a + skip, b as int) =~= trim(p@).skip(skip as int));
    }
    let (x, y) = strip_char_bounds(p, a + skip, b, '"');
    string_of_range(p, x, y)
}

/// The boundary named in content type `ct`, without quotes.
pub fn boundary(ct: &str) -> (r: Option<String>)
    ensures
        match boundary_of(ct@) {
            Some(b) => r matches Some(x) && x@ == b,
            None => r is None,
        },
{
    let v = chars_of(ct);
    let pieces = split_vec(&v, ';');
    proof {
        reveal_strlit("boundary=");
        assert(pieces@.map_values(|p: Vec<char>| p@) =~= split_char(ct@, ';'));
    }
    match find_trimmed_with(&pieces, "boundary=") {
        Some(i) => {
            proof {
                assert("boundary="@.len() == 9);
                lemma_first_trimmed(split_char(ct@, ';'), "boundary="@);
            }
            Some(trimmed_tail_unquoted(&pieces[i], 9))
        },
        None => None,
    }
}

/// The field name of a `Content-Disposition` line: its `name=` part,
/// without quotes.
pub open spec fn disposition_name(line: Seq<char>) -> Option<Seq<char>> {
    if starts_with(unicode_lower(line), "content-disposition:"@) {
        match first_trimmed_with(split_char(line, ';'), "name="@) {
            Some(p) => Some(strip_char_both(trim(p).skip(5), '"')),
            None => None,
        }
    } else {
        None
    }
}

/// The first field name found in the lines.
pub open spec fn name_in_lines(ls: Seq<Seq<char>>) -> Option<Seq<char>>
    decreases ls.len(),
{
    if ls.len() == 0 {
        None
    } else {
        match disposition_name(ls[0]) {
            Some(n) => Some(n),
            None => name_in_lines(ls.drop_first()),
        }
    }
}

/// The field name in the headers of a multipart part.
pub open spec fn field_name(headers: Seq<char>) -> Option<Seq<char>> {
    name_in_lines(lines(headers))
}

/// The name of the form field whose part headers are `headers`.
pub fn extract_form_field_name(headers: &str) -> (r: Option<String>)
    ensures
        match field_name(headers@) {
            Some(n) => r matches Some(x) && x@ == n,
            None => r is None,
        },
{
    let ls = lines_of(&chars_of(headers));
    let ghost all = views(ls@);
    let mut i: usize = 0;
    proof {
        reveal_strlit("content-disposition:");
        reveal_strlit("name=");
        assert(all.skip(0) =~= all);
    }
    while i < ls.len()
        invariant
            i <= ls@.len() == all.len(),
            all == views(ls@),
            all == lines(headers@),
            name_in_lines(all) == name_in_lines(all.skip(i as int)),
        decreases ls@.len() - i,
    {
        let line = ls[i].as_str();
        proof {
            assert(all.skip(i as int)[0] == line@);
            assert(all.skip(i as int).drop_first() =~= all.skip(i + 1));
        }
        let lower = lower_case(line);
        if str_starts_with(lower.as_str(), "content-disposition:") {
            let lv = chars_of(line);
            let pieces = split_vec(&lv, ';');
            proof {
                assert(pieces@.map_values(|p: Vec<char>| p@) =~= split_char(line@, ';'));
            }
            match find_trimmed_with(&pieces, "name=") {
                Some(k) => {
                    proof {
                        reveal_strlit("name=");
                        assert("name="@.len() == 5);
                        lemma_first_trimmed(split_char(line@, ';'), "name="@);
                    }
                    return Some(trimmed_tail_unquoted(&pieces[k], 5));
                },
                None => {},
            }
        }
        i = i + 1;
    }
    None
}

/// `\r\n\r\n`, the end of a part's headers.
pub open spec fn blank_line() -> Seq<char> {
    seq!['\r', '\n', '\r', '\n']
}

/// `\r\n`.
pub open spec fn crlf() -> Seq<char> {
    seq!['\r', '\n']
}

/// The field a multipart part gives, if any: parts that are blank, that
/// close the body (`--`), that have no blank line after their headers,
/// no field name, or a file name, give none.
pub open spec fn part_pair(p: Seq<char>) -> Seq<(Seq<char>, Seq<char>)> {
    if trim(p).len() == 0 || starts_with(p, seq!['-', '-']) {
        Seq::empty()
    } else {
        match find_from(p, blank_line(), 0) {
            None => Seq::empty(),
            Some(idx) => {
                let h = p.take(idx);
                let c = strip_suffixes(p.skip(idx + 4), crlf());
                match field_name(h) {
                    Some(n) => if contains(h, "filename="@) { Seq::empty() } else { seq![(n, c)] },
                    None => Seq::empty(),
                }
            },
        }
    }
}

/// The fields of the parts of `s` from position `i`, the parts separated by
/// `d`.
pub open spec fn parts_pairs(s: Seq<char>, d: Seq<char>, i: int) -> Seq<(Seq<char>, Seq<char>)>
    decreases s.len() - i,
{
    if d.len() == 0 || i < 0 || i > s.len() {
        Seq::empty()
    } else {
        match find_from(s, d, i) {
            Some(k) => {
                proof {
                    lemma_find_from_bounds(s, d, i);
                }
                part_pair(s.subrange(i, k)) + parts_pairs(s, d, k + d.len())
            },
            None => part_pair(s.skip(i)),
        }
    }
}

/// The fields of a multipart body with `boundary`.
pub open spec fn multipart_pairs(text: Seq<char>, boundary: Seq<char>) -> Seq<(Seq<char>, Seq<char>)> {
    parts_pairs(text, seq!['-', '-'] + boundary, 0)
}


/// A search in text after a prefix is the search in that text, moved by
/// the prefix.
proof fn lemma_find_from_shift(pre: Seq<char>, t: Seq<char>, p: Seq<char>, j: int)
    requires
        0 <= j,
    ensures
        find_from(pre + t, p, pre.len() + j) == (match find_from(t, p, j) {
            Some(k) => Some(k + pre.len()),
            None => None::<int>,
        }),
    decreases t.len() - j,
{
    let s = pre + t;
    let i = pre.len() + j;
    if !(i + p.len() > s.len()) {
        assert(s.subrange(i, i + p.len()) =~= t.subrange(j, j + p.len()));
        if !(p.len() == 0 || occurs_at(t, p, j)) {
            lemma_find_from_shift(pre, t, p, j + 1);
        }
    }
}

/// What a search finds within a text it still finds with more text after.
proof fn lemma_find_from_prefix(a: Seq<char>, b: Seq<char>, p: Seq<char>, j: int)
    requires
        0 <= j,
        find_from(a, p, j) is Some,
    ensures
        find_from(a + b, p, j) == find_from(a, p, j),
    decreases a.len() - j,
{
    if !(j + p.len() > a.len()) {
        assert((a + b).subrange(j, j + p.len()) =~= a.subrange(j, j + p.len()));
        if !(p.len() == 0 || occurs_at(a, p, j)) {
            lemma_find_from_prefix(a, b, p, j + 1);
        }
    }
}

/// The parts `ps` are separated by `d` when joined: `d` first occurs in a
/// part followed by `d` at that `d`, and not at all in the last part.
pub open spec fn separated_parts(ps: Seq<Seq<char>>, d: Seq<char>) -> bool {
    &&& ps.len() > 0
    &&& forall|i: int| 0 <= i < ps.len() - 1 ==> find_from(#[trigger] ps[i] + d, d, 0) == Some(ps[i].len() as int)
    &&& find_from(ps.last(), d, 0) is None
}

/// The fields of the parts joined by `d`, read after a prefix, are those of
/// each part, in order.
proof fn lemma_parts_join(pre: Seq<char>, ps: Seq<Seq<char>>, d: Seq<char>)
    requires
        d.len() > 0,
        separated_parts(ps, d),
    ensures
        parts_pairs(pre + join(ps, d), d, pre.len() as int) == ps.map_values(|p: Seq<char>| part_pair(p)).flatten(),
    decreases ps.len(),
{
    let f = ps.map_values(|p: Seq<char>| part_pair(p));
    if ps.len() == 1 {
        let text = pre + ps[0];
        assert(join(ps, d) == ps[0]);
        lemma_find_from_shift(pre, ps[0], d, 0);
        assert(text.skip(pre.len() as int) =~= ps[0]);
        assert(f.drop_first() =~= Seq::<Seq<(Seq<char>, Seq<char>)>>::empty());
        assert(f.first() == part_pair(ps[0]));
        assert(f.drop_first().flatten() =~= Seq::<(Seq<char>, Seq<char>)>::empty());
        assert(f.flatten() == f.first() + f.drop_first().flatten());
        assert(f.flatten() =~= part_pair(ps[0]));
    } else {
        let rest = ps.drop_first();
        crate::codegen::lemma_join_front(ps, d);
        let jr = join(rest, d);
        let text = pre + (ps[0] + d + jr);
        assert(pre + join(ps, d) == text);
        lemma_find_from_prefix(ps[0] + d, jr, d, 0);
        assert(ps[0] + d + jr == (ps[0] + d) + jr);
        lemma_find_from_shift(pre, ps[0] + d + jr, d, 0);
        let k = pre.len() + ps[0].len();
        assert(find_from(text, d, pre.len() as int) == Some(k as int));
        lemma_find_from_bounds(text, d, pre.len() as int);
        assert(text.subrange(pre.len() as int, k as int) =~= ps[0]);
        let pre2 = pre + ps[0] + d;
        assert(text =~= pre2 + jr);
        assert(separated_parts(rest, d)) by {
            assert forall|i: int| 0 <= i < rest.len() - 1 implies find_from(#[trigger] rest[i] + d, d, 0) == Some(rest[i].len() as int) by {
                assert(rest[i] == ps[i + 1]);
            }
            assert(rest.last() == ps.last());
        }
        lemma_parts_join(pre2, rest, d);
        assert(pre2.len() == k + d.len());
        assert(f.drop_first() =~= rest.map_values(|p: Seq<char>| part_pair(p)));
        assert(f.first() == part_pair(ps[0]));
    }
}

/// A multipart body made of parts separated by its boundary line gives
/// the fields of all its parts, in order: each part gives its field (or
/// none), and none is left out. Stated for parts in which the separator
/// does not occur before the separator that follows them.
pub proof fn lemma_multipart_fields(ps: Seq<Seq<char>>, boundary: Seq<char>)
    requires
        separated_parts(ps, seq!['-', '-'] + boundary),
    ensures
        multipart_pairs(join(ps, seq!['-', '-'] + boundary), boundary) == ps.map_values(|p: Seq<char>| part_pair(p)).flatten(),
{
    let d = seq!['-', '-'] + boundary;
    lemma_parts_join(Seq::empty(), ps, d);
    assert(Seq::<char>::empty() + join(ps, d) =~= join(ps, d));
}

/// `v[lo..hi]` without every trailing `\r\n`, as its end.
fn strip_crlf_end(v: &Vec<char>, lo: usize, hi: usize) -> (r: usize)
    requires
        lo <= hi <= v@.len(),
    ensures
        lo <= r <= hi,
        v@.subrange(lo as int, r as int) == strip_suffixes(v@.subrange(lo as int, hi as int), crlf()),
{
    let mut b = hi;
    while b - lo >= 2 && v[b - 2] == '\r' && v[b - 1] == '\n'
        invariant
            lo <= b <= hi <= v@.len(),
            strip_suffixes(v@.subrange(lo as int, hi as int), crlf()) == strip_suffixes(v@.subrange(lo as int, b as int), crlf()),
        decreases b,
    {
        proof {
            let t = v@.subrange(lo as int, b as int);
            assert(t.subrange(t.len() - 2, t.len() as int) =~= crlf());
            assert(t.take(t.len() - 2) =~= v@.subrange(lo as int, b - 2));
        }
        b = b - 2;
    }
    proof {
        let t = v@.subrange(lo as int, b as int);
        if ends_with(t, crlf()) {
            assert(t.subrange(t.len() - 2, t.len() as int) =~= crlf());
            assert(t[t.len() - 2] == '\r' && t[t.len() - 1] == '\n');
            assert(false);
        }
    }
    b
}

/// The field that the part `v[lo..hi]` gives, if any.
fn part_field(v: &Vec<char>, lo: usize, hi: usize) -> (r: Option<(String, String)>)
    requires
        lo <= hi <= v@.len(),
    ensures
        match r {
            Some(f) => part_pair(v@.subrange(lo as int, hi as int)) == seq![(f.0@, f.1@)],
            None => part_pair(v@.subrange(lo as int, hi as int)) == Seq::<(Seq<char>, Seq<char>)>::empty(),
        },
{
    let ghost p = v@.subrange(lo as int, hi as int);
    let part = crate::text::sub_chars(v, lo, hi);
    let (a, b) = trim_bounds(&part, 0, part.len());
    proof {
        assert(part@.subrange(0, part@.len() as int) =~= p);
    }
    if a == b {
        return None;
    }
    if part.len() >= 2 && part[0] == '-' && part[1] == '-' {
        proof {
            assert(p.subrange(0, 2) =~= seq!['-', '-']);
        }
        return None;
    }
    proof {
        if starts_with(p, seq!['-', '-']) {
            assert(p.subrange(0, 2) =~= seq!['-', '-']);
            assert(p[0] == '-' && p[1] == '-');
        }
    }
    let mut sep: Vec<char> = Vec::new();
    sep.push('\r');
    sep.push('\n');
    sep.push('\r');
    sep.push('\n');
    proof {
        assert(sep@ =~= blank_line());
    }
    match find_at(&part, &sep, 0) {
        None => None,
        Some(idx) => {
            proof {
                lemma_find_from_bounds(p, blank_line(), 0);
            }
            let headers = string_of_range(&part, 0, idx);
            let end = strip_crlf_end(&part, idx + 4, part.len());
            let content = string_of_range(&part, idx + 4, end);
            proof {
                assert(p.take(idx as int) =~= headers@);
                assert(p.skip(idx + 4) =~= part@.subrange(idx + 4, part@.len() as int));
                reveal_strlit("filename=");
            }
            match extract_form_field_name(headers.as_str()) {
                Some(name) => {
                    if str_contains(headers.as_str(), "filename=") {
                        None
                    } else {
                        Some((name, content))
                    }
                },
                None => None,
            }
        },
    }
}

/// The fields of a multipart body `text` with `boundary`, in order.
pub fn multipart_fields(text: &str, boundary: &str) -> (r: Vec<(String, String)>)
    ensures
        pair_views(r@) == multipart_pairs(text@, boundary@),
{
    let v = chars_of(text);
    let mut d: Vec<char> = Vec::new();
    d.push('-');
    d.push('-');
    let bv = chars_of(boundary);
    let mut j: usize = 0;
    while j < bv.len()
        invariant
            j <= bv@.len(),
            d@ == seq!['-', '-'] + bv@.take(j as int),
        decreases bv@.len() - j,
    {
        d.push(bv[j]);
        proof {
            assert(d@ =~= seq!['-', '-'] + bv@.take(j + 1));
        }
        j = j + 1;
    }
    proof {
        assert(bv@.take(j as int) =~= boundary@);
    }
    let mut out: Vec<(String, String)> = Vec::new();
    let mut i: usize = 0;
    proof {
        assert(pair_views(out@) + parts_pairs(v@, d@, 0) =~= parts_pairs(v@, d@, 0));
    }
    loop
        invariant
            i <= v@.len(),
            v@ == text@,
            d@ == seq!['-', '-'] + boundary@,
            d@.len() >= 2,
            pair_views(out@) + parts_pairs(v@, d@, i as int) == parts_pairs(v@, d@, 0),
        decreases v@.len() - i,
    {
        let ghost before = pair_views(out@);
        match find_at(&v, &d, i) {
            Some(k) => {
                proof {
                    lemma_find_from_bounds(v@, d@, i as int);
                    assert(i <= k && k + d@.len() <= v@.len());
                }
                match part_field(&v, i, k) {
                    Some(f) => {
                        out.push(f);
                    },
                    None => {},
                }
                proof {
                    assert(pair_views(out@) =~= before + part_pair(v@.subrange(i as int, k as int)));
                    assert(pair_views(out@) + parts_pairs(v@, d@, k + d@.len()) =~= before + parts_pairs(v@, d@, i as int));
                }
                let dl = d.len();
                let n = v.len();
                proof {
                    assert(k + dl <= n);
                }
                i = k + dl;
            },
            None => {
                match part_field(&v, i, v.len()) {
                    Some(f) => {
                        out.push(f);
                    },
                    None => {},
                }
                proof {
                    assert(v@.subrange(i as int, v@.len() as int) =~= v@.skip(i as int));
                    assert(pair_views(out@) =~= before + part_pair(v@.skip(i as int)));
                }
                return out;
            },
        }
    }
}


/// What `serde_json::from_slice` makes of bytes: a value, or the text of
/// its error.
pub uninterp spec fn json_slice_result(b: Seq<u8>) -> Result<serde_json::Value, Seq<char>>;

/// The name and value pairs that `form_urlencoded::parse` reads from bytes,
/// in order.
pub uninterp spec fn form_pairs(b: Seq<u8>) -> Seq<(Seq<char>, Seq<char>)>;

/// The JSON object `serde_json::to_value` makes of a map of strings built
/// from these pairs, the last pair of a name winning.
pub uninterp spec fn string_object(pairs: Seq<(Seq<char>, Seq<char>)>) -> serde_json::Value;

/// The text `String::from_utf8_lossy` reads from bytes.
pub uninterp spec fn utf8_lossy(b: Seq<u8>) -> Seq<char>;

/// `serde_json::from_slice` into a `serde_json::Value`, the error as its
/// text: the result is the named one.
#[verifier::external_body]
fn json_from_bytes(b: &[u8]) -> (r: Result<serde_json::Value, String>)
    ensures
        match json_slice_result(b@) {
            Ok(v) => r == Ok::<serde_json::Value, String>(v),
            Err(m) => r matches Err(x) && x@ == m,
        },
{
    serde_json::from_slice(b).map_err(|e| e.to_string())
}

/// `form_urlencoded::parse`, each pair as owned strings: the named pairs.
#[verifier::external_body]
fn form_pairs_of(b: &[u8]) -> (r: Vec<(String, String)>)
    ensures
        pair_views(r@) == form_pairs(b@),
{
    form_urlencoded::parse(b).map(|(k, v)| (k.to_string(), v.to_string())).collect()
}

/// The pairs collected into a `HashMap` and turned into JSON by
/// `serde_json::to_value` (null if that fails): the named object.
#[verifier::external_body]
pub(crate) fn json_string_object(pairs: Vec<(String, String)>) -> (r: serde_json::Value)
    ensures
        r == string_object(pair_views(pairs@)),
{
    let m: std::collections::HashMap<String, String> = pairs.into_iter().collect();
    serde_json::to_value(m).unwrap_or(serde_json::Value::Null)
}

/// `String::from_utf8_lossy`: the named text, which for valid UTF-8 is the
/// text the bytes encode.
#[verifier::external_body]
fn lossy_text(b: &[u8]) -> (r: String)
    ensures
        r@ == utf8_lossy(b@),
        valid_utf8(b@) ==> vstd::utf8::encode_utf8(r@) == b@,
{
    String::from_utf8_lossy(b).into_owned()
}

/// The JSON of bytes, or the JSON error.
pub open spec fn json_outcome(b: Seq<u8>, r: Result<serde_json::Value, BodyParseError>) -> bool {
    match json_slice_result(b) {
        Ok(v) => r == Ok::<serde_json::Value, BodyParseError>(v),
        Err(m) => r matches Err(BodyParseError::InvalidJson(x)) && x@ == m,
    }
}

/// The fields of a multipart body, or the error for a content type
/// without boundary.
pub open spec fn multipart_outcome(b: Seq<u8>, ct: Seq<char>, r: Result<serde_json::Value, BodyParseError>) -> bool {
    match boundary_of(ct) {
        Some(bd) => r == Ok::<serde_json::Value, BodyParseError>(string_object(multipart_pairs(utf8_lossy(b), bd))),
        None => r matches Err(BodyParseError::InvalidMultipart(m)) && m@ == "Missing boundary"@,
    }
}

/// `application/json`.
pub open spec fn json_type() -> Seq<char> {
    "application/json"@
}

/// `application/x-www-form-urlencoded`.
pub open spec fn form_type() -> Seq<char> {
    "application/x-www-form-urlencoded"@
}

/// `multipart/form-data`.
pub open spec fn multipart_type() -> Seq<char> {
    "multipart/form-data"@
}

/// The content type, empty when absent.
pub open spec fn content_type_text(ct: Option<&str>) -> Seq<char> {
    match ct {
        Some(c) => c@,
        None => Seq::empty(),
    }
}

/// The body read as JSON.
fn parse_json(bytes: &[u8]) -> (r: Result<serde_json::Value, BodyParseError>)
    ensures
        json_outcome(bytes@, r),
{
    match json_from_bytes(bytes) {
        Ok(v) => Ok(v),
        Err(m) => Err(BodyParseError::InvalidJson(m)),
    }
}

/// A URL-encoded form read as a JSON object of strings.
fn parse_form_urlencoded(bytes: &[u8]) -> (r: serde_json::Value)
    ensures
        r == string_object(form_pairs(bytes@)),
{
    json_string_object(form_pairs_of(bytes))
}

/// A multipart form read as a JSON object of its text fields (files are
/// left out).
fn parse_multipart_basic(bytes: &[u8], content_type: &str) -> (r: Result<serde_json::Value, BodyParseError>)
    ensures
        multipart_outcome(bytes@, content_type@, r),
{
    match boundary(content_type) {
        None => {
            proof {
                reveal_strlit("Missing boundary");
            }
            Err(BodyParseError::InvalidMultipart(owned("Missing boundary")))
        },
        Some(b) => {
            let text = lossy_text(bytes);
            let fields = multipart_fields(text.as_str(), b.as_str());
            Ok(json_string_object(fields))
        },
    }
}

/// What reading the body `b` of an action with content type `ct` may give:
/// its JSON, the fields of a URL-encoded or multipart form, or, for another
/// type, a value (the body's JSON, where it is not empty and is JSON).
pub open spec fn action_body_outcome(b: Seq<u8>, ct: Seq<char>, r: Result<serde_json::Value, BodyParseError>) -> bool {
    if contains(ct, json_type()) {
        json_outcome(b, r)
    } else if contains(ct, form_type()) {
        r == Ok::<serde_json::Value, BodyParseError>(string_object(form_pairs(b)))
    } else if contains(ct, multipart_type()) {
        multipart_outcome(b, ct, r)
    } else {
        r is Ok && (b.len() > 0 ==> (json_slice_result(b) matches Ok(v) ==> r == Ok::<serde_json::Value, BodyParseError>(v)))
    }
}

/// The body of an action read as JSON by its content type: JSON, a
/// URL-encoded form, or a multipart form; otherwise null for an empty
/// body, else the body's JSON if it is JSON and null if not.
pub fn parse_action_body(body: &[u8], content_type: Option<&str>) -> (r: Result<serde_json::Value, BodyParseError>)
    ensures
        action_body_outcome(body@, content_type_text(content_type), r),
{
    let ct: &str = match content_type {
        Some(c) => c,
        None => "",
    };
    proof {
        reveal_strlit("");
        assert(ct@ == content_type_text(content_type));
    }
    if str_contains(ct, "application/json") {
        return parse_json(body);
    }
    if str_contains(ct, "application/x-www-form-urlencoded") {
        return Ok(parse_form_urlencoded(body));
    }
    if str_contains(ct, "multipart/form-data") {
        return parse_multipart_basic(body, ct);
    }
    if body.len() == 0 {
        return Ok(crate::response::json_null());
    }
    match parse_json(body) {
        Ok(v) => Ok(v),
        Err(_) => Ok(crate::response::json_null()),
    }
}

/// The body read as JSON by its content type, if it can be: as
/// `parse_action_body`, with no fallback to null.
pub fn parse_structured_body(body: &[u8], content_type: Option<&str>) -> (r: Option<serde_json::Value>)
    ensures
        contains(content_type_text(content_type), json_type()) ==> r == (match json_slice_result(body@) {
            Ok(v) => Some(v),
            Err(_) => None::<serde_json::Value>,
        }),
        !contains(content_type_text(content_type), json_type()) && contains(content_type_text(content_type), form_type())
            ==> r == Some(string_object(form_pairs(body@))),
        !contains(content_type_text(content_type), json_type()) && !contains(content_type_text(content_type), form_type())
            && contains(content_type_text(content_type), multipart_type()) ==> r == (match boundary_of(content_type_text(content_type)) {
                Some(bd) => Some(string_object(multipart_pairs(utf8_lossy(body@), bd))),
                None => None::<serde_json::Value>,
            }),
        !contains(content_type_text(content_type), json_type()) && !contains(content_type_text(content_type), form_type())
            && !contains(content_type_text(content_type), multipart_type()) ==> r == (match json_slice_result(body@) {
                Ok(v) => Some(v),
                Err(_) => None::<serde_json::Value>,
            }),
{
    let ct: &str = match content_type {
        Some(c) => c,
        None => "",
    };
    proof {
        reveal_strlit("");
        assert(ct@ == content_type_text(content_type));
    }
    if str_contains(ct, "application/json") {
        return parse_json(body).ok();
    }
    if str_contains(ct, "application/x-www-form-urlencoded") {
        return Some(parse_form_urlencoded(body));
    }
    if str_contains(ct, "multipart/form-data") {
        return parse_multipart_basic(body, ct).ok();
    }
    parse_json(body).ok()
}

} // verus!
