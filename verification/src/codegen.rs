//! Lua code generation from the intermediate representation.
//!
//! A generated module defines the helper functions, hoists the module
//! script, and exports a `render(props, runtime)` function that runs the
//! component script and writes the template body into an output buffer.
//! Every line of generated code is described by [`CodeLine`]; the text of a
//! module is [`render`] of its lines, and the source map records, for each
//! line that comes from a template expression, the template line it came
//! from.

use vstd::prelude::*;
use crate::ast::{str_eq, Expression, ScriptBlock};
use crate::error::LuatError;
use crate::text::{
    chars_of, dec, dec_string, lines, lines_of, views, find_char_at, find_char_from, find_from, has_char_in, join,
    is_ascii_alnum, is_ascii_alpha, map_chars, owned, parse_usize, parse_usize_range,
    push_char, push_range, push_repeat, repeat, split_char, split_vec, trim, trim_bounds, trimmed, find_at,
    lemma_map_chars_step, lemma_find_from_bounds, all_digits, digit_char, digits_value, is_digit, occurs_at,
    char_count, count_char, lacks_char, lemma_char_count_concat, lemma_char_count_none, lemma_lines_append, lemma_lines_len,
    lemma_line_of, lemma_lines_lack_breaks, strip_cr,
};
use crate::progress::Progress;
use crate::transform::{IRAttribute, IRAttributeValue, IRNode, IR};
use crate::sourcemap::{info_matches, BundleSourceMap};
use crate::patterns::{interleave, lemma_interleave_start, lemma_interleave_step, regex_accepts, regex_captures, regex_pieces, regex_split, LINE_PATTERN};

verus! {

// ---------------------------------------------------------------------------
// Source map of a generated module
// ---------------------------------------------------------------------------

/// Keys strictly increasing.
pub open spec fn sorted_keys(s: Seq<(usize, usize)>) -> bool {
    forall|i: int, j: int| 0 <= i < j < s.len() ==> s[i].0 < s[j].0
}

/// Index of the first entry whose key is at least `k`.
pub open spec fn lower_bound(s: Seq<(usize, usize)>, k: usize) -> int
    decreases s.len(),
{
    if s.len() == 0 {
        0
    } else if s[0].0 >= k {
        0
    } else {
        1 + lower_bound(s.drop_first(), k)
    }
}

/// The entries after mapping `k` to `v`: an entry with key `k` is
/// replaced, else the pair goes in at its place in key order.
pub open spec fn insert_mapping(s: Seq<(usize, usize)>, k: usize, v: usize) -> Seq<(usize, usize)> {
    let p = lower_bound(s, k);
    if p < s.len() && s[p].0 == k {
        s.update(p, (k, v))
    } else {
        s.insert(p, (k, v))
    }
}

/// The value of the last entry whose key is at most `l`.
pub open spec fn lookup_spec(s: Seq<(usize, usize)>, l: usize) -> Option<usize>
    decreases s.len(),
{
    if s.len() == 0 {
        None
    } else if s.last().0 <= l {
        Some(s.last().1)
    } else {
        lookup_spec(s.drop_last(), l)
    }
}

/// `k=v` for one entry.
pub open spec fn pair_text(e: (usize, usize)) -> Seq<char> {
    dec(e.0 as nat) + "="@ + dec(e.1 as nat)
}

/// The texts `k=v` of the entries.
pub open spec fn pair_texts(s: Seq<(usize, usize)>) -> Seq<Seq<char>> {
    s.map_values(|e: (usize, usize)| pair_text(e))
}

/// The comment that carries a source map inside generated code.
pub open spec fn comment_text(s: Seq<(usize, usize)>) -> Seq<char> {
    if s.len() == 0 {
        Seq::empty()
    } else {
        "--[[SRCMAP:"@ + join(pair_texts(s), ","@) + "]]"@
    }
}

/// The entries read from the `k=v` pieces of a comment, in order; a piece
/// that is not two numbers around one `=` is skipped.
pub open spec fn entries_from_pairs(pieces: Seq<Seq<char>>) -> Seq<(usize, usize)>
    decreases pieces.len(),
{
    if pieces.len() == 0 {
        Seq::empty()
    } else {
        let m = entries_from_pairs(pieces.drop_last());
        let parts = split_char(pieces.last(), '=');
        if parts.len() == 2 && parse_usize(parts[0]) is Some && parse_usize(parts[1]) is Some {
            insert_mapping(m, parse_usize(parts[0])->0, parse_usize(parts[1])->0)
        } else {
            m
        }
    }
}

/// The source map carried by the comment in `c`: `None` without a
/// `--[[SRCMAP:` followed by `]]`.
pub open spec fn parse_comment(c: Seq<char>) -> Option<Seq<(usize, usize)>> {
    match find_from(c, "--[[SRCMAP:"@, 0) {
        None => None,
        Some(start) => match find_from(c.skip(start), "]]"@, 0) {
            None => None,
            Some(end) => Some(entries_from_pairs(split_char(c.subrange(start + 11, start + end), ','))),
        },
    }
}

/// Maps lines of generated Lua code to lines of the template.
#[derive(Debug, Clone)]
pub struct LuaSourceMap {
    mappings: Vec<(usize, usize)>,
}

/// What a match of a line number between colons becomes: the mapped
/// template line between colons, or the match itself when the number does
/// not parse or has no mapping.
pub open spec fn line_replacement(map: Seq<(usize, usize)>, c: (Seq<char>, Seq<char>)) -> Seq<char> {
    match parse_usize(c.1) {
        Some(n) => match lookup_spec(map, n) {
            Some(l) => seq![':'] + dec(l as nat) + seq![':'],
            None => c.0,
        },
        None => c.0,
    }
}

/// An error message with each `:<lua line>:` replaced by its template line.
pub open spec fn translated_lines(map: Seq<(usize, usize)>, msg: Seq<char>) -> Seq<char> {
    interleave(
        regex_split(LINE_PATTERN@, msg),
        regex_captures(LINE_PATTERN@, msg).map_values(|c: (Seq<char>, Seq<char>)| line_replacement(map, c)),
    )
}

impl View for LuaSourceMap {
    type V = Seq<(usize, usize)>;

    closed spec fn view(&self) -> Seq<(usize, usize)> {
        self.mappings@
    }
}

impl LuaSourceMap {
    /// Well-formedness: keys strictly increasing.
    pub open spec fn wf(&self) -> bool {
        sorted_keys(self@)
    }

    /// An empty source map.
    pub fn new() -> (r: Self)
        ensures
            r@ == Seq::<(usize, usize)>::empty(),
            r.wf(),
    {
        LuaSourceMap { mappings: Vec::new() }
    }

    /// Maps Lua line `lua_line` to template line `source_line`.
    pub fn record(&mut self, lua_line: usize, source_line: usize)
        requires
            old(self).wf(),
        ensures
            final(self).wf(),
            final(self)@ == insert_mapping(old(self)@, lua_line, source_line),
    {
        let ghost s = self@;
        let mut p: usize = 0;
        proof {
            assert(s.skip(0) =~= s);
        }
        while p < self.mappings.len() && self.mappings[p].0 < lua_line
            invariant
                p <= s.len(),
                self@ == s,
                sorted_keys(s),
                lower_bound(s, lua_line) == p + lower_bound(s.skip(p as int), lua_line),
            decreases s.len() - p,
        {
            proof {
                assert(s.skip(p as int).drop_first() =~= s.skip(p + 1));
            }
            p = p + 1;
        }
        proof {
            if p < s.len() {
                assert(s.skip(p as int)[0] == s[p as int]);
            }
            assert(lower_bound(s, lua_line) == p);
        }
        if p < self.mappings.len() && self.mappings[p].0 == lua_line {
            self.mappings.set(p, (lua_line, source_line));
        } else {
            self.mappings.insert(p, (lua_line, source_line));
            proof {
                let t = s.insert(p as int, (lua_line, source_line));
                assert forall|i: int, j: int| 0 <= i < j < t.len() implies t[i].0 < t[j].0 by {
                    lemma_lower_bound_below(s, lua_line, i);
                    if j > p && i < p {
                        lemma_lower_bound_below(s, lua_line, i);
                    }
                }
            }
        }
        proof {
            let t = self@;
            assert forall|i: int, j: int| 0 <= i < j < t.len() implies t[i].0 < t[j].0 by {
                if i < p {
                    lemma_lower_bound_below(s, lua_line, i);
                }
            }
        }
    }

    /// The template line for Lua line `lua_line`: the exact mapping, or the
    /// closest mapping before it.
    pub fn lookup(&self, lua_line: usize) -> (r: Option<usize>)
        ensures
            r == lookup_spec(self@, lua_line),
    {
        let ghost s = self@;
        let mut k: usize = self.mappings.len();
        proof {
            assert(s.take(s.len() as int) =~= s);
        }
        while k > 0
            invariant
                k <= s.len(),
                self@ == s,
                lookup_spec(s, lua_line) == lookup_spec(s.take(k as int), lua_line),
            decreases k,
        {
            proof {
                assert(s.take(k as int).drop_last() =~= s.take(k - 1));
            }
            if self.mappings[k - 1].0 <= lua_line {
                return Some(self.mappings[k - 1].1);
            }
            k = k - 1;
        }
        None
    }

    /// The source map as a comment for embedding in Lua code, or the empty
    /// string when it holds nothing.
    pub fn to_comment(&self) -> (r: String)
        ensures
            r@ == comment_text(self@),
    {
        let ghost s = self@;
        if self.mappings.len() == 0 {
            return String::new();
        }
        let mut out = String::new();
        out.append("--[[SRCMAP:");
        let mut i: usize = 0;
        while i < self.mappings.len()
            invariant
                0 < s.len(),
                self@ == s,
                i <= s.len(),
                out@ == "--[[SRCMAP:"@ + join(pair_texts(s).take(i as int), ","@),
            decreases s.len() - i,
        {
            let ghost before = out@;
            if i > 0 {
                out.append(",");
            }
            let (a, b) = self.mappings[i];
            out.append(dec_string(a).as_str());
            out.append("=");
            out.append(dec_string(b).as_str());
            proof {
                let ps = pair_texts(s).take(i + 1);
                assert(ps.drop_last() =~= pair_texts(s).take(i as int));
                assert(ps.last() == pair_text(s[i as int]));
                if i == 0 {
                    assert(join(pair_texts(s).take(0), ","@) =~= Seq::<char>::empty());
                    assert(join(ps, ","@) == ps[0]);
                }
                assert(out@ =~= "--[[SRCMAP:"@ + join(ps, ","@));
            }
            i = i + 1;
        }
        out.append("]]");
        proof {
            assert(pair_texts(s).take(s.len() as int) =~= pair_texts(s));
        }
        out
    }

    /// Reads a source map back from a comment made by [`Self::to_comment`];
    /// `None` when there is none in `comment`.
    pub fn from_comment(comment: &str) -> (r: Option<Self>)
        ensures
            match parse_comment(comment@) {
                None => r is None,
                Some(e) => r matches Some(m) && m@ == e && m.wf(),
            },
    {
        let v = chars_of(comment);
        let head = chars_of("--[[SRCMAP:");
        let close = chars_of("]]");
        let start = match find_at(&v, &head, 0) {
            None => return None,
            Some(s) => s,
        };
        proof {
            lemma_find_from_bounds(v@, head@, 0);
        }
        let rest = crate::text::sub_chars(&v, start, v.len());
        let end = match find_at(&rest, &close, 0) {
            None => {
                assert(rest@ =~= comment@.skip(start as int));
                return None;
            },
            Some(e) => e,
        };
        proof {
            assert(rest@ =~= comment@.skip(start as int));
            lemma_find_from_bounds(rest@, close@, 0);
            reveal_strlit("--[[SRCMAP:");
            reveal_strlit("]]");
            assert(head@.len() == 11);
            assert(v@.subrange(start as int, start + 11) =~= head@);
            assert(rest@.subrange(end as int, end + 2) =~= close@);
            if end < 11 {
                assert(rest@[end as int] == close@[0]);
                assert(rest@[end as int] == v@.subrange(start as int, start + 11)[end as int]);
            }
        }
        let content = crate::text::sub_chars(&v, start + 11, start + end);
        let pieces = split_vec(&content, ',');
        let mut map = LuaSourceMap::new();
        let mut i: usize = 0;
        let ghost ps = split_char(content@, ',');
        while i < pieces.len()
            invariant
                i <= pieces@.len(),
                pieces@.len() == ps.len(),
                forall|k: int| 0 <= k < pieces@.len() ==> (#[trigger] pieces@[k])@ == ps[k],
                map.wf(),
                map@ == entries_from_pairs(ps.take(i as int)),
            decreases pieces@.len() - i,
        {
            let parts = split_vec(&pieces[i], '=');
            proof {
                assert(ps.take(i + 1).drop_last() =~= ps.take(i as int));
                assert(ps.take(i + 1).last() == ps[i as int]);
            }
            if parts.len() == 2 {
                let a = parse_usize_range(&parts[0], 0, parts[0].len());
                let b = parse_usize_range(&parts[1], 0, parts[1].len());
                proof {
                    assert(parts@[0]@.subrange(0, parts@[0]@.len() as int) =~= parts@[0]@);
                    assert(parts@[1]@.subrange(0, parts@[1]@.len() as int) =~= parts@[1]@);
                }
                match (a, b) {
                    (Some(x), Some(y)) => {
                        map.record(x, y);
                    },
                    _ => {},
                }
            }
            i = i + 1;
        }
        proof {
            assert(ps.take(ps.len() as int) =~= ps);
            assert(content@ =~= comment@.subrange(start + 11, start + end));
        }
        Some(map)
    }

    /// Whether no mapping is recorded.
    pub fn is_empty(&self) -> (b: bool)
        ensures
            b == (self@.len() == 0),
    {
        self.mappings.len() == 0
    }

    /// What a match `whole` with line number `digits` becomes.
    fn line_replacement_of(&self, whole: &str, digits: &str) -> (r: String)
        ensures
            r@ == line_replacement(self@, (whole@, digits@)),
    {
        let dv = chars_of(digits);
        proof {
            assert(dv@.subrange(0, dv@.len() as int) =~= digits@);
        }
        match parse_usize_range(&dv, 0, dv.len()) {
            Some(n) => match self.lookup(n) {
                Some(l) => {
                    let mut out = String::new();
                    push_char(&mut out, ':');
                    let d = dec_string(l);
                    out.append(d.as_str());
                    push_char(&mut out, ':');
                    proof {
                        assert(out@ =~= seq![':'] + dec(l as nat) + seq![':']);
                    }
                    out
                },
                None => owned(whole),
            },
            None => owned(whole),
        }
    }

    /// The error message with each `:<lua line>:` replaced by
    /// `:<template line>:` where a mapping covers the line.
    pub fn translate_error(&self, error_msg: &str) -> (r: String)
        ensures
            r@ == translated_lines(self@, error_msg@),
            self@.len() == 0 ==> r@ == error_msg@,
    {
        proof {
            assert(crate::patterns::known_pattern(LINE_PATTERN@));
        }
        let (gaps, caps) = match regex_pieces(LINE_PATTERN, error_msg) {
            Ok(v) => v,
            Err(_) => {
                return owned(error_msg);
            },
        };
        let ghost g = views(gaps@);
        let ghost fills = regex_captures(LINE_PATTERN@, error_msg@).map_values(|c: (Seq<char>, Seq<char>)| line_replacement(self@, c));
        let mut out = owned(gaps[0].as_str());
        proof {
            lemma_interleave_start(g, fills);
            assert(g[0] == gaps@[0]@);
        }
        let mut i: usize = 0;
        while i < caps.len()
            invariant
                i <= caps@.len(),
                gaps@.len() == caps@.len() + 1,
                g == views(gaps@),
                g == regex_split(LINE_PATTERN@, error_msg@),
                crate::collections::pair_views(caps@) == regex_captures(LINE_PATTERN@, error_msg@),
                fills == regex_captures(LINE_PATTERN@, error_msg@).map_values(|c: (Seq<char>, Seq<char>)| line_replacement(self@, c)),
                out@ == interleave(g.take(i + 1), fills.take(i as int)),
            decreases caps@.len() - i,
        {
            let rep = self.line_replacement_of(caps[i].0.as_str(), caps[i].1.as_str());
            out.append(rep.as_str());
            out.append(gaps[i + 1].as_str());
            proof {
                assert(crate::collections::pair_views(caps@)[i as int] == (caps@[i as int].0@, caps@[i as int].1@));
                assert(fills[i as int] == rep@);
                assert(g[i + 1] == gaps@[i + 1]@);
                lemma_interleave_step(g, fills, i as int);
            }
            i = i + 1;
        }
        proof {
            assert(g.take(i + 1) =~= g);
            assert(fills.take(i as int) =~= fills);
            if self@.len() == 0 {
                assert(fills =~= crate::patterns::whole_matches(regex_captures(LINE_PATTERN@, error_msg@)));
            }
        }
        out
    }
}

/// The decimal digits of `n`: at least one, all digits, reading back as
/// `n`.
proof fn lemma_dec_digits(n: nat)
    ensures
        dec(n).len() > 0,
        all_digits(dec(n)),
        digits_value(dec(n)) == n,
    decreases n,
{
    if n >= 10 {
        lemma_dec_digits(n / 10);
        let d = dec(n / 10);
        let c = digit_char(n % 10);
        assert(dec(n).drop_last() =~= d);
        assert(dec(n).last() == c);
        assert forall|i: int| 0 <= i < dec(n).len() implies #[trigger] is_digit(dec(n)[i]) by {
            if i < d.len() {
                assert(dec(n)[i] == d[i]);
            }
        }
        assert((c as u32) - ('0' as u32) == n % 10);
        assert(digits_value(dec(n)) == digits_value(d) * 10 + ((c as u32) - ('0' as u32)) as nat);
        assert((n / 10) * 10 + n % 10 == n) by (nonlinear_arith);
    } else {
        let c = digit_char(n);
        assert(dec(n).drop_last() =~= Seq::<char>::empty());
        assert(dec(n).last() == c);
        assert((c as u32) - ('0' as u32) == n);
        assert(digits_value(dec(n)) == digits_value(Seq::<char>::empty()) * 10 + ((c as u32) - ('0' as u32)) as nat);
        assert(is_digit(dec(n)[0]));
    }
}

/// A decimal text parses back to its number.
proof fn lemma_parse_dec(n: usize)
    ensures
        parse_usize(dec(n as nat)) == Some(n),
        lacks_char(dec(n as nat), '='),
        lacks_char(dec(n as nat), ','),
        lacks_char(dec(n as nat), ']'),
{
    lemma_dec_digits(n as nat);
    let d = dec(n as nat);
    assert(is_digit(d[0]));
    assert forall|i: int| 0 <= i < d.len() implies #[trigger] d[i] != '=' && d[i] != ',' && d[i] != ']' by {
        assert(is_digit(d[i]));
    }
}

/// Finding `c` from `i` where it does not occur finds nothing.
proof fn lemma_find_char_absent(s: Seq<char>, c: char, i: int)
    requires
        0 <= i,
        forall|j: int| i <= j < s.len() ==> s[j] != c,
    ensures
        find_char_from(s, c, i) is None,
    decreases s.len() - i,
{
    if i < s.len() {
        lemma_find_char_absent(s, c, i + 1);
    }
}

/// Finding `c` from `i` finds its first occurrence `k`.
proof fn lemma_find_char_first(s: Seq<char>, c: char, i: int, k: int)
    requires
        0 <= i <= k < s.len(),
        s[k] == c,
        forall|j: int| i <= j < k ==> s[j] != c,
    ensures
        find_char_from(s, c, i) == Some(k),
    decreases k - i,
{
    if i < k {
        lemma_find_char_first(s, c, i + 1, k);
    }
}

/// Splitting `a`, the separator and `b` at the separator, where `a` lacks
/// it, gives `a` then the pieces of `b`.
proof fn lemma_split_after(a: Seq<char>, b: Seq<char>, sep: char)
    requires
        lacks_char(a, sep),
    ensures
        split_char(a + seq![sep] + b, sep) == seq![a] + split_char(b, sep),
{
    let s = a + seq![sep] + b;
    assert forall|j: int| 0 <= j < a.len() implies s[j] != sep by {
        assert(s[j] == a[j]);
    }
    lemma_find_char_first(s, sep, 0, a.len() as int);
    assert(s.take(a.len() as int) =~= a);
    assert(s.skip(a.len() as int + 1) =~= b);
}

/// A text lacking the separator is one piece.
proof fn lemma_split_whole(a: Seq<char>, sep: char)
    requires
        lacks_char(a, sep),
    ensures
        split_char(a, sep) == seq![a],
{
    lemma_find_char_absent(a, sep, 0);
}

/// `join` seen from the front.
pub proof fn lemma_join_front(parts: Seq<Seq<char>>, sep: Seq<char>)
    requires
        parts.len() >= 2,
    ensures
        join(parts, sep) == parts[0] + sep + join(parts.drop_first(), sep),
    decreases parts.len(),
{
    if parts.len() > 2 {
        lemma_join_front(parts.drop_last(), sep);
        assert(parts.drop_last().drop_first() =~= parts.drop_first().drop_last());
        assert(parts.drop_first().last() == parts.last());
        assert(parts.drop_last()[0] == parts[0]);
        assert(join(parts.drop_first(), sep) == join(parts.drop_first().drop_last(), sep) + sep + parts.drop_first().last());
        assert(join(parts, sep) == join(parts.drop_last(), sep) + sep + parts.last());
        assert(join(parts, sep) =~= parts[0] + sep + join(parts.drop_first(), sep));
    } else {
        assert(parts.drop_first() =~= seq![parts[1]]);
        assert(parts.drop_last() =~= seq![parts[0]]);
        assert(join(parts.drop_first(), sep) == parts[1]);
        assert(join(parts.drop_last(), sep) == parts[0]);
        assert(parts.last() == parts[1]);
    }
}

/// Joining pieces that lack the separator character, then splitting, gives
/// the pieces back.
proof fn lemma_split_join(parts: Seq<Seq<char>>, sep: char)
    requires
        parts.len() >= 1,
        forall|i: int| 0 <= i < parts.len() ==> lacks_char(#[trigger] parts[i], sep),
    ensures
        split_char(join(parts, seq![sep]), sep) == parts,
    decreases parts.len(),
{
    if parts.len() == 1 {
        lemma_split_whole(parts[0], sep);
        assert(seq![parts[0]] =~= parts);
    } else {
        lemma_join_front(parts, seq![sep]);
        assert(lacks_char(parts[0], sep));
        lemma_split_after(parts[0], join(parts.drop_first(), seq![sep]), sep);
        assert forall|i: int| 0 <= i < parts.drop_first().len() implies lacks_char(#[trigger] parts.drop_first()[i], sep) by {
            assert(parts.drop_first()[i] == parts[i + 1]);
        }
        lemma_split_join(parts.drop_first(), sep);
        assert(seq![parts[0]] + parts.drop_first() =~= parts);
    }
}

/// A joined text lacks a character that the pieces and the separator lack.
proof fn lemma_join_lacks(parts: Seq<Seq<char>>, sep: Seq<char>, c: char)
    requires
        lacks_char(sep, c),
        forall|i: int| 0 <= i < parts.len() ==> lacks_char(#[trigger] parts[i], c),
    ensures
        lacks_char(join(parts, sep), c),
    decreases parts.len(),
{
    if parts.len() > 1 {
        assert forall|i: int| 0 <= i < parts.drop_last().len() implies lacks_char(#[trigger] parts.drop_last()[i], c) by {
            assert(parts.drop_last()[i] == parts[i]);
        }
        lemma_join_lacks(parts.drop_last(), sep, c);
        assert(lacks_char(parts.last(), c));
        let j = join(parts, sep);
        let a = join(parts.drop_last(), sep);
        assert forall|i: int| 0 <= i < j.len() implies #[trigger] j[i] != c by {
            if i < a.len() {
                assert(j[i] == a[i]);
            } else if i < a.len() + sep.len() {
                assert(j[i] == sep[i - a.len()]);
            } else {
                assert(j[i] == parts.last()[i - a.len() - sep.len()]);
            }
        }
    } else if parts.len() == 1 {
        assert(lacks_char(parts[0], c));
    }
}

/// The text of a mapping splits at `=` into its two numbers, and lacks
/// `,` and `]`.
proof fn lemma_pair_text(e: (usize, usize))
    ensures
        split_char(pair_text(e), '=') == seq![dec(e.0 as nat), dec(e.1 as nat)],
        lacks_char(pair_text(e), ','),
        lacks_char(pair_text(e), ']'),
        lacks_char(pair_text(e), '\n'),
{
    lemma_parse_dec(e.0);
    lemma_parse_dec(e.1);
    lemma_dec_digits(e.0 as nat);
    lemma_dec_digits(e.1 as nat);
    reveal_strlit("=");
    let a = dec(e.0 as nat);
    let b = dec(e.1 as nat);
    assert(pair_text(e) =~= a + seq!['='] + b);
    lemma_split_after(a, b, '=');
    lemma_split_whole(b, '=');
    let t = pair_text(e);
    assert forall|i: int| 0 <= i < t.len() implies #[trigger] t[i] != ',' && t[i] != ']' && t[i] != '\n' by {
        if i == a.len() {
            assert(t[i] == '=');
        }
        if i < a.len() {
            assert(t[i] == a[i]);
            assert(is_digit(a[i]));
        } else if i > a.len() {
            assert(t[i] == b[i - a.len() - 1]);
            assert(is_digit(b[i - a.len() - 1]));
        }
    }
}

/// The mappings read back from their texts are the mappings.
proof fn lemma_entries_from_texts(m: Seq<(usize, usize)>)
    requires
        sorted_keys(m),
    ensures
        entries_from_pairs(pair_texts(m)) == m,
    decreases m.len(),
{
    if m.len() > 0 {
        let init = m.drop_last();
        let e = m.last();
        assert(sorted_keys(init));
        lemma_entries_from_texts(init);
        assert(pair_texts(m).drop_last() =~= pair_texts(init));
        assert(pair_texts(m).last() == pair_text(e));
        lemma_pair_text(e);
        lemma_parse_dec(e.0);
        lemma_parse_dec(e.1);
        assert forall|i: int| 0 <= i < init.len() implies init[i].0 < e.0 by {
            assert(m[i].0 < m[m.len() - 1].0);
        }
        lemma_lower_bound_all_below(init, e.0);
        assert(init.insert(init.len() as int, e) =~= m);
    } else {
        assert(pair_texts(m) =~= Seq::<Seq<char>>::empty());
    }
}

/// Finding `p` from `i` finds its first occurrence `k`.
proof fn lemma_find_first(s: Seq<char>, p: Seq<char>, i: int, k: int)
    requires
        0 <= i <= k,
        p.len() > 0,
        occurs_at(s, p, k),
        forall|j: int| i <= j < k ==> !occurs_at(s, p, j),
    ensures
        find_from(s, p, i) == Some(k),
    decreases k - i,
{
    if i < k {
        lemma_find_first(s, p, i + 1, k);
    }
}

/// Reading a non-empty source map back from its comment gives the same
/// map: what `from_comment` parses out of what `to_comment` wrote.
pub proof fn lemma_comment_round_trip(map: LuaSourceMap)
    requires
        map.wf(),
        map@.len() > 0,
    ensures
        parse_comment(comment_text(map@)) == Some(map@),
{
    let m = map@;
    reveal_strlit("--[[SRCMAP:");
    reveal_strlit("]]");
    reveal_strlit(",");
    let h = "--[[SRCMAP:"@;
    let t = "]]"@;
    let texts = pair_texts(m);
    let j = join(texts, ","@);
    let c = comment_text(m);
    assert(c == h + j + t);
    assert forall|i: int| 0 <= i < texts.len() implies lacks_char(#[trigger] texts[i], ',') && lacks_char(texts[i], ']') by {
        lemma_pair_text(m[i]);
    }
    assert(","@ =~= seq![',']);
    assert(forall|i: int| 0 <= i < texts.len() ==> lacks_char(#[trigger] texts[i], ']'));
    lemma_join_lacks(texts, ","@, ']');
    assert(c.subrange(0, 11) =~= h);
    assert(occurs_at(c, h, 0));
    assert(c.skip(0) =~= c);
    let end = c.len() - 2;
    assert(c.subrange(end, end + 2) =~= t);
    assert forall|q: int| 0 <= q < end implies !occurs_at(c, t, q) by {
        if q < 11 {
            assert(c[q] == h[q]);
        } else {
            assert(c[q] == j[q - 11]);
        }
        assert(c.subrange(q, q + 2)[0] == c[q]);
    }
    lemma_find_first(c, t, 0, end);
    assert(c.subrange(11, end) =~= j);
    lemma_split_join(texts, ',');
    lemma_entries_from_texts(m);
}

/// Entries before the insertion point have keys below `k`.
pub proof fn lemma_lower_bound_below(s: Seq<(usize, usize)>, k: usize, i: int)
    ensures
        0 <= lower_bound(s, k) <= s.len(),
        0 <= i < lower_bound(s, k) ==> s[i].0 < k,
        sorted_keys(s) && lower_bound(s, k) <= i < s.len() ==> s[i].0 >= k,
    decreases s.len(),
{
    if s.len() > 0 && s[0].0 < k {
        lemma_lower_bound_below(s.drop_first(), k, i - 1);
        if sorted_keys(s) {
            assert(sorted_keys(s.drop_first()));
        }
    }
}

/// Recording a mapping and looking up that Lua line gives the recorded
/// template line back.
pub proof fn lemma_lookup_after_record(s: Seq<(usize, usize)>, k: usize, v: usize)
    requires
        sorted_keys(s),
    ensures
        lookup_spec(insert_mapping(s, k, v), k) == Some(v),
{
    let t = insert_mapping(s, k, v);
    let p = lower_bound(s, k);
    lemma_lower_bound_below(s, k, 0);
    assert forall|i: int| p < i < t.len() implies t[i].0 > k by {
        if p < s.len() && s[p].0 == k {
            lemma_lower_bound_below(s, k, i);
            assert(s[p].0 < s[i].0);
        } else {
            lemma_lower_bound_below(s, k, i - 1);
            if i - 1 == p {
            } else {
                lemma_lower_bound_below(s, k, p);
            }
        }
    }
    assert(t[p] == (k, v));
    lemma_lookup_tail(t, k, p);
}

/// A lookup that passes over entries with larger keys reaches entry `p`.
proof fn lemma_lookup_tail(t: Seq<(usize, usize)>, k: usize, p: int)
    requires
        0 <= p < t.len(),
        t[p].0 == k,
        forall|i: int| p < i < t.len() ==> t[i].0 > k,
    ensures
        lookup_spec(t, k) == Some(t[p].1),
    decreases t.len(),
{
    if t.len() - 1 > p {
        lemma_lookup_tail(t.drop_last(), k, p);
    }
}

// ---------------------------------------------------------------------------
// Text helpers
// ---------------------------------------------------------------------------

/// How one character is written inside a Lua string literal.
pub open spec fn lua_escape_char(c: char) -> Seq<char> {
    if c == '\\' {
        seq!['\\', '\\']
    } else if c == '"' {
        seq!['\\', '"']
    } else if c == '\n' {
        seq!['\\', 'n']
    } else if c == '\r' {
        seq!['\\', 'r']
    } else if c == '\t' {
        seq!['\\', 't']
    } else {
        seq![c]
    }
}

/// `s` escaped for a Lua string literal.
pub open spec fn lua_escape(s: Seq<char>) -> Seq<char> {
    map_chars(s, |c: char| lua_escape_char(c))
}

/// How one character of pass-through script text is escaped: only
/// backslashes and double quotes.
pub open spec fn quote_escape_char(c: char) -> Seq<char> {
    if c == '\\' {
        seq!['\\', '\\']
    } else if c == '"' {
        seq!['\\', '"']
    } else {
        seq![c]
    }
}

/// `s` with backslashes and double quotes escaped.
pub open spec fn quote_escape(s: Seq<char>) -> Seq<char> {
    map_chars(s, |c: char| quote_escape_char(c))
}

/// Escapes a string for use in a Lua string literal.
pub fn escape_lua_string(s: &str) -> (r: String)
    ensures
        r@ == lua_escape(s@),
{
    let v = chars_of(s);
    let mut out = String::new();
    let mut i: usize = 0;
    while i < v.len()
        invariant
            i <= v@.len(),
            v@ == s@,
            out@ == lua_escape(s@.take(i as int)),
        decreases v@.len() - i,
    {
        let c = v[i];
        proof {
            lemma_map_chars_step(s@, |c: char| lua_escape_char(c), i as int);
        }
        if c == '\\' {
            out.append("\\\\");
        } else if c == '"' {
            out.append("\\\"");
        } else if c == '\n' {
            out.append("\\n");
        } else if c == '\r' {
            out.append("\\r");
        } else if c == '\t' {
            out.append("\\t");
        } else {
            push_char(&mut out, c);
        }
        proof {
            reveal_strlit("\\\\");
            reveal_strlit("\\\"");
            reveal_strlit("\\n");
            reveal_strlit("\\r");
            reveal_strlit("\\t");
            assert(out@ =~= lua_escape(s@.take(i as int)) + lua_escape_char(c));
        }
        i = i + 1;
    }
    proof {
        assert(s@.take(v@.len() as int) =~= s@);
    }
    out
}

/// Appends `v[from..to]` with backslashes and double quotes escaped.
fn push_quote_escaped(out: &mut String, v: &Vec<char>, from: usize, to: usize)
    requires
        from <= to <= v@.len(),
    ensures
        final(out)@ == old(out)@ + quote_escape(v@.subrange(from as int, to as int)),
{
    let ghost s = v@.subrange(from as int, to as int);
    let mut i: usize = from;
    while i < to
        invariant
            from <= i <= to <= v@.len(),
            s == v@.subrange(from as int, to as int),
            out@ == old(out)@ + quote_escape(s.take(i - from)),
        decreases to - i,
    {
        let c = v[i];
        proof {
            lemma_map_chars_step(s, |c: char| quote_escape_char(c), i - from);
        }
        if c == '\\' {
            out.append("\\\\");
        } else if c == '"' {
            out.append("\\\"");
        } else {
            push_char(out, c);
        }
        proof {
            reveal_strlit("\\\\");
            reveal_strlit("\\\"");
            assert(out@ =~= old(out)@ + quote_escape(s.take(i - from)) + quote_escape_char(c));
        }
        i = i + 1;
    }
    proof {
        assert(s.take(to - from) =~= s);
    }
}

/// The HTML void elements, written as ` />` when they have no children.
pub open spec fn is_void_tag(tag: Seq<char>) -> bool {
    tag == "area"@ || tag == "base"@ || tag == "br"@ || tag == "col"@ || tag == "embed"@ || tag
        == "hr"@ || tag == "img"@ || tag == "input"@ || tag == "link"@ || tag == "meta"@ || tag
        == "param"@ || tag == "source"@ || tag == "track"@ || tag == "wbr"@
}

/// The void elements of HTML.
pub open spec fn html_void_elements() -> Set<Seq<char>> {
    set![
        "area"@, "base"@, "br"@, "col"@, "embed"@, "hr"@, "img"@, "input"@, "link"@, "meta"@, "param"@,
        "source"@, "track"@, "wbr"@,
    ]
}

/// A tag is void exactly when it is one of the void elements of HTML.
pub proof fn lemma_void_set(tag: Seq<char>)
    ensures
        is_void_tag(tag) <==> html_void_elements().contains(tag),
{
}

/// An element without children is written closing itself, `<tag ... />`,
/// exactly when its tag is a void element of HTML; any other is written
/// with `>` and its closing tag.
pub proof fn lemma_void_elements(n: IRNode, d: nat)
    requires
        n matches IRNode::ElementNode { children, .. } && children@.len() == 0,
    ensures
        match n {
            IRNode::ElementNode { tag, attributes, .. } => {
                let rest = node_lines(n, d).skip(1 + attrs_lines(attributes@, d).len() as int);
                &&& html_void_elements().contains(tag@) ==> rest == seq![ln(d, "__write(\" />\")"@)]
                &&& !html_void_elements().contains(tag@) ==> rest == seq![
                    ln(d, "__write(\">\")"@),
                    ln(d, "__write(\"</"@ + tag@ + ">\")"@),
                ]
            },
            _ => true,
        },
{
    match n {
        IRNode::ElementNode { tag, attributes, children } => {
            lemma_void_set(tag@);
            assert(nodes_lines(children@, d) =~= Seq::<CodeLine>::empty());
            let head = seq![ln(d, "__write(\"<"@ + tag@ + "\")"@)] + attrs_lines(attributes@, d);
            let tail = if html_void_elements().contains(tag@) {
                seq![ln(d, "__write(\" />\")"@)]
            } else {
                seq![ln(d, "__write(\">\")"@), ln(d, "__write(\"</"@ + tag@ + ">\")"@)]
            };
            assert(node_lines(n, d) =~= head + tail);
            assert((head + tail).skip(head.len() as int) =~= tail);
        },
        _ => {},
    }
}

/// Whether `tag` is an HTML void element.
pub fn is_void_element(tag: &str) -> (b: bool)
    ensures
        b == is_void_tag(tag@),
{
    str_eq(tag, "area") || str_eq(tag, "base") || str_eq(tag, "br") || str_eq(tag, "col")
        || str_eq(tag, "embed") || str_eq(tag, "hr") || str_eq(tag, "img") || str_eq(tag, "input")
        || str_eq(tag, "link") || str_eq(tag, "meta") || str_eq(tag, "param") || str_eq(
        tag,
        "source",
    ) || str_eq(tag, "track") || str_eq(tag, "wbr")
}

/// A Lua identifier: an ASCII letter or `_`, then ASCII letters, digits and
/// `_`.
pub open spec fn is_lua_identifier(s: Seq<char>) -> bool {
    &&& s.len() > 0
    &&& (is_ascii_alpha(s[0]) || s[0] == '_')
    &&& forall|i: int| 1 <= i < s.len() ==> is_ascii_alnum(#[trigger] s[i]) || s[i] == '_'
}

/// Whether `name` is a valid Lua identifier.
pub fn is_valid_lua_identifier(name: &str) -> (b: bool)
    ensures
        b == is_lua_identifier(name@),
{
    let v = chars_of(name);
    if v.len() == 0 {
        return false;
    }
    let c = v[0];
    if !(('a' <= c && c <= 'z') || ('A' <= c && c <= 'Z') || c == '_') {
        return false;
    }
    let mut i: usize = 1;
    while i < v.len()
        invariant
            1 <= i <= v@.len(),
            v@ == name@,
            forall|k: int| 1 <= k < i ==> is_ascii_alnum(#[trigger] v@[k]) || v@[k] == '_',
        decreases v@.len() - i,
    {
        let c = v[i];
        if !(('a' <= c && c <= 'z') || ('A' <= c && c <= 'Z') || ('0' <= c && c <= '9') || c
            == '_') {
            return false;
        }
        i = i + 1;
    }
    true
}

/// How a component prop named `name` is assigned.
pub open spec fn prop_setter(name: Seq<char>) -> Seq<char> {
    if is_lua_identifier(name) {
        "__component_props."@ + name
    } else {
        "__component_props[\""@ + name + "\"]"@
    }
}

/// The Lua target that assigns the component prop `name`.
pub fn component_prop_setter(name: &str) -> (r: String)
    ensures
        r@ == prop_setter(name@),
{
    let mut out = String::new();
    if is_valid_lua_identifier(name) {
        out.append("__component_props.");
        out.append(name);
    } else {
        out.append("__component_props[\"");
        out.append(name);
        out.append("\"]");
    }
    out
}

// ---------------------------------------------------------------------------
// Lines of generated code
// ---------------------------------------------------------------------------

/// One line of generated code: its indentation depth, its text, and the
/// template line it comes from (0 for none).
pub struct CodeLine {
    /// Indentation depth, two spaces per level.
    pub depth: nat,
    /// The text, without indentation or line break.
    pub text: Seq<char>,
    /// Template line it was generated from, 0 for none.
    pub src: nat,
}

/// A line that no template line is recorded for.
pub open spec fn ln(depth: nat, text: Seq<char>) -> CodeLine {
    CodeLine { depth, text, src: 0 }
}

/// A line generated from template line `src`.
pub open spec fn ln_at(depth: nat, text: Seq<char>, src: nat) -> CodeLine {
    CodeLine { depth, text, src }
}

/// The text of one line: indented unless empty, ending in a line break.
pub open spec fn render_line(l: CodeLine) -> Seq<char> {
    (if l.text.len() == 0 { Seq::empty() } else { repeat("  "@, l.depth) }) + l.text + seq!['\n']
}

/// The text of a sequence of lines.
pub open spec fn render(ls: Seq<CodeLine>) -> Seq<char>
    decreases ls.len(),
{
    if ls.len() == 0 {
        Seq::empty()
    } else {
        render(ls.drop_last()) + render_line(ls.last())
    }
}

/// The source map of `ls` when its first line is numbered `first`: for each
/// line generated from a template line, in order, its number and that
/// template line.
pub open spec fn line_marks(ls: Seq<CodeLine>, first: nat) -> Seq<(usize, usize)>
    decreases ls.len(),
{
    if ls.len() == 0 {
        Seq::empty()
    } else {
        let prev = line_marks(ls.drop_last(), first);
        if ls.last().src > 0 {
            prev.push(((first + ls.len() - 1) as usize, ls.last().src as usize))
        } else {
            prev
        }
    }
}

/// The number of lines of Lua that the lines `ls` take: each one, and one
/// more for each line break inside its text.
pub open spec fn phys_total(ls: Seq<CodeLine>) -> nat
    decreases ls.len(),
{
    if ls.len() == 0 {
        0
    } else {
        phys_total(ls.drop_last()) + 1 + char_count(ls.last().text, '\n')
    }
}

/// The source map of `ls` when its first line is Lua line `first`: for each
/// line generated from a template line, in order, the number of the Lua
/// line it starts on and that template line. A text with line breaks in it
/// (a script block) takes as many Lua lines as it holds.
pub open spec fn phys_marks(ls: Seq<CodeLine>, first: nat) -> Seq<(usize, usize)>
    decreases ls.len(),
{
    if ls.len() == 0 {
        Seq::empty()
    } else {
        let prev = phys_marks(ls.drop_last(), first);
        if ls.last().src > 0 {
            prev.push(((first + phys_total(ls.drop_last())) as usize, ls.last().src as usize))
        } else {
            prev
        }
    }
}

/// The trimmed text of an expression.
pub open spec fn expr_text(e: Expression) -> Seq<char> {
    trim(e.content@)
}

/// The template line of an expression.
pub open spec fn expr_line(e: Expression) -> nat {
    e.span.line as nat
}

/// The marker lines of a whitespace-sensitive block.
pub open spec fn sensitive_lines(d: nat, sensitive: bool) -> Seq<CodeLine> {
    if sensitive {
        seq![ln(d, "__write(\"<!-- sensitive -->\")"@), ln(d, "-- sensitive"@)]
    } else {
        Seq::empty()
    }
}

/// The code that writes an attribute of an element.
pub open spec fn attr_lines(a: IRAttribute, d: nat) -> Seq<CodeLine> {
    match a {
        IRAttribute::Named { name, value } => match value {
            IRAttributeValue::Static(val) => seq![
                ln(d, "__write(\" "@ + name@ + "=\\\""@ + lua_escape(val@) + "\\\"\")"@),
            ],
            IRAttributeValue::Dynamic(e) => if name@ == "class"@ {
                seq![
                    ln_at(d, "local __val = "@ + expr_text(e), expr_line(e)),
                    ln(d, "if type(__val) == 'table' then"@),
                    ln(d + 1, "local __classes = {}"@),
                    ln(d + 1, "for k, v in pairs(__val) do if v then table.insert(__classes, k) end end"@),
                    ln(d + 1, "__write(\" class=\\\"\" .. table.concat(__classes, ' ') .. \"\\\"\")"@),
                    ln(d, "else"@),
                    ln(d + 1, "__write(\" class=\\\"\" .. html_escape(tostring(__val)) .. \"\\\"\")"@),
                    ln(d, "end"@),
                ]
            } else {
                seq![
                    ln_at(
                        d,
                        "__write(\" "@ + name@ + "=\\\"\" .. html_escape(tostring("@ + expr_text(e)
                            + ")) .. \"\\\"\")"@,
                        expr_line(e),
                    ),
                ]
            },
            IRAttributeValue::RawHtml(e) => seq![
                ln_at(
                    d,
                    "__write(\" "@ + name@ + "=\\\"\" .. tostring("@ + expr_text(e) + ") .. \"\\\"\")"@,
                    expr_line(e),
                ),
            ],
            IRAttributeValue::BooleanTrue => seq![ln(d, "__write(\" "@ + name@ + "\")"@)],
        },
        IRAttribute::Spread(e) => seq![
            ln_at(d, "for __k, __v in pairs("@ + expr_text(e) + ") do"@, expr_line(e)),
            ln(d + 1, "__write(\" \" .. __k .. \"=\\\"\" .. html_escape(tostring(__v)) .. \"\\\"\")"@),
            ln(d, "end"@),
        ],
    }
}

/// The code that writes the attributes `attrs` of an element.
pub open spec fn attrs_lines(attrs: Seq<IRAttribute>, d: nat) -> Seq<CodeLine>
    decreases attrs.len(),
{
    if attrs.len() == 0 {
        Seq::empty()
    } else {
        attrs_lines(attrs.drop_last(), d) + attr_lines(attrs.last(), d)
    }
}

/// The line that sets one prop of a component.
pub open spec fn prop_line(a: IRAttribute, d: nat) -> CodeLine {
    match a {
        IRAttribute::Named { name, value } => match value {
            IRAttributeValue::Static(val) => ln(d, prop_setter(name@) + " = \""@ + lua_escape(val@) + "\""@),
            IRAttributeValue::Dynamic(e) => ln_at(d, prop_setter(name@) + " = "@ + expr_text(e), expr_line(e)),
            IRAttributeValue::RawHtml(e) => ln_at(d, prop_setter(name@) + " = "@ + expr_text(e), expr_line(e)),
            IRAttributeValue::BooleanTrue => ln(d, prop_setter(name@) + " = true"@),
        },
        IRAttribute::Spread(e) => ln_at(
            d,
            "for __k, __v in pairs("@ + expr_text(e) + ") do __component_props[__k] = __v end"@,
            expr_line(e),
        ),
    }
}

/// The lines that set the props `attrs` of a component.
pub open spec fn props_lines(attrs: Seq<IRAttribute>, d: nat) -> Seq<CodeLine>
    decreases attrs.len(),
{
    if attrs.len() == 0 {
        Seq::empty()
    } else {
        props_lines(attrs.drop_last(), d).push(prop_line(attrs.last(), d))
    }
}

/// The code of a children slot.
pub open spec fn render_children_lines(optional: bool, d: nat) -> Seq<CodeLine> {
    if optional {
        seq![ln(d, "if props.children then"@), ln(d + 1, "props.children(__write)"@), ln(d, "end"@)]
    } else {
        seq![
            ln(d, "if props.children then"@),
            ln(d + 1, "props.children(__write)"@),
            ln(d, "else"@),
            ln(d + 1, "error('children is required but not provided')"@),
            ln(d, "end"@),
        ]
    }
}

/// The line that writes pass-through script text.
pub open spec fn script_write(s: Seq<char>) -> Seq<char> {
    "__write(\""@ + quote_escape(s) + "\")"@
}

/// The line that writes what is left of pass-through script text from
/// `off` on, if anything is.
pub open spec fn script_tail(c: Seq<char>, off: int, d: nat) -> Seq<CodeLine> {
    if 0 <= off < c.len() {
        seq![ln(d, script_write(c.subrange(off, c.len() as int)))]
    } else {
        Seq::empty()
    }
}

/// The code for pass-through script text that is still to be written from
/// offset `off` on, searching for `{` from `from` on: each `{expr}` whose
/// trimmed content is not empty and holds no `<` or `>` becomes a write of
/// the text before it and a write of the expression's value; any other
/// braces are text. What follows the last expression is written once.
pub open spec fn script_lines(c: Seq<char>, off: int, from: int, d: nat) -> Seq<CodeLine>
    decreases c.len() - from,
{
    if off < 0 || off > from || from > c.len() {
        Seq::empty()
    } else {
        match find_char_from(c, '{', from) {
            None => script_tail(c, off, d),
            Some(s) => match find_char_from(c, '}', s) {
                None => script_tail(c, off, d),
                Some(e) => {
                    if from <= s < e < c.len() {
                        let expr = trim(c.subrange(s + 1, e));
                        if expr.len() > 0 && !expr.contains('<') && !expr.contains('>') {
                            seq![
                                ln(d, script_write(c.subrange(off, s))),
                                ln(d, "__write(smart_tostring("@ + expr + "))"@),
                            ] + script_lines(c, e + 1, e + 1, d)
                        } else {
                            script_lines(c, off, s + 1, d)
                        }
                    } else {
                        Seq::empty()
                    }
                },
            },
        }
    }
}

/// The view of an optional string.
pub open spec fn opt_view(o: Option<String>) -> Option<Seq<char>> {
    match o {
        Some(x) => Some(x@),
        None => None,
    }
}

/// The head of the loop of an `each` block at depth `inner`: the `for`
/// line and the loop props that shadow `props` inside it.
pub open spec fn loop_open_lines(inner: nat, item: Seq<char>, index: Option<Seq<char>>) -> Seq<CodeLine> {
    let index_var = match index {
        Some(i) => i,
        None => "__i"@,
    };
    seq![
        ln(inner, "for "@ + index_var + ", "@ + item + " in ipairs(__list) do"@),
        ln(inner + 1, "local __loop_props = setmetatable({"@),
        ln(inner + 2, item + " = "@ + item + ","@),
    ] + match index {
        Some(i) => seq![ln(inner + 2, i + " = "@ + i + ","@)],
        None => Seq::empty(),
    } + seq![
        ln(inner + 1, "}, {__index = props})"@),
        ln(inner + 1, "local __old_props = props"@),
        ln(inner + 1, "props = __loop_props"@),
    ]
}

/// The code for a node at depth `d`.
pub open spec fn node_lines(n: IRNode, d: nat) -> Seq<CodeLine>
    decreases n, 0nat,
{
    match n {
        IRNode::TextNode { content } => seq![ln(d, "__write(\""@ + lua_escape(content@) + "\")"@)],
        IRNode::MustacheNode { expression, escaped } => seq![
            ln_at(
                d,
                if escaped {
                    "__write(html_escape(smart_tostring("@ + expr_text(expression) + ")))"@
                } else {
                    "__write(smart_tostring("@ + expr_text(expression) + "))"@
                },
                expr_line(expression),
            ),
        ],
        IRNode::IfNode { condition, then_branch, else_branch, sensitive } => sensitive_lines(d, sensitive)
            + seq![ln_at(d, "if "@ + expr_text(condition) + " then"@, expr_line(condition))]
            + nodes_lines(then_branch@, d + 1) + match else_branch {
            Some(e) => seq![ln(d, "else"@)] + nodes_lines(e@, d + 1),
            None => Seq::empty(),
        } + seq![ln(d, "end"@)],
        IRNode::EachNode { list_expr, item_id, index_id, body, empty, sensitive } => {
            let inner: nat = if empty is Some { d + 1 } else { d };
            sensitive_lines(d, sensitive) + seq![
                ln_at(d, "local __list = "@ + expr_text(list_expr) + " or {}"@, expr_line(list_expr)),
            ] + match empty {
                Some(e) => seq![ln(d, "if #__list == 0 then"@)] + nodes_lines(e@, d + 1) + seq![ln(d, "else"@)],
                None => Seq::empty(),
            } + loop_open_lines(inner, item_id@, opt_view(index_id)) + nodes_lines(body@, inner + 1)
                + seq![ln(inner + 1, "props = __old_props"@), ln(inner, "end"@)]
                + if empty is Some { seq![ln(d, "end"@)] } else { Seq::empty() }
        },
        IRNode::LocalConst { name, expression } => seq![
            ln_at(d, "local "@ + name@ + " = "@ + expr_text(expression), expr_line(expression)),
        ],
        IRNode::ElementNode { tag, attributes, children } => seq![ln(d, "__write(\"<"@ + tag@ + "\")"@)]
            + attrs_lines(attributes@, d) + if children@.len() == 0 && is_void_tag(tag@) {
            seq![ln(d, "__write(\" />\")"@)]
        } else {
            seq![ln(d, "__write(\">\")"@)] + nodes_lines(children@, d) + seq![
                ln(d, "__write(\"</"@ + tag@ + ">\")"@),
            ]
        },
        IRNode::ComponentNode { name, attributes, children } => seq![
            ln(d, "local __component_props = {}"@),
        ] + props_lines(attributes@, d) + match children {
            Some(c) => seq![ln(d, "__component_props.children = function(__write)"@)] + nodes_lines(c@, d + 1)
                + seq![ln(d, "end"@)],
            None => Seq::empty(),
        } + seq![ln(d, "__write("@ + name@ + ".render(__component_props, runtime))"@)],
        IRNode::RenderChildren { optional } => render_children_lines(optional, d),
        IRNode::ScriptAny { content } => script_lines(content@, 0, 0, d),
        IRNode::HtmlComment { children } => seq![ln(d, "__write(\"<!--\")"@)] + nodes_lines(children@, d)
            + seq![ln(d, "__write(\"-->\")"@)],
    }
}

/// In the code of an each block with an `{:empty}` branch, the empty
/// branch is guarded by the test that the list has length zero: the line
/// `if #__list == 0 then` stands right before the empty branch's code,
/// and `else`, which leads to the loop, right after it.
pub proof fn lemma_each_empty_guard(n: IRNode, d: nat)
    requires
        n matches IRNode::EachNode { empty, .. } && empty is Some,
    ensures
        match n {
            IRNode::EachNode { sensitive, empty, .. } => {
                let k = sensitive_lines(d, sensitive).len() as int + 1;
                let e = nodes_lines(empty->0@, d + 1);
                &&& node_lines(n, d)[k] == ln(d, "if #__list == 0 then"@)
                &&& node_lines(n, d).subrange(k + 1, k + 1 + e.len()) == e
                &&& node_lines(n, d)[k + 1 + e.len()] == ln(d, "else"@)
            },
            _ => true,
        },
{
    match n {
        IRNode::EachNode { list_expr, item_id, index_id, body, empty, sensitive } => {
            let a = sensitive_lines(d, sensitive) + seq![
                ln_at(d, "local __list = "@ + expr_text(list_expr) + " or {}"@, expr_line(list_expr)),
            ];
            let e = nodes_lines(empty->0@, d + 1);
            let mid = seq![ln(d, "if #__list == 0 then"@)] + e + seq![ln(d, "else"@)];
            let inner: nat = d + 1;
            let rest = loop_open_lines(inner, item_id@, opt_view(index_id)) + nodes_lines(body@, inner + 1)
                + seq![ln(inner + 1, "props = __old_props"@), ln(inner, "end"@)] + seq![ln(d, "end"@)];
            assert(node_lines(n, d) =~= a + mid + rest);
            let k = sensitive_lines(d, sensitive).len() as int + 1;
            assert(a.len() == k);
            assert((a + mid + rest)[k] == mid[0]);
            assert((a + mid + rest).subrange(k + 1, k + 1 + e.len()) =~= e);
            assert((a + mid + rest)[k + 1 + e.len()] == mid[1 + e.len() as int]);
        },
        _ => {},
    }
}

/// The code for the nodes `ns` at depth `d`, in order.
pub open spec fn nodes_lines(ns: Seq<IRNode>, d: nat) -> Seq<CodeLine>
    decreases ns, 1nat,
{
    if ns.len() == 0 {
        Seq::empty()
    } else {
        nodes_lines(ns.drop_last(), d) + node_lines(ns.last(), d)
    }
}

/// The helper functions at the top of a module.
pub open spec fn helper_lines() -> Seq<CodeLine> {
    seq![
        ln(0, "-- Helper functions"@),
        ln(0, "local function html_escape(str)"@),
        ln(1, "if str == nil then return '' end"@),
        ln(1, "str = tostring(str)"@),
        ln(1, "str = string.gsub(str, '&', '&amp;')"@),
        ln(1, "str = string.gsub(str, '<', '&lt;')"@),
        ln(1, "str = string.gsub(str, '>', '&gt;')"@),
        ln(1, "str = string.gsub(str, '\"', '&quot;')"@),
        ln(1, "str = string.gsub(str, \"'\", '&#39;')"@),
        ln(1, "return str"@),
        ln(0, "end"@),
        ln(0, ""@),
        ln(0, "local function smart_tostring(val)"@),
        ln(1, "if val == nil then return '' end"@),
        ln(1, "if type(val) == 'table' then"@),
        ln(2, "local parts = {}"@),
        ln(2, "for k, v in pairs(val) do"@),
        ln(3, "table.insert(parts, '\"' .. k .. '\": ' .. smart_tostring(v))"@),
        ln(2, "end"@),
        ln(2, "return '{ ' .. table.concat(parts, ', ') .. ' }'"@),
        ln(1, "else"@),
        ln(2, "return tostring(val)"@),
        ln(1, "end"@),
        ln(0, "end"@),
        ln(0, ""@),
        ln(0, "local exports = {}"@),
    ]
}

/// The context functions inside `render`, at depth 1.
pub open spec fn context_lines() -> Seq<CodeLine> {
    seq![
        ln(1, "-- Context API (like Svelte's setContext/getContext)"@),
        ln(1, "local function setContext(key, value)"@),
        ln(2, "local current = runtime.context_stack[#runtime.context_stack]"@),
        ln(2, "if current then"@),
        ln(3, "current[key] = value"@),
        ln(2, "else"@),
        ln(3, "error(\"No current context scope to set key: \" .. key)"@),
        ln(2, "end"@),
        ln(1, "end"@),
        ln(1, ""@),
        ln(1, "local function getContext(key)"@),
        ln(2, "-- Lookup from top to bottom"@),
        ln(2, "for i = #runtime.context_stack, 1, -1 do"@),
        ln(3, "local scope = runtime.context_stack[i]"@),
        ln(3, "if scope[key] ~= nil then"@),
        ln(4, "return scope[key]"@),
        ln(3, "end"@),
        ln(2, "end"@),
        ln(2, "return nil"@),
        ln(1, "end"@),
        ln(1, ""@),
        ln(1, "-- Page context API (persists across entire request, not scoped)"@),
        ln(1, "local function setPageContext(key, value)"@),
        ln(2, "runtime.page_context = runtime.page_context or {}"@),
        ln(2, "runtime.page_context[key] = value"@),
        ln(1, "end"@),
        ln(1, ""@),
        ln(1, "local function getPageContext(key)"@),
        ln(2, "return runtime.page_context and runtime.page_context[key]"@),
        ln(1, "end"@),
        ln(1, ""@),
    ]
}

/// The lines of the module generated for `ir` under the name `name`.
pub open spec fn module_lines(ir: IR, name: Seq<char>) -> Seq<CodeLine> {
    seq![ln(0, "-- Generated Lua template module"@), ln(0, "-- Module: "@ + name), ln(0, ""@)]
        + helper_lines() + script_lines_at(ir.module_script, "-- Module script (hoisted)"@, 0) + render_head_lines()
        + context_lines() + script_lines_at(ir.regular_script, "-- Regular script (executed on each render)"@, 1)
        + nodes_lines(ir.body@, 1) + module_tail_lines(name)
}

/// A script block written under a comment, then an empty line.
pub open spec fn script_lines_at(script: Option<ScriptBlock>, comment: Seq<char>, d: nat) -> Seq<CodeLine> {
    match script {
        Some(m) => seq![ln(d, comment), ln(d, m.content@), ln(d, ""@)],
        None => Seq::empty(),
    }
}

/// The start of `render`: arguments, the output buffer and the context
/// stack.
pub open spec fn render_head_lines() -> Seq<CodeLine> {
    seq![
        ln(0, "local function render(props, runtime)"@),
        ln(1, "runtime = runtime or {}"@),
        ln(1, "props = props or {}"@),
        ln(1, "local __output = {}"@),
        ln(1, "local function __write(content)"@),
        ln(2, "table.insert(__output, tostring(content))"@),
        ln(1, "end"@),
        ln(1, ""@),
        ln(1, "runtime.context_stack = runtime.context_stack or {}"@),
        ln(1, "table.insert(runtime.context_stack, {})"@),
    ]
}

/// The end of `render` and the exports of the module named `name`.
pub open spec fn module_tail_lines(name: Seq<char>) -> Seq<CodeLine> {
    seq![
        ln(1, ""@),
        ln(1, "-- Pop the context scope after rendering"@),
        ln(1, "table.remove(runtime.context_stack)"@),
        ln(1, "return table.concat(__output)"@),
        ln(0, "end"@),
        ln(0, ""@),
        ln(0, "-- Exported module"@),
        ln(0, "exports.render = render"@),
        ln(0, "exports.moduleName = \""@ + lua_escape(name) + "\""@),
        ln(0, ""@),
        ln(0, "return exports"@),
    ]
}

/// The text of the module generated for `ir` under the name `name`.
pub open spec fn module_text(ir: IR, name: Seq<char>) -> Seq<char> {
    render(module_lines(ir, name))
}

// ---------------------------------------------------------------------------
// The generator
// ---------------------------------------------------------------------------

/// Generator state: the code written so far, the current indentation, the
/// number of the next line, and the source map.
struct LuaCodeGenerator {
    module_name: String,
    output: String,
    indent_level: usize,
    current_line: usize,
    source_map: LuaSourceMap,
    breaks: Vec<usize>,
    lines: Ghost<Seq<CodeLine>>,
}

impl LuaCodeGenerator {
    /// The output is the text of the lines written, and the source map
    /// their marks.
    #[verifier::opaque]
    spec fn wf(&self) -> bool {
        &&& self.output@ == render(self.lines@)
        &&& self.current_line == self.lines@.len() + 1
        &&& self.source_map@ == line_marks(self.lines@, 1)
        &&& self.source_map.wf()
        &&& self.indent_level <= self.lines@.len()
        &&& self.breaks@.len() == self.lines@.len()
        &&& forall|k: int| 0 <= k < self.lines@.len() ==> self.breaks@[k] == char_count(#[trigger] self.lines@[k].text, '\n')
    }

    /// `n` more lines fit the line counter.
    spec fn room(&self, n: int) -> bool {
        self.lines@.len() + n + 1 < usize::MAX
    }

    /// The current indentation depth.
    spec fn depth(&self) -> nat {
        self.indent_level as nat
    }

    /// `self` is `before` with the lines `ls` written.
    spec fn wrote(&self, before: Self, ls: Seq<CodeLine>) -> bool {
        &&& self.wf()
        &&& self.lines@ == before.lines@ + ls
        &&& self.indent_level == before.indent_level
    }

    fn new(module_name: &str) -> (g: Self)
        ensures
            g.wf(),
            g.lines@ == Seq::<CodeLine>::empty(),
            g.indent_level == 0,
            g.module_name@ == module_name@,
    {
        let g = LuaCodeGenerator {
            module_name: owned(module_name),
            output: String::new(),
            indent_level: 0,
            current_line: 1,
            source_map: LuaSourceMap::new(),
            breaks: Vec::new(),
            lines: Ghost(Seq::empty()),
        };
        proof {
            reveal(LuaCodeGenerator::wf);
        }
        g
    }

    /// Writes `line` at the current depth; a positive `src` is recorded as
    /// its template line.
    fn put(&mut self, line: &str, src: usize)
        requires
            old(self).wf(),
            old(self).room(1),
        ensures
            final(self).wrote(*old(self), seq![ln_at(old(self).depth(), line@, src as nat)]),
            final(self).indent_level < final(self).lines@.len(),
            final(self).module_name == old(self).module_name,
    {
        proof {
            reveal(LuaCodeGenerator::wf);
        }
        let ghost before = self.lines@;
        let ghost l = ln_at(self.indent_level as nat, line@, src as nat);
        if src > 0 {
            proof {
                lemma_line_marks_bounded(before, 1);
                lemma_lower_bound_all_below(self.source_map@, self.current_line);
                assert(self.source_map@.insert(self.source_map@.len() as int, (self.current_line, src))
                    =~= self.source_map@.push((self.current_line, src)));
            }
            self.source_map.record(self.current_line, src);
        }
        if line.unicode_len() != 0 {
            push_repeat(&mut self.output, "  ", self.indent_level);
        }
        self.output.append(line);
        push_char(&mut self.output, '\n');
        self.current_line = self.current_line + 1;
        self.breaks.push(count_char(line, '\n'));
        proof {
            self.lines@ = before.push(l);
            assert(self.lines@.drop_last() =~= before);
            assert(self.output@ =~= render(before) + render_line(l));
            assert(before + seq![l] =~= self.lines@);
        }
    }

    /// Writes `line` at the current depth.
    fn write_line(&mut self, line: &str)
        requires
            old(self).wf(),
            old(self).room(1),
        ensures
            final(self).wrote(*old(self), seq![ln(old(self).depth(), line@)]),
            final(self).indent_level < final(self).lines@.len(),
            final(self).module_name == old(self).module_name,
    {
        self.put(line, 0);
    }

    /// Writes `line` and records `source_line` as its template line.
    fn write_line_with_source(&mut self, line: &str, source_line: usize)
        requires
            old(self).wf(),
            old(self).room(1),
        ensures
            final(self).wrote(*old(self), seq![ln_at(old(self).depth(), line@, source_line as nat)]),
            final(self).indent_level < final(self).lines@.len(),
            final(self).module_name == old(self).module_name,
    {
        self.put(line, source_line);
    }

    fn indent(&mut self)
        requires
            old(self).wf(),
            old(self).indent_level < old(self).lines@.len(),
        ensures
            final(self).wf(),
            final(self).lines@ == old(self).lines@,
            final(self).indent_level == old(self).indent_level + 1,
            final(self).module_name == old(self).module_name,
    {
        proof {
            reveal(LuaCodeGenerator::wf);
        }
        self.indent_level = self.indent_level + 1;
    }

    fn dedent(&mut self)
        requires
            old(self).wf(),
        ensures
            final(self).wf(),
            final(self).lines@ == old(self).lines@,
            final(self).indent_level == (if old(self).indent_level > 0 {
                old(self).indent_level - 1
            } else {
                0
            }),
            final(self).module_name == old(self).module_name,
    {
        proof {
            reveal(LuaCodeGenerator::wf);
        }
        if self.indent_level > 0 {
            self.indent_level = self.indent_level - 1;
        }
    }
}

/// Marks of lines numbered from `first` on lie between `first` and the
/// last line's number, in increasing order.
proof fn lemma_line_marks_bounded(ls: Seq<CodeLine>, first: nat)
    requires
        first + ls.len() <= usize::MAX,
    ensures
        sorted_keys(line_marks(ls, first)),
        forall|i: int| 0 <= i < line_marks(ls, first).len() ==> first <= (#[trigger] line_marks(ls, first)[i]).0 < first + ls.len(),
    decreases ls.len(),
{
    if ls.len() > 0 {
        lemma_line_marks_bounded(ls.drop_last(), first);
    }
}

/// With every key below `k`, the insertion point is the end.
proof fn lemma_lower_bound_all_below(s: Seq<(usize, usize)>, k: usize)
    requires
        forall|i: int| 0 <= i < s.len() ==> s[i].0 < k,
    ensures
        lower_bound(s, k) == s.len(),
    decreases s.len(),
{
    if s.len() > 0 {
        lemma_lower_bound_all_below(s.drop_first(), k);
    }
}

impl LuaCodeGenerator {
    fn generate_text_node(&mut self, content: &String)
        requires
            old(self).wf(),
            old(self).room(1),
        ensures
            final(self).wrote(*old(self), seq![ln(old(self).depth(), "__write(\""@ + lua_escape(content@) + "\")"@)]),
    {
        let mut t = String::new();
        t.append("__write(\"");
        t.append(escape_lua_string(content.as_str()).as_str());
        t.append("\")");
        self.write_line(t.as_str());
        proof {
            assert(t@ =~= "__write(\""@ + lua_escape(content@) + "\")"@);
        }
    }

    fn generate_mustache_node(&mut self, expression: &Expression, escaped: bool)
        requires
            old(self).wf(),
            old(self).room(1),
        ensures
            final(self).wrote(*old(self), node_lines(IRNode::MustacheNode { expression: *expression, escaped }, old(self).depth())),
    {
        let expr = trimmed(expression.content.as_str());
        let mut t = String::new();
        if escaped {
            t.append("__write(html_escape(smart_tostring(");
            t.append(expr.as_str());
            t.append(")))");
        } else {
            t.append("__write(smart_tostring(");
            t.append(expr.as_str());
            t.append("))");
        }
        self.write_line_with_source(t.as_str(), expression.span.line);
    }

    fn generate_local_const(&mut self, name: &String, expression: &Expression)
        requires
            old(self).wf(),
            old(self).room(1),
        ensures
            final(self).wrote(*old(self), seq![
                ln_at(old(self).depth(), "local "@ + name@ + " = "@ + expr_text(*expression), expr_line(*expression)),
            ]),
    {
        let mut t = String::new();
        t.append("local ");
        t.append(name.as_str());
        t.append(" = ");
        t.append(trimmed(expression.content.as_str()).as_str());
        self.write_line_with_source(t.as_str(), expression.span.line);
    }

    fn generate_render_children(&mut self, optional: bool)
        requires
            old(self).wf(),
            old(self).room(render_children_lines(optional, old(self).depth()).len() as int),
        ensures
            final(self).wrote(*old(self), render_children_lines(optional, old(self).depth())),
    {
        let ghost d = self.depth();
        if optional {
            self.write_line("if props.children then");
            self.indent();
            self.write_line("props.children(__write)");
            self.dedent();
            self.write_line("end");
        } else {
            self.write_line("if props.children then");
            self.indent();
            self.write_line("props.children(__write)");
            self.dedent();
            self.write_line("else");
            self.indent();
            self.write_line("error('children is required but not provided')");
            self.dedent();
            self.write_line("end");
        }
        proof {
            assert(self.lines@ =~= old(self).lines@ + render_children_lines(optional, d));
        }
    }

    fn generate_attribute(&mut self, attr: &IRAttribute)
        requires
            old(self).wf(),
            old(self).room(attr_lines(*attr, old(self).depth()).len() as int),
        ensures
            final(self).wrote(*old(self), attr_lines(*attr, old(self).depth())),
    {
        let ghost d = self.depth();
        match attr {
            IRAttribute::Named { name, value } => match value {
                IRAttributeValue::Static(val) => {
                    let mut t = String::new();
                    t.append("__write(\" ");
                    t.append(name.as_str());
                    t.append("=\\\"");
                    t.append(escape_lua_string(val.as_str()).as_str());
                    t.append("\\\"\")");
                    self.write_line(t.as_str());
                    proof {
                        assert(t@ =~= "__write(\" "@ + name@ + "=\\\""@ + lua_escape(val@) + "\\\"\")"@);
                    }
                },
                IRAttributeValue::Dynamic(expr) => {
                    let e = trimmed(expr.content.as_str());
                    if str_eq(name.as_str(), "class") {
                        let mut t = String::new();
                        t.append("local __val = ");
                        t.append(e.as_str());
                        self.write_line_with_source(t.as_str(), expr.span.line);
                        self.write_line("if type(__val) == 'table' then");
                        self.indent();
                        self.write_line("local __classes = {}");
                        self.write_line("for k, v in pairs(__val) do if v then table.insert(__classes, k) end end");
                        self.write_line("__write(\" class=\\\"\" .. table.concat(__classes, ' ') .. \"\\\"\")");
                        self.dedent();
                        self.write_line("else");
                        self.indent();
                        self.write_line("__write(\" class=\\\"\" .. html_escape(tostring(__val)) .. \"\\\"\")");
                        self.dedent();
                        self.write_line("end");
                        proof {
                            assert(self.lines@ =~= old(self).lines@ + attr_lines(*attr, d));
                        }
                    } else {
                        let mut t = String::new();
                        t.append("__write(\" ");
                        t.append(name.as_str());
                        t.append("=\\\"\" .. html_escape(tostring(");
                        t.append(e.as_str());
                        t.append(")) .. \"\\\"\")");
                        self.write_line_with_source(t.as_str(), expr.span.line);
                        proof {
                            assert(t@ =~= "__write(\" "@ + name@ + "=\\\"\" .. html_escape(tostring("@ + expr_text(*expr)
                                + ")) .. \"\\\"\")"@);
                        }
                    }
                },
                IRAttributeValue::RawHtml(expr) => {
                    let mut t = String::new();
                    t.append("__write(\" ");
                    t.append(name.as_str());
                    t.append("=\\\"\" .. tostring(");
                    t.append(trimmed(expr.content.as_str()).as_str());
                    t.append(") .. \"\\\"\")");
                    self.write_line_with_source(t.as_str(), expr.span.line);
                    proof {
                        assert(t@ =~= "__write(\" "@ + name@ + "=\\\"\" .. tostring("@ + expr_text(*expr) + ") .. \"\\\"\")"@);
                    }
                },
                IRAttributeValue::BooleanTrue => {
                    let mut t = String::new();
                    t.append("__write(\" ");
                    t.append(name.as_str());
                    t.append("\")");
                    self.write_line(t.as_str());
                    proof {
                        assert(t@ =~= "__write(\" "@ + name@ + "\")"@);
                    }
                },
            },
            IRAttribute::Spread(expr) => {
                let mut t = String::new();
                t.append("for __k, __v in pairs(");
                t.append(trimmed(expr.content.as_str()).as_str());
                t.append(") do");
                self.write_line_with_source(t.as_str(), expr.span.line);
                self.indent();
                self.write_line("__write(\" \" .. __k .. \"=\\\"\" .. html_escape(tostring(__v)) .. \"\\\"\")");
                self.dedent();
                self.write_line("end");
                proof {
                    assert(t@ =~= "for __k, __v in pairs("@ + expr_text(*expr) + ") do"@);
                    assert(self.lines@ =~= old(self).lines@ + attr_lines(*attr, d));
                }
            },
        }
    }

    fn generate_attributes(&mut self, attributes: &Vec<IRAttribute>)
        requires
            old(self).wf(),
            old(self).room(attrs_lines(attributes@, old(self).depth()).len() as int),
        ensures
            final(self).wrote(*old(self), attrs_lines(attributes@, old(self).depth())),
    {
        let ghost d = self.depth();
        let ghost before = self.lines@;
        let mut i: usize = 0;
        proof {
            assert(attributes@.take(0) =~= Seq::<IRAttribute>::empty());
        }
        while i < attributes.len()
            invariant
                i <= attributes@.len(),
                self.wf(),
                self.indent_level as nat == d,
                self.lines@ == before + attrs_lines(attributes@.take(i as int), d),
                before.len() + attrs_lines(attributes@, d).len() + 1 < usize::MAX,
            decreases attributes@.len() - i,
        {
            proof {
                assert(attributes@.take(i + 1).drop_last() =~= attributes@.take(i as int));
                lemma_attrs_lines_prefix(attributes@, i + 1, d);
            }
            self.generate_attribute(&attributes[i]);
            proof {
                assert(attributes@.take(i + 1).last() == attributes@[i as int]);
                assert(self.lines@ =~= before + attrs_lines(attributes@.take(i + 1), d));
            }
            i = i + 1;
        }
        proof {
            assert(attributes@.take(i as int) =~= attributes@);
        }
    }

    fn generate_props(&mut self, attributes: &Vec<IRAttribute>)
        requires
            old(self).wf(),
            old(self).room(attributes@.len() as int),
        ensures
            final(self).wrote(*old(self), props_lines(attributes@, old(self).depth())),
    {
        let ghost d = self.depth();
        let ghost before = self.lines@;
        let mut i: usize = 0;
        proof {
            assert(attributes@.take(0) =~= Seq::<IRAttribute>::empty());
        }
        while i < attributes.len()
            invariant
                i <= attributes@.len(),
                self.wf(),
                self.indent_level as nat == d,
                self.lines@ == before + props_lines(attributes@.take(i as int), d),
                props_lines(attributes@.take(i as int), d).len() == i,
                before.len() + attributes@.len() + 1 < usize::MAX,
            decreases attributes@.len() - i,
        {
            proof {
                assert(attributes@.take(i + 1).drop_last() =~= attributes@.take(i as int));
            }
            let ghost pl = prop_line(attributes@[i as int], d);
            match &attributes[i] {
                IRAttribute::Named { name, value } => {
                    let setter = component_prop_setter(name.as_str());
                    let mut t = String::new();
                    t.append(setter.as_str());
                    match value {
                        IRAttributeValue::Static(val) => {
                            t.append(" = \"");
                            t.append(escape_lua_string(val.as_str()).as_str());
                            t.append("\"");
                            self.write_line(t.as_str());
                        },
                        IRAttributeValue::Dynamic(expr) => {
                            t.append(" = ");
                            t.append(trimmed(expr.content.as_str()).as_str());
                            self.write_line_with_source(t.as_str(), expr.span.line);
                        },
                        IRAttributeValue::RawHtml(expr) => {
                            t.append(" = ");
                            t.append(trimmed(expr.content.as_str()).as_str());
                            self.write_line_with_source(t.as_str(), expr.span.line);
                        },
                        IRAttributeValue::BooleanTrue => {
                            t.append(" = true");
                            self.write_line(t.as_str());
                        },
                    }
                    proof {
                        assert(t@ =~= pl.text);
                    }
                },
                IRAttribute::Spread(expr) => {
                    let mut t = String::new();
                    t.append("for __k, __v in pairs(");
                    t.append(trimmed(expr.content.as_str()).as_str());
                    t.append(") do __component_props[__k] = __v end");
                    self.write_line_with_source(t.as_str(), expr.span.line);
                    proof {
                        assert(t@ =~= pl.text);
                    }
                },
            }
            proof {
                assert(self.lines@ =~= before + props_lines(attributes@.take(i + 1), d));
            }
            i = i + 1;
        }
        proof {
            assert(attributes@.take(i as int) =~= attributes@);
        }
    }

    fn generate_script_any(&mut self, content: &String)
        requires
            old(self).wf(),
            old(self).room(script_lines(content@, 0, 0, old(self).depth()).len() as int),
        ensures
            final(self).wrote(*old(self), script_lines(content@, 0, 0, old(self).depth())),
    {
        let ghost d = self.depth();
        let ghost c = content@;
        let ghost base = self.lines@;
        let v = chars_of(content.as_str());
        let mut offset: usize = 0;
        let mut from: usize = 0;
        loop
            invariant_except_break
                base + script_lines(c, 0, 0, d) == self.lines@ + script_lines(c, offset as int, from as int, d),
            invariant
                v@ == c,
                offset <= from <= c.len(),
                self.wf(),
                self.indent_level as nat == d,
                base.len() + script_lines(c, 0, 0, d).len() + 1 < usize::MAX,
            ensures
                base + script_lines(c, 0, 0, d) == self.lines@ + script_tail(c, offset as int, d),
            decreases c.len() - from,
        {
            let ghost rest = script_lines(c, offset as int, from as int, d);
            assert((base + script_lines(c, 0, 0, d)).len() == self.lines@.len() + rest.len());
            match find_char_at(&v, '{', from) {
                None => {
                    break;
                },
                Some(start) => {
                    match find_char_at(&v, '}', start) {
                        None => {
                            break;
                        },
                        Some(end) => {
                            let (a, b) = trim_bounds(&v, start + 1, end);
                            let ghost expr = trim(c.subrange(start + 1, end as int));
                            proof {
                                assert(v@.subrange(a as int, b as int) == expr);
                            }
                            let lt = has_char_in(&v, '<', a, b);
                            let gt = has_char_in(&v, '>', a, b);
                            proof {
                                if expr.contains('<') {
                                    let k = choose|k: int| 0 <= k < expr.len() && expr[k] == '<';
                                    assert(v@[a + k] == '<');
                                }
                                if lt {
                                    let k = choose|k: int| a <= k < b && v@[k] == '<';
                                    assert(expr[k - a] == '<');
                                }
                                if expr.contains('>') {
                                    let k = choose|k: int| 0 <= k < expr.len() && expr[k] == '>';
                                    assert(v@[a + k] == '>');
                                }
                                if gt {
                                    let k = choose|k: int| a <= k < b && v@[k] == '>';
                                    assert(expr[k - a] == '>');
                                }
                            }
                            if a < b && !lt && !gt {
                                let mut t = String::new();
                                t.append("__write(\"");
                                push_quote_escaped(&mut t, &v, offset, start);
                                t.append("\")");
                                proof {
                                    assert(t@ =~= script_write(c.subrange(offset as int, start as int)));
                                }
                                self.write_line(t.as_str());
                                let mut u = String::new();
                                u.append("__write(smart_tostring(");
                                push_range(&mut u, &v, a, b);
                                u.append("))");
                                proof {
                                    assert(u@ =~= "__write(smart_tostring("@ + expr + "))"@);
                                }
                                self.write_line(u.as_str());
                                proof {
                                    assert(self.lines@ + script_lines(c, end + 1, end + 1, d) =~= base + script_lines(c, 0, 0, d));
                                }
                                assert(end < v.len());
                                offset = end + 1;
                                from = end + 1;
                            } else {
                                from = start + 1;
                            }
                        },
                    }
                },
            }
        }
        if offset < v.len() {
            let mut t = String::new();
            t.append("__write(\"");
            push_quote_escaped(&mut t, &v, offset, v.len());
            t.append("\")");
            proof {
                assert(t@ =~= script_write(c.subrange(offset as int, c.len() as int)));
            }
            self.write_line(t.as_str());
        }
        proof {
            assert(self.lines@ =~= base + script_lines(c, 0, 0, d));
        }
    }
}

/// The attribute code of a prefix is no longer than that of the whole.
proof fn lemma_attrs_lines_prefix(attrs: Seq<IRAttribute>, k: int, d: nat)
    requires
        0 <= k <= attrs.len(),
    ensures
        attrs_lines(attrs.take(k), d).len() <= attrs_lines(attrs, d).len(),
    decreases attrs.len() - k,
{
    if k < attrs.len() {
        lemma_attrs_lines_prefix(attrs, k + 1, d);
        assert(attrs.take(k + 1).drop_last() =~= attrs.take(k));
    } else {
        assert(attrs.take(k) =~= attrs);
    }
}

impl LuaCodeGenerator {
    fn generate_nodes(&mut self, nodes: &Vec<IRNode>)
        requires
            old(self).wf(),
            old(self).room(nodes_lines(nodes@, old(self).depth()).len() as int),
        ensures
            final(self).wrote(*old(self), nodes_lines(nodes@, old(self).depth())),
        decreases nodes@, 2nat,
    {
        let ghost d = self.depth();
        let ghost before = self.lines@;
        let mut i: usize = 0;
        proof {
            assert(nodes@.take(0) =~= Seq::<IRNode>::empty());
        }
        while i < nodes.len()
            invariant
                i <= nodes@.len(),
                self.wf(),
                self.indent_level as nat == d,
                self.lines@ == before + nodes_lines(nodes@.take(i as int), d),
                before.len() + nodes_lines(nodes@, d).len() + 1 < usize::MAX,
            decreases nodes@.len() - i,
        {
            proof {
                assert(nodes@.take(i + 1).drop_last() =~= nodes@.take(i as int));
                assert(nodes@.take(i + 1).last() == nodes@[i as int]);
                lemma_nodes_lines_prefix(nodes@, i + 1, d);
            }
            self.generate_node(&nodes[i]);
            proof {
                assert(self.lines@ =~= before + nodes_lines(nodes@.take(i + 1), d));
            }
            i = i + 1;
        }
        proof {
            assert(nodes@.take(i as int) =~= nodes@);
        }
    }

    fn generate_node(&mut self, node: &IRNode)
        requires
            old(self).wf(),
            old(self).room(node_lines(*node, old(self).depth()).len() as int),
        ensures
            final(self).wrote(*old(self), node_lines(*node, old(self).depth())),
        decreases node, 1nat,
    {
        match node {
            IRNode::TextNode { content } => self.generate_text_node(content),
            IRNode::MustacheNode { expression, escaped } => self.generate_mustache_node(expression, *escaped),
            IRNode::IfNode { .. } => self.generate_if_node(node),
            IRNode::EachNode { .. } => self.generate_each_node(node),
            IRNode::LocalConst { name, expression } => self.generate_local_const(name, expression),
            IRNode::ElementNode { .. } => self.generate_element_node(node),
            IRNode::ComponentNode { .. } => self.generate_component_node(node),
            IRNode::RenderChildren { optional } => self.generate_render_children(*optional),
            IRNode::ScriptAny { content } => self.generate_script_any(content),
            IRNode::HtmlComment { .. } => self.generate_html_comment(node),
        }
    }

    #[verifier::rlimit(60)]
    fn generate_if_node(&mut self, node: &IRNode)
        requires
            old(self).wf(),
            old(self).room(node_lines(*node, old(self).depth()).len() as int),
            node is IfNode,
        ensures
            final(self).wrote(*old(self), node_lines(*node, old(self).depth())),
        decreases node, 0nat,
    {
        let ghost d = self.depth();
        let ghost before = self.lines@;
        match node {
            IRNode::IfNode { condition, then_branch, else_branch, sensitive } => {
                if *sensitive {
                    self.write_line("__write(\"<!-- sensitive -->\")");
                    self.write_line("-- sensitive");
                }
                let mut t = String::new();
                t.append("if ");
                t.append(trimmed(condition.content.as_str()).as_str());
                t.append(" then");
                self.write_line_with_source(t.as_str(), condition.span.line);
                self.indent();
                self.generate_nodes(then_branch);
                self.dedent();
                match else_branch {
                    Some(else_nodes) => {
                        self.write_line("else");
                        self.indent();
                        self.generate_nodes(else_nodes);
                        self.dedent();
                    },
                    None => {},
                }
                self.write_line("end");
                proof {
                    assert(t@ =~= "if "@ + expr_text(*condition) + " then"@);
                    assert(self.lines@ =~= before + node_lines(*node, d));
                }
            },
            _ => {},
        }
    }

    fn write_loop_open(&mut self, item_id: &String, index_id: &Option<String>)
        requires
            old(self).wf(),
            old(self).room(loop_open_lines(old(self).depth(), item_id@, opt_view(*index_id)).len() as int),
        ensures
            final(self).wf(),
            final(self).lines@ == old(self).lines@ + loop_open_lines(old(self).depth(), item_id@, opt_view(*index_id)),
            final(self).indent_level == old(self).indent_level + 1,
    {
        let ghost d = self.depth();
        let ghost before = self.lines@;
        let index_var: &str = match index_id {
            Some(i) => i.as_str(),
            None => "__i",
        };
        let mut f = String::new();
        f.append("for ");
        f.append(index_var);
        f.append(", ");
        f.append(item_id.as_str());
        f.append(" in ipairs(__list) do");
        self.write_line(f.as_str());
        self.indent();
        self.write_line("local __loop_props = setmetatable({");
        self.indent();
        let mut it = String::new();
        it.append(item_id.as_str());
        it.append(" = ");
        it.append(item_id.as_str());
        it.append(",");
        self.write_line(it.as_str());
        match index_id {
            Some(idx) => {
                let mut ix = String::new();
                ix.append(idx.as_str());
                ix.append(" = ");
                ix.append(index_var);
                ix.append(",");
                self.write_line(ix.as_str());
                proof {
                    assert(ix@ =~= idx@ + " = "@ + idx@ + ","@);
                }
            },
            None => {},
        }
        self.dedent();
        self.write_line("}, {__index = props})");
        self.write_line("local __old_props = props");
        self.write_line("props = __loop_props");
        proof {
            assert(it@ =~= item_id@ + " = "@ + item_id@ + ","@);
            assert(self.lines@ =~= before + loop_open_lines(d, item_id@, opt_view(*index_id)));
        }
    }

    #[verifier::rlimit(60)]
    fn generate_each_node(&mut self, node: &IRNode)
        requires
            old(self).wf(),
            old(self).room(node_lines(*node, old(self).depth()).len() as int),
            node is EachNode,
        ensures
            final(self).wrote(*old(self), node_lines(*node, old(self).depth())),
        decreases node, 0nat,
    {
        let ghost d = self.depth();
        let ghost before = self.lines@;
        match node {
            IRNode::EachNode { list_expr, item_id, index_id, body, empty, sensitive } => {
                if *sensitive {
                    self.write_line("__write(\"<!-- sensitive -->\")");
                    self.write_line("-- sensitive");
                }
                let mut t = String::new();
                t.append("local __list = ");
                t.append(trimmed(list_expr.content.as_str()).as_str());
                t.append(" or {}");
                self.write_line_with_source(t.as_str(), list_expr.span.line);
                match empty {
                    Some(empty_nodes) => {
                        self.write_line("if #__list == 0 then");
                        self.indent();
                        self.generate_nodes(empty_nodes);
                        self.dedent();
                        self.write_line("else");
                        self.indent();
                    },
                    None => {},
                }
                self.write_loop_open(item_id, index_id);
                self.generate_nodes(body);
                self.write_line("props = __old_props");
                self.dedent();
                self.write_line("end");
                if empty.is_some() {
                    self.dedent();
                    self.write_line("end");
                }
                proof {
                    assert(t@ =~= "local __list = "@ + expr_text(*list_expr) + " or {}"@);
                    assert(self.lines@ =~= before + node_lines(*node, d));
                }
            },
            _ => {},
        }
    }

    fn generate_element_node(&mut self, node: &IRNode)
        requires
            old(self).wf(),
            old(self).room(node_lines(*node, old(self).depth()).len() as int),
            node is ElementNode,
        ensures
            final(self).wrote(*old(self), node_lines(*node, old(self).depth())),
        decreases node, 0nat,
    {
        let ghost d = self.depth();
        let ghost before = self.lines@;
        match node {
            IRNode::ElementNode { tag, attributes, children } => {
                let mut t = String::new();
                t.append("__write(\"<");
                t.append(tag.as_str());
                t.append("\")");
                self.write_line(t.as_str());
                self.generate_attributes(attributes);
                if children.len() == 0 && is_void_element(tag.as_str()) {
                    self.write_line("__write(\" />\")");
                } else {
                    self.write_line("__write(\">\")");
                    self.generate_nodes(children);
                    let mut c = String::new();
                    c.append("__write(\"</");
                    c.append(tag.as_str());
                    c.append(">\")");
                    self.write_line(c.as_str());
                    proof {
                        assert(c@ =~= "__write(\"</"@ + tag@ + ">\")"@);
                    }
                }
                proof {
                    assert(t@ =~= "__write(\"<"@ + tag@ + "\")"@);
                    assert(self.lines@ =~= before + node_lines(*node, d));
                }
            },
            _ => {},
        }
    }

    fn generate_component_node(&mut self, node: &IRNode)
        requires
            old(self).wf(),
            old(self).room(node_lines(*node, old(self).depth()).len() as int),
            node is ComponentNode,
        ensures
            final(self).wrote(*old(self), node_lines(*node, old(self).depth())),
        decreases node, 0nat,
    {
        let ghost d = self.depth();
        let ghost before = self.lines@;
        match node {
            IRNode::ComponentNode { name, attributes, children } => {
                self.write_line("local __component_props = {}");
                proof {
                    lemma_props_lines_len(attributes@, d);
                }
                self.generate_props(attributes);
                match children {
                    Some(child_nodes) => {
                        self.write_line("__component_props.children = function(__write)");
                        self.indent();
                        self.generate_nodes(child_nodes);
                        self.dedent();
                        self.write_line("end");
                    },
                    None => {},
                }
                let mut t = String::new();
                t.append("__write(");
                t.append(name.as_str());
                t.append(".render(__component_props, runtime))");
                self.write_line(t.as_str());
                proof {
                    assert(t@ =~= "__write("@ + name@ + ".render(__component_props, runtime))"@);
                    assert(self.lines@ =~= before + node_lines(*node, d));
                }
            },
            _ => {},
        }
    }

    fn generate_html_comment(&mut self, node: &IRNode)
        requires
            old(self).wf(),
            old(self).room(node_lines(*node, old(self).depth()).len() as int),
            node is HtmlComment,
        ensures
            final(self).wrote(*old(self), node_lines(*node, old(self).depth())),
        decreases node, 0nat,
    {
        let ghost d = self.depth();
        let ghost before = self.lines@;
        match node {
            IRNode::HtmlComment { children } => {
                self.write_line("__write(\"<!--\")");
                self.generate_nodes(children);
                self.write_line("__write(\"-->\")");
                proof {
                    assert(self.lines@ =~= before + node_lines(*node, d));
                }
            },
            _ => {},
        }
    }
}

/// The code of a prefix of nodes is no longer than that of all of them.
proof fn lemma_nodes_lines_prefix(ns: Seq<IRNode>, k: int, d: nat)
    requires
        0 <= k <= ns.len(),
    ensures
        nodes_lines(ns.take(k), d).len() <= nodes_lines(ns, d).len(),
    decreases ns.len() - k,
{
    if k < ns.len() {
        lemma_nodes_lines_prefix(ns, k + 1, d);
        assert(ns.take(k + 1).drop_last() =~= ns.take(k));
    } else {
        assert(ns.take(k) =~= ns);
    }
}

/// One prop line per attribute.
proof fn lemma_props_lines_len(attrs: Seq<IRAttribute>, d: nat)
    ensures
        props_lines(attrs, d).len() == attrs.len(),
    decreases attrs.len(),
{
    if attrs.len() > 0 {
        lemma_props_lines_len(attrs.drop_last(), d);
    }
}

/// Pass-through script text searched from `from` on gives at most two
/// lines per character, and two more.
proof fn lemma_script_lines_len(c: Seq<char>, off: int, from: int, d: nat)
    requires
        0 <= from <= c.len(),
    ensures
        script_lines(c, off, from, d).len() <= 2 * (c.len() - from) + 2,
    decreases c.len() - from,
{
    crate::text::lemma_find_char_first(c, '{', from);
    match find_char_from(c, '{', from) {
        None => {},
        Some(s) => {
            crate::text::lemma_find_char_first(c, '}', s);
            match find_char_from(c, '}', s) {
                None => {},
                Some(e) => {
                    if 0 <= off <= from <= s < e < c.len() {
                        let expr = trim(c.subrange(s + 1, e));
                        if expr.len() > 0 && !expr.contains('<') && !expr.contains('>') {
                            lemma_script_lines_len(c, e + 1, e + 1, d);
                        } else {
                            lemma_script_lines_len(c, off, s + 1, d);
                        }
                    }
                },
            }
        },
    }
}

/// An attribute of an element gives at most eight lines.
proof fn lemma_attrs_lines_len(attrs: Seq<IRAttribute>, d: nat)
    ensures
        attrs_lines(attrs, d).len() <= 8 * attrs.len(),
    decreases attrs.len(),
{
    if attrs.len() > 0 {
        lemma_attrs_lines_len(attrs.drop_last(), d);
    }
}

/// The bound used on the number of lines of code for the node `n`: each
/// node counts its own lines, a pass-through script two per character and
/// two more, an element attribute eight.
pub open spec fn node_bound(n: IRNode) -> nat
    decreases n, 0nat,
{
    match n {
        IRNode::IfNode { then_branch, else_branch, .. } => nodes_bound(then_branch@) + (match else_branch {
            Some(e) => nodes_bound(e@),
            None => 0,
        }) + 5,
        IRNode::EachNode { body, empty, .. } => nodes_bound(body@) + (match empty {
            Some(e) => nodes_bound(e@),
            None => 0,
        }) + 15,
        IRNode::ElementNode { attributes, children, .. } => nodes_bound(children@) + 8 * attributes@.len() + 3,
        IRNode::ComponentNode { attributes, children, .. } => (match children {
            Some(c) => nodes_bound(c@),
            None => 0,
        }) + attributes@.len() + 4,
        IRNode::HtmlComment { children } => nodes_bound(children@) + 2,
        IRNode::ScriptAny { content } => 2 * content@.len() + 2,
        IRNode::RenderChildren { .. } => 5,
        _ => 1,
    }
}

/// The bound used on the number of lines of code for the nodes `ns`.
pub open spec fn nodes_bound(ns: Seq<IRNode>) -> nat
    decreases ns, 1nat,
{
    if ns.len() == 0 {
        0
    } else {
        nodes_bound(ns.drop_last()) + node_bound(ns.last())
    }
}

/// `n` as a `usize`, when it fits.
pub open spec fn fitting(n: nat) -> Option<usize> {
    if n <= usize::MAX { Some(n as usize) } else { None }
}

/// A prefix of the nodes has no larger bound.
proof fn lemma_nodes_bound_prefix(ns: Seq<IRNode>, k: int)
    requires
        0 <= k <= ns.len(),
    ensures
        nodes_bound(ns.take(k)) <= nodes_bound(ns),
    decreases ns.len() - k,
{
    if k < ns.len() {
        lemma_nodes_bound_prefix(ns, k + 1);
        assert(ns.take(k + 1).drop_last() =~= ns.take(k));
    } else {
        assert(ns.take(k) =~= ns);
    }
}

/// `a + b`, or `None` when it does not fit a `usize`.
fn bound_sum(a: usize, b: usize) -> (r: Option<usize>)
    ensures
        r matches Some(s) ==> s == a + b,
        r is None ==> a + b > usize::MAX,
{
    if a <= usize::MAX - b {
        Some(a + b)
    } else {
        None
    }
}

/// A bound on the number of lines of code for the nodes `ns`, at any
/// depth; `None` when the bound does not fit a `usize`.
fn nodes_line_bound(ns: &Vec<IRNode>) -> (r: Option<usize>)
    ensures
        r == fitting(nodes_bound(ns@)),
        r matches Some(k) ==> forall|d: nat| #[trigger] nodes_lines(ns@, d).len() <= k,
    decreases ns@, 2nat,
{
    let mut total: usize = 0;
    let mut i: usize = 0;
    proof {
        assert forall|d: nat| #[trigger] nodes_lines(ns@.take(0), d).len() <= 0 by {
            assert(ns@.take(0) =~= Seq::<IRNode>::empty());
        }
        assert(ns@.take(0) =~= Seq::<IRNode>::empty());
    }
    while i < ns.len()
        invariant
            i <= ns@.len(),
            total == nodes_bound(ns@.take(i as int)),
            forall|d: nat| #[trigger] nodes_lines(ns@.take(i as int), d).len() <= total,
        decreases ns@.len() - i,
    {
        proof {
            assert(ns@.take(i + 1).drop_last() =~= ns@.take(i as int));
            assert(ns@.take(i + 1).last() == ns@[i as int]);
            lemma_nodes_bound_prefix(ns@, i + 1);
        }
        let b = match node_line_bound(&ns[i]) {
            Some(b) => b,
            None => return None,
        };
        let t = match bound_sum(total, b) {
            Some(t) => t,
            None => return None,
        };
        proof {
            assert forall|d: nat| #[trigger] nodes_lines(ns@.take(i + 1), d).len() <= t by {
                assert(ns@.take(i + 1).drop_last() =~= ns@.take(i as int));
                assert(ns@.take(i + 1).last() == ns@[i as int]);
                assert(node_lines(ns@[i as int], d).len() <= b);
                assert(nodes_lines(ns@.take(i as int), d).len() <= total);
            }
        }
        total = t;
        i = i + 1;
    }
    proof {
        assert(ns@.take(i as int) =~= ns@);
    }
    Some(total)
}

/// A bound on the number of lines of code for the nodes of an optional
/// branch, at any depth: none without one.
fn branch_line_bound(ns: &Option<Vec<IRNode>>) -> (r: Option<usize>)
    ensures
        r == fitting(match *ns {
            Some(v) => nodes_bound(v@),
            None => 0,
        }),
        r matches Some(k) ==> match *ns {
            Some(v) => forall|d: nat| #[trigger] nodes_lines(v@, d).len() <= k,
            None => k == 0,
        },
    decreases *ns, 3nat,
{
    match ns {
        Some(v) => nodes_line_bound(v),
        None => Some(0),
    }
}

/// A bound on the number of lines of code for the node `n`, at any depth;
/// `None` when the bound does not fit a `usize`.
#[verifier::rlimit(40)]
fn node_line_bound(n: &IRNode) -> (r: Option<usize>)
    ensures
        r == fitting(node_bound(*n)),
        r matches Some(k) ==> forall|d: nat| #[trigger] node_lines(*n, d).len() <= k,
    decreases n, 1nat,
{
    match n {
        IRNode::IfNode { then_branch, else_branch, .. } => {
            let t = match nodes_line_bound(then_branch) {
                Some(t) => t,
                None => return None,
            };
            let e = match branch_line_bound(else_branch) {
                Some(e) => e,
                None => return None,
            };
            let te = match bound_sum(t, e) {
                Some(x) => x,
                None => return None,
            };
            match bound_sum(te, 5) {
                Some(k) => {
                    proof {
                        assert forall|d: nat| #[trigger] node_lines(*n, d).len() <= k by {
                            assert(nodes_lines(then_branch@, d + 1).len() <= t);
                            match else_branch {
                                Some(ev) => {
                                    assert(nodes_lines(ev@, d + 1).len() <= e);
                                },
                                None => {},
                            }
                        }
                    }
                    Some(k)
                },
                None => None,
            }
        },
        IRNode::EachNode { body, empty, .. } => {
            let b = match nodes_line_bound(body) {
                Some(b) => b,
                None => return None,
            };
            let e = match branch_line_bound(empty) {
                Some(e) => e,
                None => return None,
            };
            let be = match bound_sum(b, e) {
                Some(x) => x,
                None => return None,
            };
            match bound_sum(be, 15) {
                Some(k) => {
                    proof {
                        assert forall|d: nat| #[trigger] node_lines(*n, d).len() <= k by {
                            let inner: nat = if empty is Some { d + 1 } else { d };
                            assert(nodes_lines(body@, inner + 1).len() <= b);
                            match empty {
                                Some(ev) => {
                                    assert(nodes_lines(ev@, d + 1).len() <= e);
                                },
                                None => {},
                            }
                        }
                    }
                    Some(k)
                },
                None => None,
            }
        },
        IRNode::ElementNode { attributes, children, .. } => {
            let c = match nodes_line_bound(children) {
                Some(c) => c,
                None => return None,
            };
            if attributes.len() > (usize::MAX - 3) / 8 {
                return None;
            }
            let a = 8 * attributes.len() + 3;
            match bound_sum(c, a) {
                Some(k) => {
                    proof {
                        assert forall|d: nat| #[trigger] node_lines(*n, d).len() <= k by {
                            lemma_attrs_lines_len(attributes@, d);
                            assert(nodes_lines(children@, d).len() <= c);
                        }
                    }
                    Some(k)
                },
                None => None,
            }
        },
        IRNode::ComponentNode { attributes, children, .. } => {
            let c = match branch_line_bound(children) {
                Some(c) => c,
                None => return None,
            };
            if attributes.len() > usize::MAX - 4 {
                return None;
            }
            match bound_sum(c, attributes.len() + 4) {
                Some(k) => {
                    proof {
                        assert forall|d: nat| #[trigger] node_lines(*n, d).len() <= k by {
                            lemma_props_lines_len(attributes@, d);
                            match children {
                                Some(cv) => {
                                    assert(nodes_lines(cv@, d + 1).len() <= c);
                                },
                                None => {},
                            }
                        }
                    }
                    Some(k)
                },
                None => None,
            }
        },
        IRNode::HtmlComment { children } => {
            let c = match nodes_line_bound(children) {
                Some(c) => c,
                None => return None,
            };
            match bound_sum(c, 2) {
                Some(k) => {
                    proof {
                        assert forall|d: nat| #[trigger] node_lines(*n, d).len() <= k by {
                            assert(nodes_lines(children@, d).len() <= c);
                        }
                    }
                    Some(k)
                },
                None => None,
            }
        },
        IRNode::ScriptAny { content } => {
            let len = content.unicode_len();
            if len > (usize::MAX - 2) / 2 {
                return None;
            }
            proof {
                assert forall|d: nat| #[trigger] node_lines(*n, d).len() <= 2 * len + 2 by {
                    lemma_script_lines_len(content@, 0, 0, d);
                }
            }
            Some(2 * len + 2)
        },
        IRNode::RenderChildren { .. } => Some(5),
        _ => Some(1),
    }
}

/// Whether the lines of the module generated for `ir` under the name
/// `module_name` can be numbered in a `usize`. It holds unless the IR is
/// close to the size of the address space.
pub fn fits_line_numbers(ir: &IR, module_name: &str) -> (b: bool)
    ensures
        b == (nodes_bound(ir.body@) < usize::MAX - 100),
        b ==> module_lines(*ir, module_name@).len() + 1 < usize::MAX,
{
    match nodes_line_bound(&ir.body) {
        Some(k) => {
            proof {
                assert(nodes_lines(ir.body@, 1).len() <= k);
                assert(helper_lines().len() == 26);
                assert(context_lines().len() == 31);
                assert(render_head_lines().len() == 10);
                assert(module_tail_lines(module_name@).len() == 11);
            }
            k < usize::MAX - 100
        },
        None => false,
    }
}

impl LuaCodeGenerator {
    #[verifier::spinoff_prover]
    fn generate_helpers(&mut self)
        requires
            old(self).wf(),
            old(self).indent_level == 0,
            old(self).room(helper_lines().len() as int),
        ensures
            final(self).wrote(*old(self), helper_lines()),
    {
        let ghost before = self.lines@;
        self.write_line("-- Helper functions");
        self.write_line("local function html_escape(str)");
        self.indent();
        self.write_line("if str == nil then return '' end");
        self.write_line("str = tostring(str)");
        self.write_line("str = string.gsub(str, '&', '&amp;')");
        self.write_line("str = string.gsub(str, '<', '&lt;')");
        self.write_line("str = string.gsub(str, '>', '&gt;')");
        self.write_line("str = string.gsub(str, '\"', '&quot;')");
        self.write_line("str = string.gsub(str, \"'\", '&#39;')");
        self.write_line("return str");
        self.dedent();
        self.write_line("end");
        self.write_line("");
        self.write_line("local function smart_tostring(val)");
        self.indent();
        self.write_line("if val == nil then return '' end");
        self.write_line("if type(val) == 'table' then");
        self.indent();
        self.write_line("local parts = {}");
        self.write_line("for k, v in pairs(val) do");
        self.indent();
        self.write_line("table.insert(parts, '\"' .. k .. '\": ' .. smart_tostring(v))");
        self.dedent();
        self.write_line("end");
        self.write_line("return '{ ' .. table.concat(parts, ', ') .. ' }'");
        self.dedent();
        self.write_line("else");
        self.indent();
        self.write_line("return tostring(val)");
        self.dedent();
        self.write_line("end");
        self.dedent();
        self.write_line("end");
        self.write_line("");
        self.write_line("local exports = {}");
        proof {
            assert(self.lines@ =~= before + helper_lines());
        }
    }

    #[verifier::spinoff_prover]
    #[verifier::rlimit(40)]
    fn generate_context_helpers(&mut self)
        requires
            old(self).wf(),
            old(self).indent_level == 1,
            old(self).room(context_lines().len() as int),
        ensures
            final(self).wrote(*old(self), context_lines()),
    {
        let ghost before = self.lines@;
        self.write_line("-- Context API (like Svelte's setContext/getContext)");
        self.write_line("local function setContext(key, value)");
        self.indent();
        self.write_line("local current = runtime.context_stack[#runtime.context_stack]");
        self.write_line("if current then");
        self.indent();
        self.write_line("current[key] = value");
        self.dedent();
        self.write_line("else");
        self.indent();
        self.write_line("error(\"No current context scope to set key: \" .. key)");
        self.dedent();
        self.write_line("end");
        self.dedent();
        self.write_line("end");
        self.write_line("");
        self.write_line("local function getContext(key)");
        self.indent();
        self.write_line("-- Lookup from top to bottom");
        self.write_line("for i = #runtime.context_stack, 1, -1 do");
        self.indent();
        self.write_line("local scope = runtime.context_stack[i]");
        self.write_line("if scope[key] ~= nil then");
        self.indent();
        self.write_line("return scope[key]");
        self.dedent();
        self.write_line("end");
        self.dedent();
        self.write_line("end");
        self.write_line("return nil");
        self.dedent();
        self.write_line("end");
        self.write_line("");
        self.write_line("-- Page context API (persists across entire request, not scoped)");
        self.write_line("local function setPageContext(key, value)");
        self.indent();
        self.write_line("runtime.page_context = runtime.page_context or {}");
        self.write_line("runtime.page_context[key] = value");
        self.dedent();
        self.write_line("end");
        self.write_line("");
        self.write_line("local function getPageContext(key)");
        self.indent();
        self.write_line("return runtime.page_context and runtime.page_context[key]");
        self.dedent();
        self.write_line("end");
        self.write_line("");
        proof {
            assert(self.lines@ =~= before + context_lines());
        }
    }

    /// Writes a script block under `comment`.
    fn generate_script_block(&mut self, script: &Option<ScriptBlock>, comment: &str)
        requires
            old(self).wf(),
            old(self).room(3),
        ensures
            final(self).wrote(*old(self), script_lines_at(*script, comment@, old(self).depth())),
    {
        let ghost before = self.lines@;
        match script {
            Some(block) => {
                self.write_line(comment);
                self.write_line(block.content.as_str());
                self.write_line("");
                proof {
                    assert(self.lines@ =~= before + script_lines_at(*script, comment@, self.depth()));
                }
            },
            None => {
                proof {
                    assert(self.lines@ =~= before + script_lines_at(*script, comment@, self.depth()));
                }
            },
        }
    }

    fn generate_render_head(&mut self)
        requires
            old(self).wf(),
            old(self).indent_level == 0,
            old(self).room(render_head_lines().len() as int),
        ensures
            final(self).wf(),
            final(self).lines@ == old(self).lines@ + render_head_lines(),
            final(self).indent_level == 1,
    {
        let ghost before = self.lines@;
        self.write_line("local function render(props, runtime)");
        self.indent();
        self.write_line("runtime = runtime or {}");
        self.write_line("props = props or {}");
        self.write_line("local __output = {}");
        self.write_line("local function __write(content)");
        self.indent();
        self.write_line("table.insert(__output, tostring(content))");
        self.dedent();
        self.write_line("end");
        self.write_line("");
        self.write_line("runtime.context_stack = runtime.context_stack or {}");
        self.write_line("table.insert(runtime.context_stack, {})");
        proof {
            assert(self.lines@ =~= before + render_head_lines());
        }
    }

    fn generate_tail(&mut self, name: &str)
        requires
            old(self).wf(),
            old(self).indent_level == 1,
            old(self).room(module_tail_lines(name@).len() as int),
        ensures
            final(self).wf(),
            final(self).lines@ == old(self).lines@ + module_tail_lines(name@),
    {
        let ghost before = self.lines@;
        self.write_line("");
        self.write_line("-- Pop the context scope after rendering");
        self.write_line("table.remove(runtime.context_stack)");
        self.write_line("return table.concat(__output)");
        self.dedent();
        self.write_line("end");
        self.write_line("");
        self.write_line("-- Exported module");
        self.write_line("exports.render = render");
        let mut e = String::new();
        e.append("exports.moduleName = \"");
        e.append(escape_lua_string(name).as_str());
        e.append("\"");
        self.write_line(e.as_str());
        self.write_line("");
        self.write_line("return exports");
        proof {
            assert(e@ =~= "exports.moduleName = \""@ + lua_escape(name@) + "\""@);
            assert(self.lines@ =~= before + module_tail_lines(name@));
        }
    }

    /// Writes the whole module for `ir`.
    fn generate(&mut self, ir: IR) -> (r: Result<String, LuatError>)
        requires
            old(self).wf(),
            old(self).lines@.len() == 0,
            old(self).indent_level == 0,
            old(self).room(module_lines(ir, old(self).module_name@).len() as int),
        ensures
            r matches Ok(code) && code@ == module_text(ir, old(self).module_name@),
            final(self).source_map@ == line_marks(module_lines(ir, old(self).module_name@), 1),
            final(self).source_map.wf(),
            final(self).lines@ == module_lines(ir, old(self).module_name@),
            final(self).breaks@.len() == final(self).lines@.len(),
            forall|k: int| 0 <= k < final(self).lines@.len() ==> final(self).breaks@[k] == char_count(#[trigger] final(self).lines@[k].text, '\n'),
    {
        let ghost all = module_lines(ir, self.module_name@);
        let name = owned(self.module_name.as_str());
        let ghost l0 = self.lines@;
        self.write_line("-- Generated Lua template module");
        let mut m = String::new();
        m.append("-- Module: ");
        m.append(name.as_str());
        self.write_line(m.as_str());
        self.write_line("");
        self.generate_helpers();
        self.generate_script_block(&ir.module_script, "-- Module script (hoisted)");
        let ghost l1 = self.lines@;
        proof {
            assert(m@ =~= "-- Module: "@ + name@);
            assert(l1 =~= seq![ln(0, "-- Generated Lua template module"@), ln(0, "-- Module: "@ + name@), ln(0, ""@)]
                + helper_lines() + script_lines_at(ir.module_script, "-- Module script (hoisted)"@, 0));
        }
        self.generate_render_head();
        self.generate_context_helpers();
        self.generate_script_block(&ir.regular_script, "-- Regular script (executed on each render)");
        self.generate_nodes(&ir.body);
        self.generate_tail(name.as_str());
        proof {
            reveal(LuaCodeGenerator::wf);
            assert(self.lines@ =~= all);
        }
        let mut out = String::new();
        std::mem::swap(&mut out, &mut self.output);
        Ok(out)
    }
}

/// Generates the Lua module for `ir`, named `module_name`.
pub fn generate_lua_code(ir: IR, module_name: &str) -> (r: Result<String, LuatError>)
    requires
        module_lines(ir, module_name@).len() + 1 < usize::MAX,
    ensures
        r matches Ok(code) && code@ == module_text(ir, module_name@),
{
    let mut generator = LuaCodeGenerator::new(module_name);
    generator.generate(ir)
}

/// Generates the Lua module for `ir`, named `module_name`, with its source
/// map, which also stands as a comment on the first line of the code when
/// it holds a mapping.
pub fn generate_lua_code_with_sourcemap(ir: IR, module_name: &str) -> (r: Result<(String, LuaSourceMap), LuatError>)
    requires
        module_lines(ir, module_name@).len() + 1 < usize::MAX,
    ensures
        2 + phys_total(module_lines(ir, module_name@)) <= usize::MAX ==> (r matches Ok((code, map)) && {
            &&& map.wf()
            &&& map@ == phys_marks(module_lines(ir, module_name@), 2)
            &&& code@ == if map@.len() == 0 {
                module_text(ir, module_name@)
            } else {
                comment_text(map@) + seq!['\n'] + module_text(ir, module_name@)
            }
        }),
        2 + phys_total(module_lines(ir, module_name@)) > usize::MAX ==> (r matches Err(e) && is_lines_overflow(e)),
{
    let mut generator = LuaCodeGenerator::new(module_name);
    generator.generate_with_sourcemap(ir)
}

impl LuaCodeGenerator {
    /// Writes the whole module for `ir` and returns it with its source
    /// map, the map's comment prepended to the code when not empty.
    fn generate_with_sourcemap(&mut self, ir: IR) -> (r: Result<(String, LuaSourceMap), LuatError>)
        requires
            old(self).wf(),
            old(self).lines@.len() == 0,
            old(self).indent_level == 0,
            old(self).room(module_lines(ir, old(self).module_name@).len() as int),
        ensures
            2 + phys_total(module_lines(ir, old(self).module_name@)) <= usize::MAX ==> (r matches Ok((code, map)) && {
                &&& map.wf()
                &&& map@ == phys_marks(module_lines(ir, old(self).module_name@), 2)
                &&& code@ == if map@.len() == 0 {
                    module_text(ir, old(self).module_name@)
                } else {
                    comment_text(map@) + seq!['\n'] + module_text(ir, old(self).module_name@)
                }
            }),
            2 + phys_total(module_lines(ir, old(self).module_name@)) > usize::MAX ==> (r matches Err(e) && is_lines_overflow(e)),
    {
        let code = match self.generate(ir) {
            Ok(c) => c,
            Err(e) => return Err(e),
        };
        let ghost all = module_lines(ir, old(self).module_name@);
        proof {
            reveal(LuaCodeGenerator::wf);
            lemma_line_marks_bounded(all, 1);
        }
        proof {
            lemma_phys_total_len(all);
        }
        let starts = match phys_starts(&self.breaks, 2, Ghost(self.lines@)) {
            Some(v) => v,
            None => {
                return Err(lines_overflow());
            },
        };
        proof {
            lemma_phys_marks_placed(all, 2);
            lemma_phys_marks_bounded(all, 2);
        }
        let map = LuaSourceMap { mappings: place_marks(&self.source_map.mappings, &starts) };
        proof {
            assert(map@ =~= phys_marks(all, 2));
        }
        let comment = map.to_comment();
        if comment.unicode_len() != 0 {
            let mut out = String::new();
            out.append(comment.as_str());
            push_char(&mut out, '\n');
            out.append(code.as_str());
            Ok((out, map))
        } else {
            proof {
                if map@.len() > 0 {
                    reveal_strlit("--[[SRCMAP:");
                }
            }
            Ok((code, map))
        }
    }
}

/// The Lua line that each of the lines `ls` starts on, counted from
/// `first`, given the number of line breaks in each (`breaks`); `None` when
/// the last of them would not fit in a `usize`.
fn phys_starts(breaks: &Vec<usize>, first: usize, ls: Ghost<Seq<CodeLine>>) -> (r: Option<Vec<usize>>)
    requires
        breaks@.len() == ls@.len(),
        forall|k: int| 0 <= k < ls@.len() ==> breaks@[k] == char_count(#[trigger] ls@[k].text, '\n'),
    ensures
        match r {
            Some(v) => first + phys_total(ls@) <= usize::MAX && v@.len() == ls@.len()
                && forall|k: int| 0 <= k < v@.len() ==> v@[k] == first + phys_total(#[trigger] ls@.take(k)),
            None => first + phys_total(ls@) > usize::MAX,
        },
{
    let mut v: Vec<usize> = Vec::new();
    let mut at: usize = first;
    let mut j: usize = 0;
    proof {
        assert(ls@.take(0) =~= Seq::<CodeLine>::empty());
    }
    while j < breaks.len()
        invariant
            j <= breaks@.len() == ls@.len(),
            forall|k: int| 0 <= k < ls@.len() ==> breaks@[k] == char_count(#[trigger] ls@[k].text, '\n'),
            at == first + phys_total(ls@.take(j as int)),
            v@.len() == j,
            forall|k: int| 0 <= k < j ==> v@[k] == first + phys_total(#[trigger] ls@.take(k)),
        decreases breaks@.len() - j,
    {
        v.push(at);
        proof {
            assert(ls@.take(j + 1).drop_last() =~= ls@.take(j as int));
            assert(ls@.take(j + 1).last() == ls@[j as int]);
        }
        if breaks[j] >= usize::MAX - at {
            proof {
                lemma_phys_total_prefix(ls@, j + 1);
            }
            return None;
        }
        at = at + breaks[j] + 1;
        j = j + 1;
    }
    proof {
        assert(ls@.take(j as int) =~= ls@);
    }
    Some(v)
}

/// A prefix of the lines takes no more Lua lines than the whole.
proof fn lemma_phys_total_prefix(ls: Seq<CodeLine>, k: int)
    requires
        0 <= k <= ls.len(),
    ensures
        phys_total(ls.take(k)) <= phys_total(ls),
    decreases ls.len() - k,
{
    if k < ls.len() {
        lemma_phys_total_prefix(ls, k + 1);
        assert(ls.take(k + 1).drop_last() =~= ls.take(k));
    } else {
        assert(ls.take(k) =~= ls);
    }
}

/// Each mark `(k, t)` moved to the Lua line that line `k` starts on.
fn place_marks(marks: &Vec<(usize, usize)>, starts: &Vec<usize>) -> (r: Vec<(usize, usize)>)
    requires
        forall|i: int| 0 <= i < marks@.len() ==> 1 <= (#[trigger] marks@[i]).0 <= starts@.len(),
    ensures
        r@ == marks@.map_values(|e: (usize, usize)| (starts@[e.0 - 1], e.1)),
{
    let mut r: Vec<(usize, usize)> = Vec::new();
    let mut i: usize = 0;
    while i < marks.len()
        invariant
            i <= marks@.len(),
            forall|k: int| 0 <= k < marks@.len() ==> 1 <= (#[trigger] marks@[k]).0 <= starts@.len(),
            r@ == marks@.take(i as int).map_values(|e: (usize, usize)| (starts@[e.0 - 1], e.1)),
        decreases marks@.len() - i,
    {
        let (k, t) = marks[i];
        r.push((starts[k - 1], t));
        proof {
            assert(marks@.take(i + 1) =~= marks@.take(i as int).push(marks@[i as int]));
            assert(r@ =~= marks@.take(i + 1).map_values(|e: (usize, usize)| (starts@[e.0 - 1], e.1)));
        }
        i = i + 1;
    }
    proof {
        assert(marks@.take(i as int) =~= marks@);
    }
    r
}

/// Moving each mark of the lines numbered from one to the Lua line its
/// line starts on gives the marks numbered by Lua lines.
proof fn lemma_phys_marks_placed(ls: Seq<CodeLine>, first: nat)
    requires
        first + phys_total(ls) <= usize::MAX,
    ensures
        line_marks(ls, 1).map_values(|e: (usize, usize)| ((first + phys_total(ls.take(e.0 - 1))) as usize, e.1))
            == phys_marks(ls, first),
    decreases ls.len(),
{
    if ls.len() > 0 {
        let d = ls.drop_last();
        lemma_phys_total_prefix(ls, d.len() as int);
        assert(ls.take(d.len() as int) =~= d);
        lemma_phys_marks_placed(d, first);
        lemma_phys_total_len(d);
        lemma_line_marks_bounded(d, 1);
        let f_ls = |e: (usize, usize)| ((first + phys_total(ls.take(e.0 - 1))) as usize, e.1);
        let f_d = |e: (usize, usize)| ((first + phys_total(d.take(e.0 - 1))) as usize, e.1);
        let m = line_marks(d, 1);
        assert forall|i: int| 0 <= i < m.len() implies #[trigger] f_ls(m[i]) == f_d(m[i]) by {
            assert(ls.take(m[i].0 - 1) =~= d.take(m[i].0 - 1));
        }
        assert(m.map_values(f_ls) =~= m.map_values(f_d));
        if ls.last().src > 0 {
            assert(line_marks(ls, 1) == m.push(((1 + ls.len() - 1) as usize, ls.last().src as usize)));
            assert(line_marks(ls, 1).map_values(f_ls) =~= m.map_values(f_ls).push(f_ls(((1 + ls.len() - 1) as usize, ls.last().src as usize))));
            assert(line_marks(ls, 1).map_values(f_ls) =~= phys_marks(ls, first));
        } else {
            assert(line_marks(ls, 1).map_values(f_ls) =~= phys_marks(ls, first));
        }
    } else {
        assert(line_marks(ls, 1).map_values(|e: (usize, usize)| ((first + phys_total(ls.take(e.0 - 1))) as usize, e.1))
            =~= phys_marks(ls, first));
    }
}

/// The lines take at least one Lua line each.
proof fn lemma_phys_total_len(ls: Seq<CodeLine>)
    ensures
        phys_total(ls) >= ls.len(),
    decreases ls.len(),
{
    if ls.len() > 0 {
        lemma_phys_total_len(ls.drop_last());
    }
}

/// The marks numbered by Lua lines are in increasing order, between
/// `first` and the last line's number.
proof fn lemma_phys_marks_bounded(ls: Seq<CodeLine>, first: nat)
    requires
        first + phys_total(ls) <= usize::MAX,
    ensures
        sorted_keys(phys_marks(ls, first)),
        forall|i: int| 0 <= i < phys_marks(ls, first).len() ==> first <= (#[trigger] phys_marks(ls, first)[i]).0 < first + phys_total(ls),
    decreases ls.len(),
{
    if ls.len() > 0 {
        lemma_phys_marks_bounded(ls.drop_last(), first);
    }
}

/// A source map's comment is one line.
proof fn lemma_comment_one_line(m: Seq<(usize, usize)>)
    ensures
        lacks_char(comment_text(m), '\n'),
{
    if m.len() > 0 {
        reveal_strlit("--[[SRCMAP:");
        reveal_strlit("]]");
        reveal_strlit(",");
        let ps = pair_texts(m);
        assert forall|i: int| 0 <= i < ps.len() implies lacks_char(#[trigger] ps[i], '\n') by {
            lemma_pair_text(m[i]);
        }
        lemma_join_lacks(ps, ","@, '\n');
        let h = "--[[SRCMAP:"@;
        let j = join(ps, ","@);
        let t = "]]"@;
        let c = comment_text(m);
        assert(c == h + j + t);
        assert forall|i: int| 0 <= i < c.len() implies #[trigger] c[i] != '\n' by {
            if i < h.len() {
                assert(c[i] == h[i]);
            } else if i < h.len() + j.len() {
                assert(c[i] == j[i - h.len()]);
            } else {
                assert(c[i] == t[i - h.len() - j.len()]);
            }
        }
    }
}

/// The text of some lines followed by more is the text of each.
proof fn lemma_render_append(a: Seq<CodeLine>, b: Seq<CodeLine>)
    ensures
        render(a + b) == render(a) + render(b),
    decreases b.len(),
{
    if b.len() == 0 {
        assert(a + b =~= a);
        assert(render(a) + render(b) =~= render(a));
    } else {
        assert((a + b).drop_last() =~= a + b.drop_last());
        lemma_render_append(a, b.drop_last());
        assert(render(a) + render(b.drop_last()) + render_line(b.last()) =~= render(a) + (render(b.drop_last()) + render_line(b.last())));
    }
}

/// Indentation holds no line break.
proof fn lemma_indent_lacks_break(d: nat)
    ensures
        lacks_char(repeat("  "@, d), '\n'),
    decreases d,
{
    reveal_strlit("  ");
    if d > 0 {
        lemma_indent_lacks_break((d - 1) as nat);
        let a = repeat("  "@, (d - 1) as nat);
        let r = repeat("  "@, d);
        assert(r == a + "  "@);
        assert forall|i: int| 0 <= i < r.len() implies #[trigger] r[i] != '\n' by {
            if i < a.len() {
                assert(r[i] == a[i]);
            } else {
                assert(r[i] == "  "@[i - a.len()]);
            }
        }
    }
}

/// One line of code takes one Lua line, and one more for each line break
/// in its text.
proof fn lemma_render_line_lines(l: CodeLine)
    ensures
        lines(render_line(l)).len() == 1 + char_count(l.text, '\n'),
        render_line(l).last() == '\n',
{
    let ind: Seq<char> = if l.text.len() == 0 { Seq::empty() } else { repeat("  "@, l.depth) };
    lemma_indent_lacks_break(l.depth);
    lemma_char_count_none(ind, '\n');
    lemma_char_count_concat(ind, l.text, '\n');
    lemma_char_count_concat(ind + l.text, seq!['\n'], '\n');
    assert(char_count(seq!['\n'], '\n') == 1) by {
        let one = seq!['\n'];
        assert(one.drop_last() =~= Seq::<char>::empty());
        assert(char_count(Seq::<char>::empty(), '\n') == 0);
    }
    assert(render_line(l) == ind + l.text + seq!['\n']);
    lemma_lines_len(render_line(l));
}

/// The lines of code `ls` take `phys_total(ls)` Lua lines.
proof fn lemma_render_lines_len(ls: Seq<CodeLine>)
    ensures
        lines(render(ls)).len() == phys_total(ls),
        render(ls).len() == 0 || render(ls).last() == '\n',
    decreases ls.len(),
{
    if ls.len() > 0 {
        lemma_render_lines_len(ls.drop_last());
        lemma_render_line_lines(ls.last());
        lemma_lines_append(render(ls.drop_last()), render_line(ls.last()));
    }
}

/// Mark `i` of the lines `ls` numbered from `first` is line `k` of `ls`,
/// which starts at Lua line `first + phys_total(ls.take(k))`.
proof fn lemma_phys_mark_line(ls: Seq<CodeLine>, first: nat, i: int) -> (k: int)
    requires
        0 <= i < phys_marks(ls, first).len(),
        first + phys_total(ls) <= usize::MAX,
    ensures
        0 <= k < ls.len(),
        ls[k].src > 0,
        phys_marks(ls, first)[i] == ((first + phys_total(ls.take(k))) as usize, ls[k].src as usize),
    decreases ls.len(),
{
    let d = ls.drop_last();
    lemma_phys_total_prefix(ls, d.len() as int);
    assert(ls.take(d.len() as int) =~= d);
    if i < phys_marks(d, first).len() {
        let k = lemma_phys_mark_line(d, first, i);
        assert(d.take(k) =~= ls.take(k));
        k
    } else {
        let k = ls.len() - 1;
        k
    }
}

/// Each mark of the source map names a line of the code it is given with:
/// mark `(l, t)` stands for a code line generated from template line `t`,
/// and line `l` of the code (counted from 1, the map's comment being line
/// 1) is the first line of that code line's text. Stated for maps that are
/// not empty, so that the comment stands first.
pub proof fn lemma_marks_name_code_lines(ls: Seq<CodeLine>, i: int) -> (k: int)
    requires
        0 <= i < phys_marks(ls, 2).len(),
        2 + phys_total(ls) <= usize::MAX,
    ensures
        0 <= k < ls.len(),
        phys_marks(ls, 2)[i].1 == ls[k].src as usize,
        lines(comment_text(phys_marks(ls, 2)) + seq!['\n'] + render(ls))[phys_marks(ls, 2)[i].0 - 1]
            == lines(render_line(ls[k]))[0],
{
    let k = lemma_phys_mark_line(ls, 2, i);
    let m = phys_marks(ls, 2);
    let c = comment_text(m);
    lemma_comment_one_line(m);
    lemma_line_of(c);
    lemma_lines_append(c + seq!['\n'], render(ls));
    let pre = ls.take(k);
    let rest = ls.skip(k + 1);
    assert(ls =~= pre + seq![ls[k]] + rest);
    lemma_render_append(pre + seq![ls[k]], rest);
    lemma_render_append(pre, seq![ls[k]]);
    assert(seq![ls[k]].drop_last() =~= Seq::<CodeLine>::empty());
    assert(render(Seq::<CodeLine>::empty()) =~= Seq::<char>::empty());
    assert(render(seq![ls[k]]) =~= render_line(ls[k]));
    lemma_render_lines_len(pre);
    lemma_render_line_lines(ls[k]);
    lemma_lines_append(render(pre), render_line(ls[k]) + render(rest));
    lemma_lines_append(render_line(ls[k]), render(rest));
    assert(render(ls) =~= render(pre) + (render_line(ls[k]) + render(rest)));
    lemma_phys_total_prefix(ls, k);
    let at = phys_total(pre) as int;
    assert(m[i].0 == 2 + at);
    let first = lines(c + seq!['\n']);
    assert(first.len() == 1);
    let body = lines(render(ls));
    assert(lines(c + seq!['\n'] + render(ls)) == first + body);
    assert(body == lines(render(pre)) + lines(render_line(ls[k]) + render(rest)));
    assert(lines(render(pre)).len() == at);
    assert(body[at] == lines(render_line(ls[k]) + render(rest))[0]);
    assert(lines(render_line(ls[k]) + render(rest))[0] == lines(render_line(ls[k]))[0]);
    assert((first + body)[1 + at] == body[at]);
    k
}

/// The error of a module with more Lua lines than a `usize` counts.
pub open spec fn is_lines_overflow(e: LuatError) -> bool {
    e matches LuatError::CodegenError(m) && m@ == "template too large to compile"@
}

fn lines_overflow() -> (e: LuatError)
    ensures
        is_lines_overflow(e),
{
    LuatError::CodegenError(owned("template too large to compile"))
}


// ---------------------------------------------------------------------------
// Bundles
// ---------------------------------------------------------------------------

/// The start of every bundle: the module tables and the `require` that
/// resolves names among the bundled modules.
pub const BUNDLE_PRELUDE: &'static str = "-- Bundled Lua template modules
-- Use internal load function preserved by sandbox
local __load = __luat_internal_load
local __original_require = require
local __module_loaders = {}
local __modules = {}

local function __normalize_path(path)
  path = string.gsub(path, \"\\\\\", \"/\")
  local parts = {}
  for part in string.gmatch(path, \"[^/]+\") do
    if part == \"..\" then
      if #parts > 0 then table.remove(parts) end
    elseif part ~= \".\" and part ~= \"\" then
      table.insert(parts, part)
    end
  end
  return table.concat(parts, \"/\")
end

local function __dirname(path)
  if not path or path == \"\" then return \"\" end
  local dir = string.match(path, \"^(.*)/\")
  if not dir then return \"\" end
  return dir
end

local function __expand_alias(name)
  if string.sub(name, 1, 5) == \"$lib/\" then
    return \"lib/\" .. string.sub(name, 6)
  end
  return name
end

local function __add_candidates(candidates, base)
  if base == \"\" then return end
  table.insert(candidates, base)
  if not string.match(base, \"%.luat$\") and not string.match(base, \"%.lua$\") then
    table.insert(candidates, base .. \".luat\")
    table.insert(candidates, base .. \".lua\")
  end
end

local function __resolve_module(name, importer)
  local require_map = rawget(_G, \"__require_map\")
  if require_map ~= nil then
    local importer_map = require_map[importer] or require_map[\"\"]
    if importer_map and importer_map[name] then
      local resolved = importer_map[name]
      if __modules[resolved] ~= nil then
        return \"module\", resolved
      end
      if __module_loaders[resolved] ~= nil then
        return \"loader\", resolved
      end
      if __server_sources and __server_sources[resolved] ~= nil then
        return \"server\", resolved
      end
    end
  end
  local candidates = {}
  local expanded = __expand_alias(name)
  local base_dir = \"\"
  if importer and importer ~= \"\" then
    base_dir = __dirname(importer)
  end
  if string.sub(expanded, 1, 1) == \"/\" then
    __add_candidates(candidates, __normalize_path(string.sub(expanded, 2)))
  elseif string.sub(expanded, 1, 2) == \"./\" or string.sub(expanded, 1, 3) == \"../\" then
    local joined = expanded
    if base_dir ~= \"\" then joined = base_dir .. \"/\" .. expanded end
    __add_candidates(candidates, __normalize_path(joined))
  else
    if base_dir ~= \"\" then
      __add_candidates(candidates, __normalize_path(base_dir .. \"/\" .. expanded))
    end
    __add_candidates(candidates, __normalize_path(expanded))
  end
  local basename = string.match(expanded, \"([^/]+)$\") or expanded
  if basename ~= expanded then
    if base_dir ~= \"\" then
      __add_candidates(candidates, __normalize_path(base_dir .. \"/\" .. basename))
    end
    __add_candidates(candidates, __normalize_path(basename))
  end
  for _, key in ipairs(candidates) do
    if __modules[key] ~= nil then
      return \"module\", key
    end
    if __module_loaders[key] ~= nil then
      return \"loader\", key
    end
    if __server_sources and __server_sources[key] ~= nil then
      return \"server\", key
    end
  end
  return nil
end

local function __load_server_module(key)
  if package.loaded[key] ~= nil then return package.loaded[key] end
  if not __server_sources then return nil end
  local source = __server_sources[key]
  if not source then return nil end
  local prev = _G.__luat_current_module
  _G.__luat_current_module = key
  local fn = __load(source, \"@\" .. key)
  local ok, result = pcall(fn)
  _G.__luat_current_module = prev
  if not ok then error(result, 2) end
  if result == nil then result = true end
  package.loaded[key] = result
  return result
end

local function __require(name)
  local importer = _G.__luat_current_module or \"\"
  local kind, key = __resolve_module(name, importer)
  if kind == \"module\" then return __modules[key] end
  if kind == \"loader\" then
    local result = __module_loaders[key]()
    if result == nil then result = true end
    __modules[key] = result
    package.loaded[key] = result
    return result
  end
  if kind == \"server\" then
    local result = __load_server_module(key)
    if result ~= nil then return result end
  end
  return __original_require(name)
end

_G.require = __require

local function __enhance_error(err, module_name)
  if type(err) ~= 'string' then return err end
  -- Check if error already has module context
  if string.find(err, module_name, 1, true) then return err end
  -- Try to extract line number from bundle error
  local line = string.match(err, ':(%d+):')
  if line then
    -- Replace bundle reference with module name
    local msg = string.match(err, ':%d+:%s*(.*)$') or err
    return module_name .. ':' .. line .. ': ' .. msg
  end
  return module_name .. ': ' .. err
end
";

/// Each line of `ls` indented by four spaces, each ending in a line break.
pub open spec fn indented_lines(ls: Seq<Seq<char>>) -> Seq<char>
    decreases ls.len(),
{
    if ls.len() == 0 {
        Seq::empty()
    } else {
        indented_lines(ls.drop_last()) + "    "@ + ls.last() + seq!['\n']
    }
}

/// The loader of one module in a bundle, whose body is the module's source.
pub open spec fn module_chunk(name: Seq<char>, source: Seq<char>) -> Seq<char> {
    module_head(name) + indented_lines(lines(source)) + module_foot(name)
}

/// The start of the loader of module `name`, up to its source.
pub open spec fn module_head(name: Seq<char>) -> Seq<char> {
    "-- Module: "@ + name + seq!['\n'] + "__module_loaders[\""@ + lua_escape(name) + "\"] = function()\n"@
        + "  local __prev = _G.__luat_current_module\n"@ + "  _G.__luat_current_module = \""@ + lua_escape(name)
        + "\"\n"@ + "  local __ok, __result = pcall(function()\n"@
}

/// The end of the loader of module `name`, after its source.
pub open spec fn module_foot(name: Seq<char>) -> Seq<char> {
    "  end)\n"@ + "  _G.__luat_current_module = __prev\n"@
        + "  if not __ok then error(__enhance_error(__result, \""@ + lua_escape(name) + "\"), 2) end\n"@
        + "  return __result\n"@ + "end\n\n"@
}

/// An escaped name holds no line break.
proof fn lemma_lua_escape_lacks_break(s: Seq<char>)
    ensures
        lacks_char(lua_escape(s), '\n'),
    decreases s.len(),
{
    if s.len() > 0 {
        lemma_lua_escape_lacks_break(s.drop_last());
        let a = lua_escape(s.drop_last());
        let b = lua_escape_char(s.last());
        assert(lua_escape(s) == a + b);
        assert forall|j: int| 0 <= j < (a + b).len() implies #[trigger] (a + b)[j] != '\n' by {
            if j < a.len() {
                assert((a + b)[j] == a[j]);
            } else {
                assert((a + b)[j] == b[j - a.len()]);
            }
        }
    }
}

/// Text that ends in its only line break counts one.
proof fn lemma_one_break(s: Seq<char>)
    requires
        s.len() > 0,
        s.last() == '\n',
        lacks_char(s.drop_last(), '\n'),
    ensures
        char_count(s, '\n') == 1,
{
    lemma_char_count_none(s.drop_last(), '\n');
}

/// The start of a loader ends in a line break, after five lines and one
/// more for each line break in the name.
proof fn lemma_module_head_lines(name: Seq<char>)
    ensures
        module_head(name).len() > 0,
        module_head(name).last() == '\n',
        lines(module_head(name)).len() == char_count(name, '\n') + 5,
{
    let p1 = "-- Module: "@;
    let p3 = seq!['\n'];
    let p4 = "__module_loaders[\""@;
    let p5 = lua_escape(name);
    let p6 = "\"] = function()\n"@;
    let p7 = "  local __prev = _G.__luat_current_module\n"@;
    let p8 = "  _G.__luat_current_module = \""@;
    let p10 = "\"\n"@;
    let p11 = "  local __ok, __result = pcall(function()\n"@;
    reveal_strlit("-- Module: ");
    reveal_strlit("__module_loaders[\"");
    reveal_strlit("\"] = function()\n");
    reveal_strlit("  local __prev = _G.__luat_current_module\n");
    reveal_strlit("  _G.__luat_current_module = \"");
    reveal_strlit("\"\n");
    reveal_strlit("  local __ok, __result = pcall(function()\n");
    lemma_lua_escape_lacks_break(name);
    lemma_char_count_none(p5, '\n');
    lemma_char_count_none(p1, '\n');
    lemma_char_count_none(p4, '\n');
    lemma_char_count_none(p8, '\n');
    lemma_one_break(p3);
    lemma_one_break(p6);
    lemma_one_break(p7);
    lemma_one_break(p10);
    lemma_one_break(p11);
    let h1 = p1 + name;
    let h2 = h1 + p3;
    let h3 = h2 + p4;
    let h4 = h3 + p5;
    let h5 = h4 + p6;
    let h6 = h5 + p7;
    let h7 = h6 + p8;
    let h8 = h7 + p5;
    let h9 = h8 + p10;
    let h10 = h9 + p11;
    lemma_char_count_concat(p1, name, '\n');
    lemma_char_count_concat(h1, p3, '\n');
    lemma_char_count_concat(h2, p4, '\n');
    lemma_char_count_concat(h3, p5, '\n');
    lemma_char_count_concat(h4, p6, '\n');
    lemma_char_count_concat(h5, p7, '\n');
    lemma_char_count_concat(h6, p8, '\n');
    lemma_char_count_concat(h7, p5, '\n');
    lemma_char_count_concat(h8, p10, '\n');
    lemma_char_count_concat(h9, p11, '\n');
    assert(module_head(name) == h10);
    assert(h10.last() == p11.last());
    lemma_lines_len(h10);
}

/// A line that does not end in a carriage return.
pub open spec fn no_trailing_cr(l: Seq<char>) -> bool {
    !(l.len() > 0 && l.last() == '\r')
}

/// The indented lines of `ls` read back as lines are each line of `ls`
/// behind four spaces.
proof fn lemma_indented_lines(ls: Seq<Seq<char>>)
    requires
        forall|k: int| 0 <= k < ls.len() ==> lacks_char(#[trigger] ls[k], '\n') && no_trailing_cr(ls[k]),
    ensures
        lines(indented_lines(ls)) == ls.map_values(|l: Seq<char>| "    "@ + l),
        indented_lines(ls).len() == 0 || indented_lines(ls).last() == '\n',
    decreases ls.len(),
{
    if ls.len() > 0 {
        let rest = ls.drop_last();
        assert forall|k: int| 0 <= k < rest.len() implies lacks_char(#[trigger] rest[k], '\n') && no_trailing_cr(rest[k]) by {
            assert(rest[k] == ls[k]);
        }
        lemma_indented_lines(rest);
        reveal_strlit("    ");
        let l = ls.last();
        assert(lacks_char(l, '\n') && no_trailing_cr(l)) by {
            assert(l == ls[ls.len() - 1]);
        }
        let x = "    "@ + l;
        assert forall|j: int| 0 <= j < x.len() implies #[trigger] x[j] != '\n' by {
            if j >= 4 {
                assert(x[j] == l[j - 4]);
            }
        }
        lemma_line_of(x);
        if l.len() > 0 {
            assert(x.last() == l.last());
        }
        assert(strip_cr(x) == x);
        assert(indented_lines(ls) =~= indented_lines(rest) + (x + seq!['\n']));
        lemma_lines_append(indented_lines(rest), x + seq!['\n']);
        assert(ls.map_values(|l: Seq<char>| "    "@ + l) =~= rest.map_values(|l: Seq<char>| "    "@ + l).push(x));
    }
}

/// The bundle text before module `j` ends in a line break.
proof fn lemma_bundle_prefix_ends(srcs: Seq<(Seq<char>, Seq<char>)>, j: int)
    ensures
        bundle_prefix(srcs, j).len() > 0,
        bundle_prefix(srcs, j).last() == '\n',
{
    if j > 0 {
        reveal_strlit("end\n\n");
        let c = module_chunk(srcs[j - 1].0, srcs[j - 1].1);
        assert(c.last() == '\n');
    }
}

/// The bundle text before module `n` holds the text before module `j`,
/// then the loader of module `j`, then the rest.
proof fn lemma_bundle_after(srcs: Seq<(Seq<char>, Seq<char>)>, j: int, n: int) -> (t: Seq<char>)
    requires
        0 <= j < n,
    ensures
        bundle_prefix(srcs, n) == bundle_prefix(srcs, j) + module_chunk(srcs[j].0, srcs[j].1) + t,
    decreases n,
{
    if n == j + 1 {
        let t = Seq::<char>::empty();
        assert(bundle_prefix(srcs, n) =~= bundle_prefix(srcs, j) + module_chunk(srcs[j].0, srcs[j].1) + t);
        t
    } else {
        let t0 = lemma_bundle_after(srcs, j, n - 1);
        let t = t0 + module_chunk(srcs[n - 1].0, srcs[n - 1].1);
        assert(bundle_prefix(srcs, n) =~= bundle_prefix(srcs, j) + module_chunk(srcs[j].0, srcs[j].1) + t);
        t
    }
}

/// In the bundle of the modules `srcs`, line `module_start(srcs, j) + k`
/// (counted from 1) is line `k` of the source of module `j` (counted from
/// 0) behind four spaces: the source map's offset points at the source.
/// Stated for sources none of whose lines ends in a carriage return, which
/// reading the bundle back would drop, and where the start line fits in a
/// `usize`.
pub proof fn lemma_bundle_module_lines(srcs: Seq<(Seq<char>, Seq<char>)>, j: int, k: int)
    requires
        0 <= j < srcs.len(),
        0 <= k < lines(srcs[j].1).len(),
        forall|m: int| 0 <= m < lines(srcs[j].1).len() ==> no_trailing_cr(#[trigger] lines(srcs[j].1)[m]),
        lines(bundle_prefix(srcs, j)).len() + 6 + char_count(srcs[j].0, '\n') <= usize::MAX,
    ensures
        lines(bundle_text(srcs))[module_start(srcs, j) - 1 + k] == "    "@ + lines(srcs[j].1)[k],
{
    let name = srcs[j].0;
    let ls = lines(srcs[j].1);
    let p = bundle_prefix(srcs, j);
    let h = module_head(name);
    let i = indented_lines(ls);
    let f = module_foot(name);
    let t = lemma_bundle_after(srcs, j, srcs.len() as int);
    let r = f + t + "return __modules\n"@;
    assert(bundle_text(srcs) =~= p + (h + (i + r)));
    lemma_lines_lack_breaks(srcs[j].1);
    lemma_indented_lines(ls);
    lemma_module_head_lines(name);
    lemma_bundle_prefix_ends(srcs, j);
    lemma_lines_append(i, r);
    lemma_lines_append(h, i + r);
    lemma_lines_append(p, h + (i + r));
    let at = lines(p).len() + lines(h).len() + k;
    assert(lines(bundle_text(srcs))[at] == lines(i)[k]);
    assert(lines(i)[k] == "    "@ + ls[k]);
}

/// The bundle text before module `k`.
pub open spec fn bundle_prefix(srcs: Seq<(Seq<char>, Seq<char>)>, k: int) -> Seq<char>
    decreases k,
{
    if k <= 0 {
        BUNDLE_PRELUDE@ + seq!['\n']
    } else {
        bundle_prefix(srcs, k - 1) + module_chunk(srcs[k - 1].0, srcs[k - 1].1)
    }
}

/// The bundle of the modules `srcs` (name, source).
pub open spec fn bundle_text(srcs: Seq<(Seq<char>, Seq<char>)>) -> Seq<char> {
    bundle_prefix(srcs, srcs.len() as int) + "return __modules\n"@
}

/// The bundle line at which the source of module `k` starts, held at
/// `usize::MAX` when it is past it. The header before it takes six lines,
/// and one more for each line break in the module's name, which stands
/// unescaped in the opening comment.
pub open spec fn module_start(srcs: Seq<(Seq<char>, Seq<char>)>, k: int) -> usize {
    let n = lines(bundle_prefix(srcs, k)).len() + 6 + char_count(srcs[k].0, '\n');
    if n <= usize::MAX { n as usize } else { usize::MAX }
}

/// The views of (name, source) pairs.
pub open spec fn source_views(v: Seq<(String, String)>) -> Seq<(Seq<char>, Seq<char>)> {
    v.map_values(|p: (String, String)| (p.0@, p.1@))
}

/// `map` holds, for each module name of `srcs`, where the source of the
/// last module with that name starts in the bundle, and nothing else.
pub open spec fn bundle_map_of(map: BundleSourceMap, srcs: Seq<(Seq<char>, Seq<char>)>) -> bool {
    &&& map.modules.wf()
    &&& forall|n: Seq<char>| #![trigger map.modules.get_spec(n)]
        (map.modules.get_spec(n) is Some <==> exists|j: int| 0 <= j < srcs.len() && srcs[j].0 == n)
    &&& forall|j: int| #[trigger] last_of_name(srcs, srcs.len() as int, j) ==> (map.modules.get_spec(srcs[j].0) matches Some(info)
        && info_matches(info, srcs[j].0, module_start(srcs, j), srcs[j].1))
}

/// Module `j` is the last of the first `k` with its name.
pub open spec fn last_of_name(srcs: Seq<(Seq<char>, Seq<char>)>, k: int, j: int) -> bool {
    &&& 0 <= j < k
    &&& forall|m: int| j < m < k ==> #[trigger] srcs[m].0 != srcs[j].0
}

/// Bundles modules, given as (name, source), into one Lua file that
/// returns the table of loaded modules, as [`bundle_sources_reporting`]
/// does, telling `progress` of each step.
pub fn bundle_sources<F: FnMut(usize, usize)>(sources: Vec<(String, String)>, progress: F) -> (r: Result<
    (String, BundleSourceMap),
    LuatError,
>)
    requires
        forall|a: usize, b: usize| call_requires(progress, (a, b)),
    ensures
        r matches Ok((bundle, map)) && bundle@ == bundle_text(source_views(sources@))
            && bundle_map_of(map, source_views(sources@)),
{
    let mut reporter = Progress::new(progress);
    bundle_sources_reporting(sources, &mut reporter)
}

/// The progress calls of bundling `n` modules: `(i, n)` before module `i`
/// is added, then `(n, n)` once at the end.
pub open spec fn bundle_steps(n: usize) -> Seq<(usize, usize)> {
    Seq::new((n + 1) as nat, |i: int| (i as usize, n))
}

/// Bundles modules, given as (name, source), into one Lua file that
/// returns the table of loaded modules; `progress` is told the index of
/// each module before it is added, and the count at the end. The source
/// map records where each module's source starts; of modules with the same
/// name the last one counts.
pub fn bundle_sources_reporting<F: FnMut(usize, usize)>(sources: Vec<(String, String)>, progress: &mut Progress<F>) -> (r: Result<
    (String, BundleSourceMap),
    LuatError,
>)
    requires
        forall|a: usize, b: usize| call_requires(old(progress).callback(), (a, b)),
    ensures
        r matches Ok((bundle, map)) && bundle@ == bundle_text(source_views(sources@))
            && bundle_map_of(map, source_views(sources@)),
        final(progress).calls() == old(progress).calls() + bundle_steps(sources@.len() as usize),
        final(progress).callback() == old(progress).callback(),
{
    let ghost srcs = source_views(sources@);
    let ghost calls0 = progress.calls();
    let ghost cb0 = progress.callback();
    let mut bundle = String::new();
    let mut source_map = BundleSourceMap::new();
    bundle.append(BUNDLE_PRELUDE);
    push_char(&mut bundle, '\n');
    let n = sources.len();
    let mut i: usize = 0;
    while i < n
        invariant
            n == sources@.len() == srcs.len(),
            srcs == source_views(sources@),
            i <= n,
            bundle@ == bundle_prefix(srcs, i as int),
            forall|a: usize, b: usize| call_requires(progress.callback(), (a, b)),
            progress.calls() == calls0 + bundle_steps(n).take(i as int),
            progress.callback() == cb0,
            source_map.modules.wf(),
            forall|m: Seq<char>| #![trigger source_map.modules.get_spec(m)]
                (source_map.modules.get_spec(m) is Some <==> exists|j: int| 0 <= j < i && srcs[j].0 == m),
            forall|j: int| #[trigger] last_of_name(srcs, i as int, j) ==> (source_map.modules.get_spec(srcs[j].0) matches Some(info)
                && info_matches(info, srcs[j].0, module_start(srcs, j), srcs[j].1)),
        decreases n - i,
    {
        progress.report(i, n);
        proof {
            assert(bundle_steps(n).take(i + 1) =~= bundle_steps(n).take(i as int).push((i, n)));
        }
        let name = &sources[i].0;
        let source = &sources[i].1;
        proof {
            assert(srcs[i as int] == (name@, source@));
        }
        let start = crate::text::line_bounds(&chars_of(bundle.as_str())).len().saturating_add(6).saturating_add(count_char(name.as_str(), '\n'));
        push_module_chunk(&mut bundle, name.as_str(), source.as_str());
        let ghost old_map = source_map.modules;
        source_map.add_module(name.as_str(), name.as_str(), start, source.as_str());
        proof {
            assert forall|m: Seq<char>| #![trigger source_map.modules.get_spec(m)]
                (source_map.modules.get_spec(m) is Some <==> exists|j: int| 0 <= j < i + 1 && srcs[j].0 == m) by {
                if m == name@ {
                    assert(srcs[i as int].0 == m);
                } else {
                    assert(old_map.get_spec(m) == source_map.modules.get_spec(m));
                    if exists|j: int| 0 <= j < i + 1 && srcs[j].0 == m {
                        let j = choose|j: int| 0 <= j < i + 1 && srcs[j].0 == m;
                        assert(j < i);
                    }
                }
            }
            assert forall|j: int| #[trigger] last_of_name(srcs, i + 1, j) implies (source_map.modules.get_spec(srcs[j].0) matches Some(info)
                && info_matches(info, srcs[j].0, module_start(srcs, j), srcs[j].1)) by {
                if j < i {
                    assert(srcs[i as int].0 != srcs[j].0);
                    assert(last_of_name(srcs, i as int, j));
                }
            }
        }
        i = i + 1;
    }
    bundle.append("return __modules\n");
    progress.report(n, n);
    proof {
        assert(bundle_steps(n) =~= bundle_steps(n).take(n as int).push((n, n)));
    }
    Ok((bundle, source_map))
}

/// Appends the loader of module `name` with source `source`.
#[verifier::spinoff_prover]
#[verifier::rlimit(30)]
fn push_module_chunk(bundle: &mut String, name: &str, source: &str)
    ensures
        final(bundle)@ == old(bundle)@ + module_chunk(name@, source@),
{
    let escaped = escape_lua_string(name);
    let ghost before = bundle@;
    bundle.append("-- Module: ");
    bundle.append(name);
    push_char(bundle, '\n');
    bundle.append("__module_loaders[\"");
    bundle.append(escaped.as_str());
    bundle.append("\"] = function()\n");
    bundle.append("  local __prev = _G.__luat_current_module\n");
    bundle.append("  _G.__luat_current_module = \"");
    bundle.append(escaped.as_str());
    bundle.append("\"\n");
    bundle.append("  local __ok, __result = pcall(function()\n");
    let ghost mid = bundle@;
    let ls = lines_of(&chars_of(source));
    let mut k: usize = 0;
    while k < ls.len()
        invariant
            k <= ls@.len(),
            bundle@ == mid + indented_lines(views(ls@).take(k as int)),
        decreases ls@.len() - k,
    {
        bundle.append("    ");
        bundle.append(ls[k].as_str());
        push_char(bundle, '\n');
        proof {
            assert(views(ls@).take(k + 1).drop_last() =~= views(ls@).take(k as int));
            assert(views(ls@)[k as int] == ls@[k as int]@);
        }
        k = k + 1;
    }
    proof {
        assert(views(ls@).take(k as int) =~= lines(source@));
    }
    bundle.append("  end)\n");
    bundle.append("  _G.__luat_current_module = __prev\n");
    bundle.append("  if not __ok then error(__enhance_error(__result, \"");
    bundle.append(escaped.as_str());
    bundle.append("\"), 2) end\n");
    bundle.append("  return __result\n");
    bundle.append("end\n\n");
    proof {
        assert(bundle@ =~= before + module_chunk(name@, source@));
    }
}

} // verus!
