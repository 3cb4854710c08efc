//! Slash-separated paths, read the way `std::path::Path` reads them on Unix.
//!
//! A path may start with the root `/`, or, when relative, with the current
//! directory `.` followed by `/` or nothing. The rest, its body, is split at
//! `/`; empty pieces and `.` pieces are not components.

use vstd::prelude::*;
use crate::ast::str_eq;
use crate::text::{chars_of, find_char_from, owned, push_chars, push_char, rfind_char_at, rfind_char_before, split_char, split_vec, string_of, string_of_range, sub_chars};

verus! {

/// The path starts at the root.
pub open spec fn has_root(s: Seq<char>) -> bool {
    s.len() > 0 && s[0] == '/'
}

/// The relative path starts with the current directory.
pub open spec fn has_cur_dir(s: Seq<char>) -> bool {
    !has_root(s) && s.len() > 0 && s[0] == '.' && (s.len() == 1 || s[1] == '/')
}

/// Where the body of the path starts.
pub open spec fn body_start(s: Seq<char>) -> int {
    (if has_root(s) { 1int } else { 0int }) + (if has_cur_dir(s) { 1int } else { 0int })
}

/// A piece of the body that is a component: not empty and not `.`.
pub open spec fn keep_piece(p: Seq<char>) -> bool {
    p.len() > 0 && p != seq!['.']
}

/// The pieces that are components, in order.
pub open spec fn real_pieces(ps: Seq<Seq<char>>) -> Seq<Seq<char>>
    decreases ps.len(),
{
    if ps.len() == 0 {
        Seq::empty()
    } else {
        let r = real_pieces(ps.drop_last());
        if keep_piece(ps.last()) {
            r.push(ps.last())
        } else {
            r
        }
    }
}

/// The components of a path (`Path::components`), each as its text: `/`
/// for the root, `.` for a leading current directory, then the pieces.
pub open spec fn components(s: Seq<char>) -> Seq<Seq<char>> {
    (if has_root(s) { seq![seq!['/']] } else { Seq::empty() }) + (if has_cur_dir(s) {
        seq![seq!['.']]
    } else {
        Seq::empty()
    }) + real_pieces(split_char(s.skip(body_start(s)), '/'))
}

/// Start of the last piece of `s[lo..hi]`.
pub open spec fn piece_start(s: Seq<char>, lo: int, hi: int) -> int {
    match rfind_char_before(s, '/', hi) {
        Some(k) => if k >= lo { k + 1 } else { lo },
        None => lo,
    }
}

/// End of `s[lo..hi]` once trailing empty and `.` pieces are dropped.
pub open spec fn trim_back(s: Seq<char>, lo: int, hi: int) -> int
    decreases hi - lo,
{
    if hi <= lo || hi > s.len() || lo < 0 {
        hi
    } else {
        let st = piece_start(s, lo, hi);
        if lo <= st <= hi && !keep_piece(s.subrange(st, hi)) {
            trim_back(s, lo, if st > lo { st - 1 } else { lo })
        } else {
            hi
        }
    }
}

/// `Path::parent`: the path without its last component; `None` for the
/// root and the empty path.
pub open spec fn parent(s: Seq<char>) -> Option<Seq<char>> {
    let lo = body_start(s);
    let e = trim_back(s, lo, s.len() as int);
    if e > lo {
        let st = piece_start(s, lo, e);
        Some(s.take(trim_back(s, lo, if st > lo { st - 1 } else { lo })))
    } else if has_cur_dir(s) {
        Some(Seq::empty())
    } else {
        None
    }
}

/// `Path::file_name`: the last component unless it is `..`, the root or a
/// leading current directory.
pub open spec fn file_name(s: Seq<char>) -> Option<Seq<char>> {
    let lo = body_start(s);
    let e = trim_back(s, lo, s.len() as int);
    if e > lo {
        let p = s.subrange(piece_start(s, lo, e), e);
        if p == seq!['.', '.'] {
            None
        } else {
            Some(p)
        }
    } else {
        None
    }
}

/// `Path::extension`: what follows the last `.` of the file name, when
/// that `.` is not its first character.
pub open spec fn extension(s: Seq<char>) -> Option<Seq<char>> {
    match file_name(s) {
        Some(f) => match rfind_char_before(f, '.', f.len() as int) {
            Some(k) => if k > 0 { Some(f.skip(k + 1)) } else { None },
            None => None,
        },
        None => None,
    }
}

/// `Path::join` (`PathBuf::push`): an absolute `p` replaces `base`; else
/// `p` follows `base`, with a `/` between unless `base` is empty or ends
/// in one.
pub open spec fn join(base: Seq<char>, p: Seq<char>) -> Seq<char> {
    if has_root(p) {
        p
    } else if base.len() > 0 && base.last() != '/' {
        base + seq!['/'] + p
    } else {
        base + p
    }
}

fn body_start_of(v: &Vec<char>) -> (r: usize)
    ensures
        r == body_start(v@),
        r <= v@.len(),
{
    if v.len() > 0 && v[0] == '/' {
        1
    } else if v.len() > 0 && v[0] == '.' && (v.len() == 1 || v[1] == '/') {
        1
    } else {
        0
    }
}

fn is_kept(v: &Vec<char>, from: usize, to: usize) -> (b: bool)
    requires
        from <= to <= v@.len(),
    ensures
        b == keep_piece(v@.subrange(from as int, to as int)),
{
    if from == to {
        return false;
    }
    if to - from == 1 && v[from] == '.' {
        assert(v@.subrange(from as int, to as int) =~= seq!['.']);
        return false;
    }
    if to - from == 1 {
        assert(v@.subrange(from as int, to as int)[0] != '.');
    }
    true
}

fn piece_start_of(v: &Vec<char>, lo: usize, hi: usize) -> (r: usize)
    requires
        lo <= hi <= v@.len(),
    ensures
        r == piece_start(v@, lo as int, hi as int),
        lo <= r <= hi,
        r > lo ==> v@[r - 1] == '/',
{
    match rfind_char_at(v, '/', hi) {
        Some(k) => if k >= lo { k + 1 } else { lo },
        None => lo,
    }
}

fn trim_back_of(v: &Vec<char>, lo: usize, hi: usize) -> (r: usize)
    requires
        lo <= hi <= v@.len(),
    ensures
        r == trim_back(v@, lo as int, hi as int),
        lo <= r <= hi,
{
    let mut h = hi;
    while h > lo
        invariant
            lo <= h <= hi <= v@.len(),
            trim_back(v@, lo as int, hi as int) == trim_back(v@, lo as int, h as int),
        decreases h,
    {
        let st = piece_start_of(v, lo, h);
        if is_kept(v, st, h) {
            return h;
        }
        h = if st > lo { st - 1 } else { lo };
    }
    h
}

/// The parent of path `p` (`Path::parent`).
pub fn path_parent(p: &str) -> (r: Option<String>)
    ensures
        match parent(p@) {
            None => r is None,
            Some(q) => r matches Some(s) && s@ == q,
        },
{
    let v = chars_of(p);
    let lo = body_start_of(&v);
    let e = trim_back_of(&v, lo, v.len());
    if e > lo {
        let st = piece_start_of(&v, lo, e);
        let ne = if st > lo { st - 1 } else { lo };
        let end = trim_back_of(&v, lo, ne);
        proof {
            assert(v@.subrange(0, end as int) =~= v@.take(end as int));
        }
        Some(string_of_range(&v, 0, end))
    } else if lo == 1 && v[0] == '.' {
        Some(String::new())
    } else {
        None
    }
}

/// The file name of path `p` (`Path::file_name`).
pub fn path_file_name(p: &str) -> (r: Option<String>)
    ensures
        match file_name(p@) {
            None => r is None,
            Some(q) => r matches Some(s) && s@ == q,
        },
{
    let v = chars_of(p);
    let lo = body_start_of(&v);
    let e = trim_back_of(&v, lo, v.len());
    if e > lo {
        let st = piece_start_of(&v, lo, e);
        let ghost piece = v@.subrange(st as int, e as int);
        let dotdot = e - st == 2 && v[st] == '.' && v[st + 1] == '.';
        proof {
            if dotdot {
                assert(piece =~= seq!['.', '.']);
            } else if e - st == 2 {
                assert(piece[0] == v@[st as int]);
                assert(piece[1] == v@[st + 1]);
                assert(piece != seq!['.', '.']);
            } else {
                assert(piece.len() != 2);
                assert(piece != seq!['.', '.']);
            }
        }
        if dotdot {
            None
        } else {
            Some(string_of_range(&v, st, e))
        }
    } else {
        None
    }
}

/// The extension of path `p` (`Path::extension`).
pub fn path_extension(p: &str) -> (r: Option<String>)
    ensures
        match extension(p@) {
            None => r is None,
            Some(q) => r matches Some(s) && s@ == q,
        },
{
    match path_file_name(p) {
        None => None,
        Some(f) => {
            let fv = chars_of(f.as_str());
            match rfind_char_at(&fv, '.', fv.len()) {
                Some(k) => if k > 0 {
                    proof {
                        assert(fv@.subrange(k + 1, fv@.len() as int) =~= fv@.skip(k + 1));
                    }
                    Some(string_of_range(&fv, k + 1, fv.len()))
                } else {
                    None
                },
                None => None,
            }
        },
    }
}

/// `Path::file_stem`: the file name up to its last `.`, when that `.` is
/// not its first character; else the whole file name.
pub open spec fn file_stem(s: Seq<char>) -> Option<Seq<char>> {
    match file_name(s) {
        Some(f) => match rfind_char_before(f, '.', f.len() as int) {
            Some(k) => if k > 0 { Some(f.take(k)) } else { Some(f) },
            None => Some(f),
        },
        None => None,
    }
}

/// The file stem of path `p` (`Path::file_stem`).
pub fn path_file_stem(p: &str) -> (r: Option<String>)
    ensures
        match file_stem(p@) {
            None => r is None,
            Some(q) => r matches Some(s) && s@ == q,
        },
{
    match path_file_name(p) {
        None => None,
        Some(f) => {
            let fv = chars_of(f.as_str());
            match rfind_char_at(&fv, '.', fv.len()) {
                Some(k) => if k > 0 {
                    proof {
                        assert(fv@.subrange(0, k as int) =~= fv@.take(k as int));
                    }
                    Some(string_of_range(&fv, 0, k))
                } else {
                    Some(f)
                },
                None => Some(f),
            }
        },
    }
}

/// Whether path `p` has an extension.
pub fn has_extension(p: &str) -> (b: bool)
    ensures
        b == extension(p@) is Some,
{
    path_extension(p).is_some()
}

/// The components of path `p` (`Path::components`), as texts.
pub fn path_components(p: &str) -> (r: Vec<String>)
    ensures
        r@.len() == components(p@).len(),
        forall|i: int| 0 <= i < r@.len() ==> (#[trigger] r@[i])@ == components(p@)[i],
{
    let v = chars_of(p);
    let lo = body_start_of(&v);
    let mut r: Vec<String> = Vec::new();
    let ghost head: Seq<Seq<char>> = (if has_root(p@) { seq![seq!['/']] } else { Seq::empty() }) + (
    if has_cur_dir(p@) {
        seq![seq!['.']]
    } else {
        Seq::empty()
    });
    if lo == 1 {
        let mut c = String::new();
        crate::text::push_char(&mut c, v[0]);
        r.push(c);
    }
    proof {
        assert(Seq::new(r@.len() as nat, |i: int| r@[i]@) =~= head);
    }
    let body = crate::text::sub_chars(&v, lo, v.len());
    let pieces = split_vec(&body, '/');
    let ghost ps = split_char(p@.skip(lo as int), '/');
    proof {
        assert(body@ =~= p@.skip(lo as int));
    }
    let mut i: usize = 0;
    proof {
        assert(ps.take(0) =~= Seq::<Seq<char>>::empty());
    }
    while i < pieces.len()
        invariant
            i <= pieces@.len() == ps.len(),
            forall|k: int| 0 <= k < pieces@.len() ==> (#[trigger] pieces@[k])@ == ps[k],
            Seq::new(r@.len() as nat, |k: int| r@[k]@) == head + real_pieces(ps.take(i as int)),
        decreases pieces@.len() - i,
    {
        let piece = &pieces[i];
        proof {
            assert(ps.take(i + 1).drop_last() =~= ps.take(i as int));
            assert(ps.take(i + 1).last() == ps[i as int]);
            assert(piece@.subrange(0, piece@.len() as int) =~= piece@);
        }
        let ghost before = Seq::new(r@.len() as nat, |k: int| r@[k]@);
        if is_kept(piece, 0, piece.len()) {
            r.push(string_of(piece));
            proof {
                assert(Seq::new(r@.len() as nat, |k: int| r@[k]@) =~= before.push(piece@));
            }
        }
        i = i + 1;
    }
    proof {
        assert(ps.take(i as int) =~= ps);
        let s = Seq::new(r@.len() as nat, |k: int| r@[k]@);
        assert(s.len() == components(p@).len());
        assert forall|k: int| 0 <= k < r@.len() implies (#[trigger] r@[k])@ == components(p@)[k] by {
            assert(s[k] == r@[k]@);
        }
    }
    r
}

/// `base` joined with `p` (`Path::join`).
pub fn path_join(base: &str, p: &str) -> (r: String)
    ensures
        r@ == join(base@, p@),
{
    let pv = chars_of(p);
    let bv = chars_of(base);
    let mut out = String::new();
    if pv.len() > 0 && pv[0] == '/' {
        out.append(p);
        proof {
            assert(out@ =~= p@);
        }
        return out;
    }
    out.append(base);
    if bv.len() > 0 && bv[bv.len() - 1] != '/' {
        crate::text::push_char(&mut out, '/');
    }
    out.append(p);
    proof {
        if bv@.len() > 0 {
            assert(base@.last() == bv@[bv@.len() - 1]);
        }
    }
    out
}

/// Start of `s[lo..hi]` once leading empty and `.` pieces are dropped.
pub open spec fn trim_front(s: Seq<char>, lo: int, hi: int) -> int
    decreases hi - lo,
{
    if lo >= hi || lo < 0 || hi > s.len() {
        lo
    } else {
        let e = match find_char_from(s, '/', lo) {
            Some(k) => if k < hi { k } else { hi },
            None => hi,
        };
        if lo <= e <= hi && !keep_piece(s.subrange(lo, e)) {
            if e < hi { trim_front(s, e + 1, hi) } else { hi }
        } else {
            lo
        }
    }
}

/// An absolute path without its root (`Path::strip_prefix("/")`): what
/// follows the root, without leading and trailing empty and `.` pieces.
pub open spec fn strip_root(s: Seq<char>) -> Seq<char> {
    let a = trim_front(s, 1, s.len() as int);
    s.subrange(a, trim_back(s, a, s.len() as int))
}

/// The absolute path `p` without its root (`Path::strip_prefix("/")`).
pub fn path_strip_root(p: &str) -> (r: String)
    requires
        has_root(p@),
    ensures
        r@ == strip_root(p@),
{
    let v = chars_of(p);
    let n = v.len();
    let mut a: usize = 1;
    while a < n
        invariant
            1 <= a <= n == v@.len(),
            trim_front(v@, 1, n as int) == trim_front(v@, a as int, n as int),
        ensures
            1 <= a <= n,
            trim_front(v@, 1, n as int) == a,
        decreases n - a,
    {
        let e = match crate::text::find_char_at(&v, '/', a) {
            Some(k) => k,
            None => n,
        };
        if is_kept(&v, a, e) {
            break;
        }
        if e < n {
            a = e + 1;
        } else {
            a = n;
        }
    }
    let b = trim_back_of(&v, a, n);
    string_of_range(&v, a, b)
}


/// Where the file stem of `s` ends: at the last `.` of the file name when
/// that `.` is not its first character, else at the end of the name.
pub open spec fn stem_end(s: Seq<char>) -> int {
    let lo = body_start(s);
    let e = trim_back(s, lo, s.len() as int);
    let st = piece_start(s, lo, e);
    match rfind_char_before(s.subrange(st, e), '.', e - st) {
        Some(k) => if k > 0 { st + k } else { e },
        None => e,
    }
}

/// `Path::with_extension`: the path up to the end of its file stem, then
/// `.` and `ext` unless `ext` is empty; a path without file name is kept.
pub open spec fn with_extension(s: Seq<char>, ext: Seq<char>) -> Seq<char> {
    match file_name(s) {
        Some(_) => s.take(stem_end(s)) + (if ext.len() > 0 { seq!['.'] + ext } else { Seq::empty() }),
        None => s,
    }
}

/// Path `p` with its extension set to `ext` (`Path::with_extension`).
pub fn path_with_extension(p: &str, ext: &str) -> (r: String)
    ensures
        r@ == with_extension(p@, ext@),
{
    if path_file_name(p).is_none() {
        return owned(p);
    }
    let v = chars_of(p);
    let lo = body_start_of(&v);
    let e = trim_back_of(&v, lo, v.len());
    let st = piece_start_of(&v, lo, e);
    let f = sub_chars(&v, st, e);
    let end = match rfind_char_at(&f, '.', f.len()) {
        Some(k) => if k > 0 { st + k } else { e },
        None => e,
    };
    proof {
        assert(v@ == p@);
        assert(file_name(p@) is Some);
        assert(f@ == p@.subrange(st as int, e as int));
        assert(end == stem_end(p@));
    }
    let mut out = string_of_range(&v, 0, end);
    proof {
        assert(v@.subrange(0, end as int) =~= p@.take(stem_end(p@)));
    }
    let ev = chars_of(ext);
    if ev.len() > 0 {
        push_char(&mut out, '.');
        push_chars(&mut out, &ev);
        proof {
            assert(out@ =~= p@.take(stem_end(p@)) + (seq!['.'] + ext@));
        }
    } else {
        proof {
            assert(out@ =~= p@.take(stem_end(p@)) + Seq::<char>::empty());
        }
    }
    out
}

/// Lexical normalization after components `cs`: whether the path is
/// rooted, and the names kept (`..` drops the last one, `.` nothing).
pub open spec fn norm_state(cs: Seq<Seq<char>>) -> (bool, Seq<Seq<char>>)
    decreases cs.len(),
{
    if cs.len() == 0 {
        (false, Seq::empty())
    } else {
        let prev = norm_state(cs.drop_last());
        let c = cs.last();
        if c == seq!['/'] {
            (true, Seq::empty())
        } else if c == seq!['.'] {
            prev
        } else if c == seq!['.', '.'] {
            (prev.0, if prev.1.len() > 0 { prev.1.drop_last() } else { prev.1 })
        } else {
            (prev.0, prev.1.push(c))
        }
    }
}

/// The path rebuilt component by component, resolving `.` and `..`
/// without looking at the disk.
pub open spec fn normalize(s: Seq<char>) -> Seq<char> {
    let st = norm_state(components(s));
    if st.0 {
        seq!['/'] + crate::text::join(st.1, seq!['/'])
    } else {
        crate::text::join(st.1, seq!['/'])
    }
}

/// Writes `names` separated by `/` after `out`.
fn push_joined(out: &mut String, names: &Vec<String>)
    ensures
        final(out)@ == old(out)@ + crate::text::join(crate::text::views(names@), seq!['/']),
{
    let ghost start = out@;
    let ghost ns = crate::text::views(names@);
    let mut i: usize = 0;
    proof {
        assert(ns.take(0) =~= Seq::<Seq<char>>::empty());
    }
    while i < names.len()
        invariant
            i <= names@.len() == ns.len(),
            ns == crate::text::views(names@),
            out@ == start + crate::text::join(ns.take(i as int), seq!['/']),
        decreases names@.len() - i,
    {
        if i > 0 {
            push_char(out, '/');
        }
        let nv = chars_of(names[i].as_str());
        push_chars(out, &nv);
        proof {
            let t = ns.take(i + 1);
            assert(t.drop_last() =~= ns.take(i as int));
            assert(t.last() == names@[i as int]@);
            if i == 0 {
                assert(out@ =~= start + crate::text::join(t, seq!['/']));
            } else {
                assert(out@ =~= start + crate::text::join(t, seq!['/']));
            }
        }
        i = i + 1;
    }
    proof {
        assert(ns.take(i as int) =~= ns);
    }
}

/// One more component of lexical normalization.
proof fn lemma_norm_step(cs: Seq<Seq<char>>, i: int)
    requires
        0 <= i < cs.len(),
    ensures
        norm_state(cs.take(i + 1)) == ({
            let prev = norm_state(cs.take(i));
            let c = cs[i];
            if c == seq!['/'] {
                (true, Seq::<Seq<char>>::empty())
            } else if c == seq!['.'] {
                prev
            } else if c == seq!['.', '.'] {
                (prev.0, if prev.1.len() > 0 { prev.1.drop_last() } else { prev.1 })
            } else {
                (prev.0, prev.1.push(c))
            }
        }),
{
    let t = cs.take(i + 1);
    assert(t.drop_last() =~= cs.take(i));
    assert(t.last() == cs[i]);
}

/// Path `p` normalized without looking at the disk: `.` dropped, `..`
/// removing the name before it.
pub fn path_normalize(p: &str) -> (r: String)
    ensures
        r@ == normalize(p@),
{
    let comps = path_components(p);
    let ghost cs = components(p@);
    let mut rooted = false;
    let mut names: Vec<String> = Vec::new();
    let mut i: usize = 0;
    while i < comps.len()
        invariant
            i <= comps@.len() == cs.len(),
            cs == components(p@),
            forall|k: int| 0 <= k < comps@.len() ==> (#[trigger] comps@[k])@ == cs[k],
            (rooted, crate::text::views(names@)) == norm_state(cs.take(i as int)),
        decreases comps@.len() - i,
    {
        let c = comps[i].as_str();
        proof {
            lemma_norm_step(cs, i as int);
            assert(cs[i as int] == c@);
            reveal_strlit("/");
            reveal_strlit(".");
            reveal_strlit("..");
            assert("/"@ =~= seq!['/']);
            assert("."@ =~= seq!['.']);
            assert(".."@ =~= seq!['.', '.']);
        }
        let ghost before = crate::text::views(names@);
        if str_eq(c, "/") {
            rooted = true;
            names = Vec::new();
            proof {
                assert(crate::text::views(names@) =~= Seq::<Seq<char>>::empty());
            }
        } else if str_eq(c, ".") {
        } else if str_eq(c, "..") {
            if names.len() > 0 {
                names.pop();
                proof {
                    assert(crate::text::views(names@) =~= before.drop_last());
                }
            }
        } else {
            names.push(owned(c));
            proof {
                assert(crate::text::views(names@) =~= before.push(c@));
            }
        }
        i = i + 1;
    }
    proof {
        assert(cs.take(i as int) =~= cs);
    }
    let mut out = String::new();
    if rooted {
        push_char(&mut out, '/');
        proof {
            assert(out@ =~= seq!['/']);
        }
    }
    push_joined(&mut out, &names);
    proof {
        if !rooted {
            assert(out@ =~= crate::text::join(crate::text::views(names@), seq!['/']));
        }
    }
    out
}

/// `Path::starts_with`: the components of `q` begin those of `p`.
pub open spec fn path_prefix(p: Seq<char>, q: Seq<char>) -> bool {
    components(q).len() <= components(p).len() && components(p).take(components(q).len() as int) == components(q)
}

/// Whether path `p` starts with path `q`, component by component.
pub fn path_starts_with(p: &str, q: &str) -> (b: bool)
    ensures
        b == path_prefix(p@, q@),
{
    let pc = path_components(p);
    let qc = path_components(q);
    if qc.len() > pc.len() {
        return false;
    }
    let mut i: usize = 0;
    while i < qc.len()
        invariant
            i <= qc@.len() <= pc@.len(),
            pc@.len() == components(p@).len(),
            qc@.len() == components(q@).len(),
            forall|k: int| 0 <= k < pc@.len() ==> (#[trigger] pc@[k])@ == components(p@)[k],
            forall|k: int| 0 <= k < qc@.len() ==> (#[trigger] qc@[k])@ == components(q@)[k],
            forall|k: int| 0 <= k < i ==> components(p@)[k] == components(q@)[k],
        decreases qc@.len() - i,
    {
        if !str_eq(pc[i].as_str(), qc[i].as_str()) {
            proof {
                assert(components(p@).take(components(q@).len() as int)[i as int] != components(q@)[i as int]);
            }
            return false;
        }
        i = i + 1;
    }
    proof {
        assert(components(p@).take(components(q@).len() as int) =~= components(q@));
    }
    true
}

/// Whether paths `p` and `q` have the same components (`Path` equality).
pub fn path_same(p: &str, q: &str) -> (b: bool)
    ensures
        b == (components(p@) == components(q@)),
{
    let a = path_starts_with(p, q);
    let b = path_starts_with(q, p);
    proof {
        if a && b {
            assert(components(p@) =~= components(q@));
        }
        if components(p@) == components(q@) {
            assert(components(p@).take(components(q@).len() as int) =~= components(q@));
            assert(components(q@).take(components(p@).len() as int) =~= components(p@));
        }
    }
    a && b
}

/// What follows the components of `q` in `p`, names joined by `/`
/// (`Path::strip_prefix` on a path of names).
pub open spec fn rest_after(p: Seq<char>, q: Seq<char>) -> Seq<char> {
    crate::text::join(components(p).skip(components(q).len() as int), seq!['/'])
}

/// The components of `p` after those of `q`, joined by `/`.
pub fn path_rest_after(p: &str, q: &str) -> (r: String)
    requires
        path_prefix(p@, q@),
    ensures
        r@ == rest_after(p@, q@),
{
    let pc = path_components(p);
    let qn = path_components(q).len();
    let mut rest: Vec<String> = Vec::new();
    let mut i: usize = qn;
    proof {
        assert(crate::text::views(rest@) =~= components(p@).subrange(qn as int, i as int));
    }
    while i < pc.len()
        invariant
            qn <= i <= pc@.len() == components(p@).len(),
            qn == components(q@).len(),
            forall|k: int| 0 <= k < pc@.len() ==> (#[trigger] pc@[k])@ == components(p@)[k],
            crate::text::views(rest@) == components(p@).subrange(qn as int, i as int),
        decreases pc@.len() - i,
    {
        let ghost before = crate::text::views(rest@);
        rest.push(owned(pc[i].as_str()));
        proof {
            assert(crate::text::views(rest@) =~= before.push(pc@[i as int]@));
            assert(crate::text::views(rest@) =~= components(p@).subrange(qn as int, i + 1));
        }
        i = i + 1;
    }
    proof {
        assert(components(p@).subrange(qn as int, i as int) =~= components(p@).skip(qn as int));
    }
    let mut out = String::new();
    push_joined(&mut out, &rest);
    proof {
        assert(out@ =~= rest_after(p@, q@));
    }
    out
}

/// `std::path::Path::is_file`: whether a file is at `p`; the answer
/// depends on the disk and nothing is stated of it.
#[verifier::external_body]
pub(crate) fn path_is_file(p: &str) -> (b: bool) {
    std::path::Path::new(p).is_file()
}

/// `std::path::Path::exists`: whether anything is at `p`; the answer
/// depends on the disk and nothing is stated of it.
#[verifier::external_body]
pub(crate) fn path_exists(p: &str) -> (b: bool) {
    std::path::Path::new(p).exists()
}

/// `std::path::Path::canonicalize`: the absolute form of `p` with links
/// resolved, as text. It depends on the disk and on the platform's form of
/// absolute paths; nothing is stated of it.
#[verifier::external_body]
pub(crate) fn canonical_path(p: &str) -> (r: Result<String, std::io::Error>)
{
    std::path::Path::new(p).canonicalize().map(|b| b.to_string_lossy().into_owned())
}

} // verus!
