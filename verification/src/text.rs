//! Character-level string utilities shared by the whole library.
//!
//! Strings are modelled by their views, sequences of `char`. The executable
//! helpers work on `Vec<char>` and build `String`s one piece at a time.

use vstd::prelude::*;

verus! {

broadcast use vstd::string::group_string_axioms;

// ---------------------------------------------------------------------------
// Specifications
// ---------------------------------------------------------------------------

/// Unicode `White_Space`, as `char::is_whitespace` classifies it.
pub open spec fn is_ws(c: char) -> bool {
    ||| c == ' ' || c == '\t' || c == '\n' || c == '\r'
    ||| c == '\u{0B}' || c == '\u{0C}' || c == '\u{85}' || c == '\u{A0}'
    ||| c == '\u{1680}'
    ||| ('\u{2000}' as u32) <= (c as u32) <= ('\u{200A}' as u32)
    ||| c == '\u{2028}' || c == '\u{2029}' || c == '\u{202F}' || c == '\u{205F}'
    ||| c == '\u{3000}'
}

/// Index of the first non-whitespace character at or after `i` (or `s.len()`).
pub open spec fn skip_ws_from(s: Seq<char>, i: int) -> int
    decreases s.len() - i,
{
    if i >= s.len() || i < 0 {
        if i < 0 { 0 } else { s.len() as int }
    } else if is_ws(s[i]) {
        skip_ws_from(s, i + 1)
    } else {
        i
    }
}

/// End of `s.take(j)` once trailing whitespace is removed.
pub open spec fn trim_end_from(s: Seq<char>, j: int) -> int
    decreases j,
{
    if j <= 0 {
        0
    } else if j <= s.len() && is_ws(s[j - 1]) {
        trim_end_from(s, j - 1)
    } else {
        j
    }
}

/// `str::trim_start`.
pub open spec fn trim_start(s: Seq<char>) -> Seq<char> {
    s.skip(skip_ws_from(s, 0))
}

/// `str::trim_end`.
pub open spec fn trim_end(s: Seq<char>) -> Seq<char> {
    s.take(trim_end_from(s, s.len() as int))
}

/// `str::trim`.
pub open spec fn trim(s: Seq<char>) -> Seq<char> {
    trim_end(trim_start(s))
}

/// `s` begins with `p`.
pub open spec fn starts_with(s: Seq<char>, p: Seq<char>) -> bool {
    p.len() <= s.len() && s.take(p.len() as int) == p
}

/// `s` ends with `p`.
pub open spec fn ends_with(s: Seq<char>, p: Seq<char>) -> bool {
    p.len() <= s.len() && s.skip(s.len() - p.len()) == p
}

/// `p` occurs in `s` at position `i`.
pub open spec fn occurs_at(s: Seq<char>, p: Seq<char>, i: int) -> bool {
    0 <= i && i + p.len() <= s.len() && s.subrange(i, i + p.len()) == p
}

/// First occurrence of `p` in `s` at or after `i`.
pub open spec fn find_from(s: Seq<char>, p: Seq<char>, i: int) -> Option<int>
    decreases s.len() - i,
{
    if i < 0 || i + p.len() > s.len() {
        None
    } else if p.len() == 0 || occurs_at(s, p, i) {
        Some(i)
    } else {
        find_from(s, p, i + 1)
    }
}

/// How many times `c` occurs in `s`.
pub open spec fn char_count(s: Seq<char>, c: char) -> nat
    decreases s.len(),
{
    if s.len() == 0 {
        0
    } else {
        char_count(s.drop_last(), c) + if s.last() == c { 1nat } else { 0nat }
    }
}

/// `p` occurs somewhere in `s`.
pub open spec fn contains(s: Seq<char>, p: Seq<char>) -> bool {
    find_from(s, p, 0) is Some
}

/// First index at or after `i` holding `c`.
pub open spec fn find_char_from(s: Seq<char>, c: char, i: int) -> Option<int>
    decreases s.len() - i,
{
    if i < 0 || i >= s.len() {
        None
    } else if s[i] == c {
        Some(i)
    } else {
        find_char_from(s, c, i + 1)
    }
}

/// Last index before `j` holding `c`.
pub open spec fn rfind_char_before(s: Seq<char>, c: char, j: int) -> Option<int>
    decreases j,
{
    if j <= 0 || j > s.len() {
        None
    } else if s[j - 1] == c {
        Some(j - 1)
    } else {
        rfind_char_before(s, c, j - 1)
    }
}

/// A line of `str::lines` without its terminator: a `\r` right before the
/// `\n` is dropped.
pub open spec fn strip_cr(line: Seq<char>) -> Seq<char> {
    if line.len() > 0 && line.last() == '\r' {
        line.drop_last()
    } else {
        line
    }
}

/// `str::lines`.
pub open spec fn lines(s: Seq<char>) -> Seq<Seq<char>>
    decreases s.len(),
{
    if s.len() == 0 {
        Seq::empty()
    } else {
        match find_char_from(s, '\n', 0) {
            None => seq![s],
            Some(i) => {
                if 0 <= i < s.len() {
                    seq![strip_cr(s.take(i))] + lines(s.skip(i + 1))
                } else {
                    seq![s]
                }
            }
        }
    }
}

/// Concatenation of a sequence of strings.
pub open spec fn concat(parts: Seq<Seq<char>>) -> Seq<char>
    decreases parts.len(),
{
    if parts.len() == 0 {
        Seq::empty()
    } else {
        concat(parts.drop_last()) + parts.last()
    }
}

/// Concatenation of `parts` with `sep` between neighbours.
pub open spec fn join(parts: Seq<Seq<char>>, sep: Seq<char>) -> Seq<char>
    decreases parts.len(),
{
    if parts.len() == 0 {
        Seq::empty()
    } else if parts.len() == 1 {
        parts[0]
    } else {
        join(parts.drop_last(), sep) + sep + parts.last()
    }
}

/// `n` copies of `s` (`str::repeat`).
pub open spec fn repeat(s: Seq<char>, n: nat) -> Seq<char>
    decreases n,
{
    if n == 0 {
        Seq::empty()
    } else {
        repeat(s, (n - 1) as nat) + s
    }
}

/// The decimal digit for `d < 10`.
pub open spec fn digit_char(d: nat) -> char {
    if d == 0 { '0' }
    else if d == 1 { '1' }
    else if d == 2 { '2' }
    else if d == 3 { '3' }
    else if d == 4 { '4' }
    else if d == 5 { '5' }
    else if d == 6 { '6' }
    else if d == 7 { '7' }
    else if d == 8 { '8' }
    else { '9' }
}

/// Decimal representation of `n` (as `usize::to_string` writes it).
pub open spec fn dec(n: nat) -> Seq<char>
    decreases n,
{
    if n < 10 {
        seq![digit_char(n)]
    } else {
        dec(n / 10).push(digit_char(n % 10))
    }
}

/// The lower-case hexadecimal digit for `d < 16`.
pub open spec fn hex_char(d: nat) -> char {
    if d < 10 { digit_char(d) }
    else if d == 10 { 'a' }
    else if d == 11 { 'b' }
    else if d == 12 { 'c' }
    else if d == 13 { 'd' }
    else if d == 14 { 'e' }
    else { 'f' }
}

/// Lower-case hexadecimal representation of `n` (as `{:x}` writes it).
pub open spec fn hex(n: nat) -> Seq<char>
    decreases n,
{
    if n < 16 {
        seq![hex_char(n)]
    } else {
        hex(n / 16).push(hex_char(n % 16))
    }
}

/// `c` is an ASCII decimal digit.
pub open spec fn is_digit(c: char) -> bool {
    '0' <= c <= '9'
}

/// Value of a run of ASCII digits.
pub open spec fn digits_value(s: Seq<char>) -> nat
    decreases s.len(),
{
    if s.len() == 0 {
        0
    } else {
        digits_value(s.drop_last()) * 10 + ((s.last() as u32) - ('0' as u32)) as nat
    }
}

/// Every character of `s` is an ASCII digit.
pub open spec fn all_digits(s: Seq<char>) -> bool {
    forall|i: int| 0 <= i < s.len() ==> #[trigger] is_digit(s[i])
}

/// `usize::from_str`: an optional `+`, then one or more ASCII digits whose
/// value fits in `usize`.
pub open spec fn parse_usize(s: Seq<char>) -> Option<usize> {
    let body = if s.len() > 0 && s[0] == '+' { s.drop_first() } else { s };
    if body.len() > 0 && all_digits(body) && digits_value(body) <= usize::MAX {
        Some(digits_value(body) as usize)
    } else {
        None
    }
}

/// `c` is an ASCII letter.
pub open spec fn is_ascii_alpha(c: char) -> bool {
    ('a' <= c <= 'z') || ('A' <= c <= 'Z')
}

/// `c` is an ASCII letter or digit.
pub open spec fn is_ascii_alnum(c: char) -> bool {
    is_ascii_alpha(c) || is_digit(c)
}

/// Pieces of `s` between occurrences of the character `sep` (`str::split`).
pub open spec fn split_char(s: Seq<char>, sep: char) -> Seq<Seq<char>>
    decreases s.len(),
{
    match find_char_from(s, sep, 0) {
        None => seq![s],
        Some(i) => {
            if 0 <= i < s.len() {
                seq![s.take(i)] + split_char(s.skip(i + 1), sep)
            } else {
                seq![s]
            }
        }
    }
}

// ---------------------------------------------------------------------------
// Lemmas
// ---------------------------------------------------------------------------

/// Splitting at the first `\n` unfolds `lines` once.
pub proof fn lemma_lines_unfold(s: Seq<char>, i: int)
    requires
        0 <= i < s.len(),
        find_char_from(s, '\n', 0) == Some(i),
    ensures
        lines(s) == seq![strip_cr(s.take(i))] + lines(s.skip(i + 1)),
{
}

/// A character search in a suffix is a shifted search in the whole.
pub proof fn lemma_find_char_shift(s: Seq<char>, c: char, off: int, i: int)
    requires
        0 <= off <= s.len(),
        0 <= i,
    ensures
        find_char_from(s.skip(off), c, i) == (match find_char_from(s, c, off + i) {
            Some(k) => Some(k - off),
            None => None::<int>,
        }),
    decreases s.len() - off - i,
{
    if off + i < s.len() {
        lemma_find_char_shift(s, c, off, i + 1);
    }
}

/// No `c` in `s`.
pub open spec fn lacks_char(s: Seq<char>, c: char) -> bool {
    forall|j: int| 0 <= j < s.len() ==> #[trigger] s[j] != c
}

/// What `find_char_from` finds is the first `c` from `st` on.
pub proof fn lemma_find_char_first(s: Seq<char>, c: char, st: int)
    requires
        0 <= st,
    ensures
        match find_char_from(s, c, st) {
            Some(k) => st <= k < s.len() && s[k] == c && forall|j: int| st <= j < k ==> #[trigger] s[j] != c,
            None => forall|j: int| st <= j < s.len() ==> #[trigger] s[j] != c,
        },
    decreases s.len() - st,
{
    if st < s.len() && s[st] != c {
        lemma_find_char_first(s, c, st + 1);
    }
}

/// The first `c` from `st` on is what `find_char_from` finds.
pub proof fn lemma_find_char_at(s: Seq<char>, c: char, st: int, i: int)
    requires
        0 <= st <= i < s.len(),
        s[i] == c,
        forall|j: int| st <= j < i ==> #[trigger] s[j] != c,
    ensures
        find_char_from(s, c, st) == Some(i),
    decreases i - st,
{
    if st < i {
        lemma_find_char_at(s, c, st + 1, i);
    }
}

/// `c` is counted in the pieces of a concatenation.
pub proof fn lemma_char_count_concat(a: Seq<char>, b: Seq<char>, c: char)
    ensures
        char_count(a + b, c) == char_count(a, c) + char_count(b, c),
    decreases b.len(),
{
    if b.len() == 0 {
        assert(a + b =~= a);
    } else {
        assert((a + b).drop_last() =~= a + b.drop_last());
        lemma_char_count_concat(a, b.drop_last(), c);
    }
}

/// Text without `c` counts none.
pub proof fn lemma_char_count_none(s: Seq<char>, c: char)
    requires
        lacks_char(s, c),
    ensures
        char_count(s, c) == 0,
    decreases s.len(),
{
    if s.len() > 0 {
        assert(lacks_char(s.drop_last(), c)) by {
            assert forall|j: int| 0 <= j < s.drop_last().len() implies #[trigger] s.drop_last()[j] != c by {
                assert(s.drop_last()[j] == s[j]);
            }
        }
        lemma_char_count_none(s.drop_last(), c);
    }
}

/// The lines of text that ends in a line break, followed by more text, are
/// its lines followed by those of the rest.
pub proof fn lemma_lines_append(a: Seq<char>, b: Seq<char>)
    requires
        a.len() == 0 || a.last() == '\n',
    ensures
        lines(a + b) == lines(a) + lines(b),
    decreases a.len(),
{
    if a.len() == 0 {
        assert(a + b =~= b);
        assert(lines(a) + lines(b) =~= lines(b));
    } else {
        lemma_find_char_first(a, '\n', 0);
        let i = find_char_from(a, '\n', 0)->0;
        assert forall|j: int| 0 <= j < i implies #[trigger] (a + b)[j] != '\n' by {
            assert((a + b)[j] == a[j]);
        }
        assert((a + b)[i] == a[i]);
        lemma_find_char_at(a + b, '\n', 0, i);
        let t = a.skip(i + 1);
        assert((a + b).take(i) =~= a.take(i));
        assert((a + b).skip(i + 1) =~= t + b);
        if t.len() > 0 {
            assert(t.last() == a.last());
        }
        lemma_lines_append(t, b);
        lemma_lines_unfold(a + b, i);
        lemma_lines_unfold(a, i);
        assert(lines(a + b) =~= lines(a) + lines(b));
    }
}

/// Text that ends in a line break has one line per line break.
pub proof fn lemma_lines_len(s: Seq<char>)
    requires
        s.len() == 0 || s.last() == '\n',
    ensures
        lines(s).len() == char_count(s, '\n'),
    decreases s.len(),
{
    if s.len() > 0 {
        lemma_find_char_first(s, '\n', 0);
        assert(s[s.len() - 1] == '\n');
        assert(find_char_from(s, '\n', 0) is Some);
        let i = find_char_from(s, '\n', 0)->0;
        let t = s.skip(i + 1);
        assert(s =~= s.take(i) + seq!['\n'] + t);
        assert(char_count(seq!['\n'], '\n') == 1) by {
            let one = seq!['\n'];
            assert(one.drop_last() =~= Seq::<char>::empty());
            assert(char_count(Seq::<char>::empty(), '\n') == 0);
            assert(one.last() == '\n');
            assert(char_count(one, '\n') == char_count(one.drop_last(), '\n') + 1);
        }
        lemma_char_count_concat(s.take(i) + seq!['\n'], t, '\n');
        lemma_char_count_concat(s.take(i), seq!['\n'], '\n');
        assert(lacks_char(s.take(i), '\n')) by {
            assert forall|j: int| 0 <= j < s.take(i).len() implies #[trigger] s.take(i)[j] != '\n' by {
                assert(s.take(i)[j] == s[j]);
            }
        }
        lemma_char_count_none(s.take(i), '\n');
        assert(seq!['\n'].drop_last() =~= Seq::<char>::empty());
        if t.len() > 0 {
            assert(t.last() == s.last());
        }
        lemma_lines_len(t);
        lemma_lines_unfold(s, i);
    }
}

/// A line without a line break, followed by one, is one line.
pub proof fn lemma_line_of(x: Seq<char>)
    requires
        lacks_char(x, '\n'),
    ensures
        lines(x + seq!['\n']) == seq![strip_cr(x)],
{
    let s = x + seq!['\n'];
    assert forall|j: int| 0 <= j < x.len() implies #[trigger] s[j] != '\n' by {
        assert(s[j] == x[j]);
    }
    lemma_find_char_at(s, '\n', 0, x.len() as int);
    lemma_lines_unfold(s, x.len() as int);
    assert(s.take(x.len() as int) =~= x);
    assert(s.skip(x.len() as int + 1) =~= Seq::<char>::empty());
    assert(lines(s) =~= seq![strip_cr(x)]);
}

/// No line of `s` holds a line break.
pub proof fn lemma_lines_lack_breaks(s: Seq<char>)
    ensures
        forall|k: int| 0 <= k < lines(s).len() ==> lacks_char(#[trigger] lines(s)[k], '\n'),
    decreases s.len(),
{
    if s.len() > 0 {
        lemma_find_char_first(s, '\n', 0);
        match find_char_from(s, '\n', 0) {
            None => {
                assert(lines(s) =~= seq![s]);
                assert(lacks_char(s, '\n'));
            },
            Some(i) => {
                lemma_lines_lack_breaks(s.skip(i + 1));
                lemma_lines_unfold(s, i);
                let first = strip_cr(s.take(i));
                assert(lacks_char(first, '\n')) by {
                    assert forall|j: int| 0 <= j < first.len() implies #[trigger] first[j] != '\n' by {
                        assert(first[j] == s.take(i)[j]);
                        assert(s.take(i)[j] == s[j]);
                    }
                }
                assert forall|k: int| 0 <= k < lines(s).len() implies lacks_char(#[trigger] lines(s)[k], '\n') by {
                    if k > 0 {
                        assert(lines(s)[k] == lines(s.skip(i + 1))[k - 1]);
                    }
                }
            },
        }
    }
}

// ---------------------------------------------------------------------------
// Executable helpers
// ---------------------------------------------------------------------------

/// `String::push`.
#[verifier::external_body]
pub fn push_char(s: &mut String, c: char)
    ensures
        final(s)@ == old(s)@.push(c),
{
    s.push(c);
}

/// The characters of a `&str`, as a vector.
pub fn chars_of(s: &str) -> (r: Vec<char>)
    ensures
        r@ == s@,
{
    let mut r: Vec<char> = Vec::new();
    for c in it: s.chars()
        invariant
            r@ == it.seq().take(it.index() as int),
    {
        r.push(c);
    }
    r
}

/// Appends the characters `v[from..to]` to `out`.
pub fn push_range(out: &mut String, v: &Vec<char>, from: usize, to: usize)
    requires
        from <= to <= v@.len(),
    ensures
        final(out)@ == old(out)@ + v@.subrange(from as int, to as int),
{
    let mut i = from;
    while i < to
        invariant
            from <= i <= to <= v@.len(),
            out@ == old(out)@ + v@.subrange(from as int, i as int),
        decreases to - i,
    {
        push_char(out, v[i]);
        i = i + 1;
        assert(v@.subrange(from as int, i as int) =~= v@.subrange(from as int, i - 1).push(
            v@[i - 1],
        ));
    }
}

/// Appends all of `v` to `out`.
pub fn push_chars(out: &mut String, v: &Vec<char>)
    ensures
        final(out)@ == old(out)@ + v@,
{
    push_range(out, v, 0, v.len());
    assert(v@.subrange(0, v@.len() as int) =~= v@);
}

/// A `String` holding `v[from..to]`.
pub fn string_of_range(v: &Vec<char>, from: usize, to: usize) -> (r: String)
    requires
        from <= to <= v@.len(),
    ensures
        r@ == v@.subrange(from as int, to as int),
{
    let mut r = String::new();
    push_range(&mut r, v, from, to);
    assert(Seq::<char>::empty() + v@.subrange(from as int, to as int) =~= v@.subrange(
        from as int,
        to as int,
    ));
    r
}

/// How many times `c` occurs in `s`.
pub fn count_char(s: &str, c: char) -> (n: usize)
    ensures
        n == char_count(s@, c),
{
    let v = chars_of(s);
    let mut n: usize = 0;
    let mut i: usize = 0;
    while i < v.len()
        invariant
            i <= v@.len(),
            n <= i,
            n == char_count(v@.take(i as int), c),
        decreases v@.len() - i,
    {
        proof {
            assert(v@.take(i + 1).drop_last() =~= v@.take(i as int));
        }
        if v[i] == c {
            n = n + 1;
        }
        i = i + 1;
    }
    proof {
        assert(v@.take(i as int) =~= v@);
    }
    n
}

/// A `String` holding the characters of `v`.
pub fn string_of(v: &Vec<char>) -> (r: String)
    ensures
        r@ == v@,
{
    let r = string_of_range(v, 0, v.len());
    assert(v@.subrange(0, v@.len() as int) =~= v@);
    r
}

/// A `String` copy of a `&str`.
pub fn owned(s: &str) -> (r: String)
    ensures
        r@ == s@,
{
    String::from_str(s)
}

/// A vector holding `v[from..to]`.
pub fn sub_chars(v: &Vec<char>, from: usize, to: usize) -> (r: Vec<char>)
    requires
        from <= to <= v@.len(),
    ensures
        r@ == v@.subrange(from as int, to as int),
{
    let mut r: Vec<char> = Vec::new();
    let mut i = from;
    while i < to
        invariant
            from <= i <= to <= v@.len(),
            r@ == v@.subrange(from as int, i as int),
        decreases to - i,
    {
        r.push(v[i]);
        i = i + 1;
        assert(r@ =~= v@.subrange(from as int, i as int));
    }
    r
}

/// `char::is_whitespace`.
pub fn is_ws_char(c: char) -> (b: bool)
    ensures
        b == is_ws(c),
{
    c == ' ' || c == '\t' || c == '\n' || c == '\r' || c == '\u{0B}' || c == '\u{0C}' || c
        == '\u{85}' || c == '\u{A0}' || c == '\u{1680}' || ('\u{2000}' <= c && c <= '\u{200A}')
        || c == '\u{2028}' || c == '\u{2029}' || c == '\u{202F}' || c == '\u{205F}' || c
        == '\u{3000}'
}

/// First non-whitespace index at or after `i` in `v`.
pub fn skip_ws(v: &Vec<char>, i: usize) -> (r: usize)
    requires
        i <= v@.len(),
    ensures
        r as int == skip_ws_from(v@, i as int),
        i <= r <= v@.len(),
        forall|k: int| i <= k < r ==> is_ws(#[trigger] v@[k]),
{
    let mut k = i;
    while k < v.len() && is_ws_char(v[k])
        invariant
            i <= k <= v@.len(),
            skip_ws_from(v@, i as int) == skip_ws_from(v@, k as int),
            forall|j: int| i <= j < k ==> is_ws(#[trigger] v@[j]),
        decreases v@.len() - k,
    {
        k = k + 1;
    }
    k
}

/// End of `v[..j]` once trailing whitespace is removed, not going below `lo`.
pub fn trim_end_index(v: &Vec<char>, lo: usize, j: usize) -> (r: usize)
    requires
        lo <= j <= v@.len(),
    ensures
        lo <= r <= j,
        r > lo ==> r as int == trim_end_from(v@, j as int),
        r == lo ==> trim_end_from(v@, j as int) <= lo,
        forall|k: int| r <= k < j ==> is_ws(#[trigger] v@[k]),
{
    let mut k = j;
    while k > lo && is_ws_char(v[k - 1])
        invariant
            lo <= k <= j <= v@.len(),
            trim_end_from(v@, j as int) == trim_end_from(v@, k as int),
            forall|m: int| k <= m < j ==> is_ws(#[trigger] v@[m]),
        decreases k,
    {
        k = k - 1;
    }
    if k == lo {
        proof { lemma_trim_end_le(v@, k as int); }
    }
    k
}

/// `trim_end_from` never exceeds its start.
pub proof fn lemma_trim_end_le(s: Seq<char>, j: int)
    ensures
        trim_end_from(s, j) <= (if j < 0 { 0 } else { j }),
        trim_end_from(s, j) >= 0,
    decreases j,
{
    if j > 0 && j <= s.len() && is_ws(s[j - 1]) {
        lemma_trim_end_le(s, j - 1);
    }
}

/// The whitespace-free bounds `[a, b)` of `v[from..to]`, as `str::trim` keeps them.
pub fn trim_bounds(v: &Vec<char>, from: usize, to: usize) -> (r: (usize, usize))
    requires
        from <= to <= v@.len(),
    ensures
        from <= r.0 <= r.1 <= to,
        v@.subrange(r.0 as int, r.1 as int) == trim(v@.subrange(from as int, to as int)),
        r.0 == from + skip_ws_from(v@.subrange(from as int, to as int), 0),
{
    let ghost s = v@.subrange(from as int, to as int);
    let a = skip_ws(&sub_chars(v, from, to), 0);
    proof {
        lemma_skip_ws_bounds(s, 0);
    }
    let a = from + a;
    let b = trim_end_index(v, a, to);
    proof {
        let t = s.skip(a - from);
        assert(t =~= v@.subrange(a as int, to as int));
        lemma_trim_end_sub(v@, a as int, to as int, b as int);
        assert(trim(s) == trim_end(t));
    }
    (a, b)
}

/// `skip_ws_from` lands inside the sequence.
pub proof fn lemma_skip_ws_bounds(s: Seq<char>, i: int)
    requires
        0 <= i <= s.len(),
    ensures
        i <= skip_ws_from(s, i) <= s.len(),
        skip_ws_from(s, i) < s.len() ==> !is_ws(s[skip_ws_from(s, i)]),
    decreases s.len() - i,
{
    if i < s.len() && is_ws(s[i]) {
        lemma_skip_ws_bounds(s, i + 1);
    }
}

/// Trimming the end of `s[a..j]` agrees with the index found in the whole of `s`.
pub proof fn lemma_trim_end_sub(s: Seq<char>, a: int, j: int, b: int)
    requires
        0 <= a <= b <= j <= s.len(),
        b > a ==> b == trim_end_from(s, j),
        b == a ==> trim_end_from(s, j) <= a,
        forall|k: int| b <= k < j ==> is_ws(#[trigger] s[k]),
    ensures
        trim_end(s.subrange(a, j)) == s.subrange(a, b),
{
    let t = s.subrange(a, j);
    lemma_trim_end_shift(s, a, j);
    assert(t.take(b - a) =~= s.subrange(a, b));
}

/// `trim_end_from` in a window starting at `a`, shifted.
pub proof fn lemma_trim_end_shift(s: Seq<char>, a: int, j: int)
    requires
        0 <= a <= j <= s.len(),
    ensures
        trim_end_from(s.subrange(a, j), j - a) == (if trim_end_from(s, j) <= a {
            0
        } else {
            trim_end_from(s, j) - a
        }),
    decreases j,
{
    let t = s.subrange(a, j);
    if j - a <= 0 {
        lemma_trim_end_le(s, j);
        if trim_end_from(s, j) > a {
            assert(j == a);
        }
    } else if is_ws(s[j - 1]) {
        assert(t[j - a - 1] == s[j - 1]);
        lemma_trim_end_shift(s, a, j - 1);
        assert(s.subrange(a, j - 1) =~= t.take(j - a - 1));
        lemma_trim_end_prefix(t, j - a - 1);
    } else {
        assert(t[j - a - 1] == s[j - 1]);
    }
}

/// `trim_end_from` only reads below its start.
pub proof fn lemma_trim_end_prefix(t: Seq<char>, k: int)
    requires
        0 <= k <= t.len(),
    ensures
        trim_end_from(t.take(k), k) == trim_end_from(t, k),
    decreases k,
{
    if k > 0 && is_ws(t[k - 1]) {
        assert(t.take(k)[k - 1] == t[k - 1]);
        assert(t.take(k).take(k - 1) =~= t.take(k - 1));
        lemma_trim_end_prefix(t.take(k), k - 1);
        lemma_trim_end_prefix(t, k - 1);
    } else if k > 0 {
        assert(t.take(k)[k - 1] == t[k - 1]);
    }
}

/// `str::trim` as a new `String`.
pub fn trimmed(s: &str) -> (r: String)
    ensures
        r@ == trim(s@),
{
    let v = chars_of(s);
    let (a, b) = trim_bounds(&v, 0, v.len());
    assert(v@.subrange(0, v@.len() as int) =~= v@);
    string_of_range(&v, a, b)
}

/// `v[i..]` begins with the characters `p`.
pub fn starts_with_at(v: &Vec<char>, i: usize, p: &Vec<char>) -> (b: bool)
    requires
        i <= v@.len(),
    ensures
        b == occurs_at(v@, p@, i as int),
{
    if p.len() > v.len() - i {
        return false;
    }
    let mut k: usize = 0;
    while k < p.len()
        invariant
            i + p@.len() <= v.len(),
            k <= p@.len(),
            forall|m: int| 0 <= m < k ==> v@[i + m] == p@[m],
        decreases p@.len() - k,
    {
        if v[i + k] != p[k] {
            proof {
                assert(v@.subrange(i as int, i + p@.len())[k as int] != p@[k as int]);
            }
            return false;
        }
        k = k + 1;
    }
    assert(v@.subrange(i as int, i + p@.len()) =~= p@);
    true
}

/// `str::starts_with`.
pub fn str_starts_with(s: &str, p: &str) -> (b: bool)
    ensures
        b == starts_with(s@, p@),
{
    let v = chars_of(s);
    let pv = chars_of(p);
    let r = starts_with_at(&v, 0, &pv);
    proof {
        if p@.len() <= s@.len() {
            assert(v@.subrange(0, p@.len() as int) =~= v@.take(p@.len() as int));
        }
    }
    r
}

/// `str::ends_with`.
pub fn str_ends_with(s: &str, p: &str) -> (b: bool)
    ensures
        b == ends_with(s@, p@),
{
    let v = chars_of(s);
    let pv = chars_of(p);
    if pv.len() > v.len() {
        return false;
    }
    let r = starts_with_at(&v, v.len() - pv.len(), &pv);
    proof {
        assert(v@.subrange(v@.len() - p@.len(), v@.len() as int) =~= v@.skip(
            v@.len() - p@.len(),
        ));
    }
    r
}

/// First occurrence of `p` in `v` at or after `i`.
pub fn find_at(v: &Vec<char>, p: &Vec<char>, i: usize) -> (r: Option<usize>)
    requires
        i <= v@.len(),
    ensures
        match r {
            Some(k) => find_from(v@, p@, i as int) == Some(k as int),
            None => find_from(v@, p@, i as int) is None,
        },
{
    let mut k = i;
    while k <= v.len()
        invariant
            i <= k <= v@.len() + 1,
            find_from(v@, p@, i as int) == find_from(v@, p@, k as int),
        decreases v@.len() + 1 - k,
    {
        if p.len() == 0 {
            return Some(k);
        }
        if p.len() > v.len() - k {
            return None;
        }
        if starts_with_at(v, k, p) {
            return Some(k);
        }
        k = k + 1;
    }
    None
}

/// `p` occurs in `s` (`str::contains`).
pub fn str_contains(s: &str, p: &str) -> (b: bool)
    ensures
        b == contains(s@, p@),
{
    let v = chars_of(s);
    let pv = chars_of(p);
    find_at(&v, &pv, 0).is_some()
}

/// First index at or after `i` holding `c`.
pub fn find_char_at(v: &Vec<char>, c: char, i: usize) -> (r: Option<usize>)
    requires
        i <= v@.len(),
    ensures
        match r {
            Some(k) => find_char_from(v@, c, i as int) == Some(k as int) && i <= k < v@.len()
                && v@[k as int] == c,
            None => find_char_from(v@, c, i as int) is None,
        },
{
    let mut k = i;
    while k < v.len()
        invariant
            i <= k <= v@.len(),
            find_char_from(v@, c, i as int) == find_char_from(v@, c, k as int),
        decreases v@.len() - k,
    {
        if v[k] == c {
            return Some(k);
        }
        k = k + 1;
    }
    None
}

/// `v` holds the character `c` somewhere in `[from, to)`.
pub fn has_char_in(v: &Vec<char>, c: char, from: usize, to: usize) -> (b: bool)
    requires
        from <= to <= v@.len(),
    ensures
        b == (exists|k: int| from <= k < to && v@[k] == c),
{
    let mut k = from;
    while k < to
        invariant
            from <= k <= to <= v@.len(),
            forall|m: int| from <= m < k ==> v@[m] != c,
        decreases to - k,
    {
        if v[k] == c {
            return true;
        }
        k = k + 1;
    }
    false
}

/// Decimal representation of `n` (`usize::to_string`).
pub fn dec_string(n: usize) -> (r: String)
    ensures
        r@ == dec(n as nat),
    decreases n,
{
    let d = n % 10;
    let c = if d == 0 { '0' } else if d == 1 { '1' } else if d == 2 { '2' } else if d == 3 {
        '3'
    } else if d == 4 { '4' } else if d == 5 { '5' } else if d == 6 { '6' } else if d == 7 {
        '7'
    } else if d == 8 { '8' } else { '9' };
    if n < 10 {
        let mut r = String::new();
        push_char(&mut r, c);
        assert(r@ =~= seq![digit_char(n as nat)]);
        r
    } else {
        let mut r = dec_string(n / 10);
        push_char(&mut r, c);
        r
    }
}

/// Decimal representation of `n` (`u64::to_string`).
pub fn dec_string_u64(n: u64) -> (r: String)
    ensures
        r@ == dec(n as nat),
    decreases n,
{
    let d = n % 10;
    let c = if d == 0 { '0' } else if d == 1 { '1' } else if d == 2 { '2' } else if d == 3 {
        '3'
    } else if d == 4 { '4' } else if d == 5 { '5' } else if d == 6 { '6' } else if d == 7 {
        '7'
    } else if d == 8 { '8' } else { '9' };
    if n < 10 {
        let mut r = String::new();
        push_char(&mut r, c);
        assert(r@ =~= seq![digit_char(n as nat)]);
        r
    } else {
        let mut r = dec_string_u64(n / 10);
        push_char(&mut r, c);
        r
    }
}

/// Lower-case hexadecimal representation of `n` (`format!("{:x}", n)`).
pub fn hex_string(n: u64) -> (r: String)
    ensures
        r@ == hex(n as nat),
    decreases n,
{
    let d = n % 16;
    let c = if d == 0 { '0' } else if d == 1 { '1' } else if d == 2 { '2' } else if d == 3 {
        '3'
    } else if d == 4 { '4' } else if d == 5 { '5' } else if d == 6 { '6' } else if d == 7 {
        '7'
    } else if d == 8 { '8' } else if d == 9 { '9' } else if d == 10 { 'a' } else if d == 11 {
        'b'
    } else if d == 12 { 'c' } else if d == 13 { 'd' } else if d == 14 { 'e' } else { 'f' };
    if n < 16 {
        let mut r = String::new();
        push_char(&mut r, c);
        assert(r@ =~= seq![hex_char(n as nat)]);
        r
    } else {
        let mut r = hex_string(n / 16);
        push_char(&mut r, c);
        r
    }
}

/// `digits_value` of a prefix grows by one digit.
pub proof fn lemma_digits_value_step(s: Seq<char>, k: int)
    requires
        0 <= k < s.len(),
    ensures
        digits_value(s.take(k + 1)) == digits_value(s.take(k)) * 10 + ((s[k] as u32) - (
        '0' as u32)) as nat,
{
    assert(s.take(k + 1).drop_last() =~= s.take(k));
}

/// Parses `v[from..to]` as `usize::from_str` does.
pub fn parse_usize_range(v: &Vec<char>, from: usize, to: usize) -> (r: Option<usize>)
    requires
        from <= to <= v@.len(),
    ensures
        r == parse_usize(v@.subrange(from as int, to as int)),
{
    let ghost s = v@.subrange(from as int, to as int);
    let mut start = from;
    if from < to && v[from] == '+' {
        start = from + 1;
    }
    let ghost body = v@.subrange(start as int, to as int);
    assert(body =~= (if s.len() > 0 && s[0] == '+' { s.drop_first() } else { s }));
    if start == to {
        return None;
    }
    let mut acc: usize = 0;
    let mut k = start;
    while k < to
        invariant
            from <= start <= k <= to <= v@.len(),
            s == v@.subrange(from as int, to as int),
            body == (if s.len() > 0 && s[0] == '+' { s.drop_first() } else { s }),
            body == v@.subrange(start as int, to as int),
            forall|m: int| 0 <= m < k - start ==> #[trigger] is_digit(body[m]),
            acc as nat == digits_value(body.take(k - start)),
        decreases to - k,
    {
        let c = v[k];
        if !('0' <= c && c <= '9') {
            proof {
                assert(!is_digit(body[k - start]));
                assert(!all_digits(body));
            }
            return None;
        }
        let d = (c as u32 - '0' as u32) as usize;
        proof {
            lemma_digits_value_step(body, k - start);
            lemma_digits_value_prefix_le(body, k - start + 1, to - start);
        }
        if acc > (usize::MAX - d) / 10 {
            proof {
                assert(acc * 10 + d > usize::MAX) by (nonlinear_arith)
                    requires
                        acc > (usize::MAX - d) / 10,
                        d <= 9,
                ;
                assert(forall|m: int| 0 <= m < k - start + 1 ==> #[trigger] is_digit(body[m]));
                lemma_digits_overflow(body, k - start + 1);
            }
            return None;
        }
        acc = acc * 10 + d;
        k = k + 1;
    }
    assert(body.take(to - start) =~= body);
    Some(acc)
}

/// A run of digits is at least as large as any of its prefixes.
pub proof fn lemma_digits_value_prefix_le(s: Seq<char>, k: int, n: int)
    requires
        0 <= k <= n <= s.len(),
    ensures
        digits_value(s.take(k)) <= digits_value(s.take(n)),
    decreases n - k,
{
    if k < n {
        lemma_digits_value_prefix_le(s, k, n - 1);
        lemma_digits_value_step(s, n - 1);
        assert(digits_value(s.take(n - 1)) <= digits_value(s.take(n - 1)) * 10) by (
        nonlinear_arith);
    }
}

/// When a prefix of a digit run already overflows, the whole run overflows
/// or holds a non-digit.
pub proof fn lemma_digits_overflow(body: Seq<char>, k: int)
    requires
        0 < k <= body.len(),
        digits_value(body.take(k)) > usize::MAX,
    ensures
        !(all_digits(body) && digits_value(body) <= usize::MAX),
{
    lemma_digits_value_prefix_le(body, k, body.len() as int);
    assert(body.take(body.len() as int) =~= body);
}


/// The views of a vector of strings.
pub open spec fn views(v: Seq<String>) -> Seq<Seq<char>> {
    v.map_values(|x: String| x@)
}

/// Bounds `[a, b)` of each line of `v` (as `str::lines` splits it).
pub fn line_bounds(v: &Vec<char>) -> (r: Vec<(usize, usize)>)
    ensures
        r@.len() == lines(v@).len(),
        forall|i: int| 0 <= i < r@.len() ==> {
            &&& (#[trigger] r@[i]).0 <= r@[i].1 <= v@.len()
            &&& v@.subrange(r@[i].0 as int, r@[i].1 as int) == lines(v@)[i]
        },
{
    let mut r: Vec<(usize, usize)> = Vec::new();
    let mut pos: usize = 0;
    assert(v@.skip(0) =~= v@);
    while pos < v.len()
        invariant
            pos <= v@.len(),
            lines(v@) == Seq::new(r@.len() as nat, |i: int| v@.subrange(r@[i].0 as int, r@[i].1 as int)) + lines(v@.skip(pos as int)),
            forall|i: int| 0 <= i < r@.len() ==> (#[trigger] r@[i]).0 <= r@[i].1 <= v@.len(),
        decreases v@.len() - pos,
    {
        let ghost rest = v@.skip(pos as int);
        let ghost old_r = r@;
        proof { lemma_find_char_shift(v@, '\n', pos as int, 0); }
        match find_char_at(v, '\n', pos) {
            None => {
                r.push((pos, v.len()));
                proof {
                    assert(lines(rest) == seq![rest]);
                    assert(v@.subrange(pos as int, v@.len() as int) =~= rest);
                    assert(v@.skip(v@.len() as int) =~= Seq::<char>::empty());
                    assert(lines(v@.skip(v@.len() as int)) =~= Seq::<Seq<char>>::empty());
                    assert(Seq::new(r@.len() as nat, |i: int| v@.subrange(r@[i].0 as int, r@[i].1 as int)) =~= Seq::new(old_r.len() as nat, |i: int| v@.subrange(old_r[i].0 as int, old_r[i].1 as int)).push(rest));
                }
                pos = v.len();
            },
            Some(k) => {
                let mut e = k;
                if e > pos && v[e - 1] == '\r' {
                    e = e - 1;
                }
                r.push((pos, e));
                proof {
                    let i = k - pos;
                    lemma_lines_unfold(rest, i as int);
                    assert(rest.take(i as int) =~= v@.subrange(pos as int, k as int));
                    assert(strip_cr(rest.take(i as int)) =~= v@.subrange(pos as int, e as int));
                    assert(rest.skip(i + 1) =~= v@.skip(k + 1));
                    assert(Seq::new(r@.len() as nat, |j: int| v@.subrange(r@[j].0 as int, r@[j].1 as int)) =~= Seq::new(old_r.len() as nat, |j: int| v@.subrange(old_r[j].0 as int, old_r[j].1 as int)).push(v@.subrange(pos as int, e as int)));
                }
                pos = k + 1;
            },
        }
    }
    proof {
        assert(v@.skip(pos as int) =~= Seq::<char>::empty());
        assert(lines(v@.skip(pos as int)) =~= Seq::<Seq<char>>::empty());
    }
    r
}

/// `str::lines` collected into owned strings.
pub fn lines_of(v: &Vec<char>) -> (r: Vec<String>)
    ensures
        views(r@) == lines(v@),
{
    let b = line_bounds(v);
    let mut r: Vec<String> = Vec::new();
    let mut i: usize = 0;
    while i < b.len()
        invariant
            i <= b@.len(),
            b@.len() == lines(v@).len(),
            forall|j: int| 0 <= j < b@.len() ==> {
                &&& (#[trigger] b@[j]).0 <= b@[j].1 <= v@.len()
                &&& v@.subrange(b@[j].0 as int, b@[j].1 as int) == lines(v@)[j]
            },
            views(r@) == lines(v@).take(i as int),
        decreases b@.len() - i,
    {
        let (x, y) = b[i];
        let s = string_of_range(v, x, y);
        let ghost old_r = r@;
        r.push(s);
        proof {
            assert(views(r@) =~= views(old_r).push(s@));
        }
        i = i + 1;
        assert(views(r@) =~= lines(v@).take(i as int));
    }
    assert(lines(v@).take(i as int) =~= lines(v@));
    r
}


/// `s` with each character replaced by `f` of it.
pub open spec fn map_chars(s: Seq<char>, f: spec_fn(char) -> Seq<char>) -> Seq<char>
    decreases s.len(),
{
    if s.len() == 0 {
        Seq::empty()
    } else {
        map_chars(s.drop_last(), f) + f(s.last())
    }
}

/// `map_chars` of a prefix grows by one character's image.
pub proof fn lemma_map_chars_step(s: Seq<char>, f: spec_fn(char) -> Seq<char>, i: int)
    requires
        0 <= i < s.len(),
    ensures
        map_chars(s.take(i + 1), f) == map_chars(s.take(i), f) + f(s[i]),
{
    assert(s.take(i + 1).drop_last() =~= s.take(i));
}

/// Right-aligns `d` in a field of width 4 (`{:4}`).
pub open spec fn pad4(d: Seq<char>) -> Seq<char> {
    if d.len() < 4 {
        repeat(" "@, (4 - d.len()) as nat) + d
    } else {
        d
    }
}

/// Appends `n` copies of `s` to `out`.
pub fn push_repeat(out: &mut String, s: &str, n: usize)
    ensures
        final(out)@ == old(out)@ + repeat(s@, n as nat),
{
    let mut i: usize = 0;
    while i < n
        invariant
            i <= n,
            out@ == old(out)@ + repeat(s@, i as nat),
        decreases n - i,
    {
        out.append(s);
        i = i + 1;
        assert(repeat(s@, i as nat) == repeat(s@, (i - 1) as nat) + s@);
    }
}

/// Appends `d` right-aligned in a field of width 4.
pub fn push_pad4(out: &mut String, d: &String)
    ensures
        final(out)@ == old(out)@ + pad4(d@),
{
    let n = chars_of(d.as_str()).len();
    if n < 4 {
        push_repeat(out, " ", 4 - n);
    }
    out.append(d.as_str());
}


/// `trim_start` of a vector of characters.
pub fn trim_start_vec(x: &Vec<char>) -> (r: Vec<char>)
    ensures
        r@ == trim_start(x@),
{
    let k = skip_ws(x, 0);
    let r = sub_chars(x, k, x.len());
    assert(r@ =~= x@.skip(k as int));
    r
}

/// `trim_end` of a vector of characters.
pub fn trim_end_vec(x: &Vec<char>) -> (r: Vec<char>)
    ensures
        r@ == trim_end(x@),
{
    let k = trim_end_index(x, 0, x.len());
    proof {
        lemma_trim_end_le(x@, x@.len() as int);
    }
    let r = sub_chars(x, 0, k);
    assert(r@ =~= x@.take(k as int));
    r
}

/// `trim` of a vector of characters.
pub fn trim_vec(x: &Vec<char>) -> (r: Vec<char>)
    ensures
        r@ == trim(x@),
{
    let a = trim_start_vec(x);
    trim_end_vec(&a)
}

/// Last index before `j` holding `c`.
pub fn rfind_char_at(v: &Vec<char>, c: char, j: usize) -> (r: Option<usize>)
    requires
        j <= v@.len(),
    ensures
        match r {
            Some(k) => rfind_char_before(v@, c, j as int) == Some(k as int) && k < j && v@[k as int] == c,
            None => rfind_char_before(v@, c, j as int) is None,
        },
{
    let mut k = j;
    while k > 0
        invariant
            k <= j <= v@.len(),
            rfind_char_before(v@, c, j as int) == rfind_char_before(v@, c, k as int),
        decreases k,
    {
        if v[k - 1] == c {
            return Some(k - 1);
        }
        k = k - 1;
    }
    None
}

/// `split_char` of a vector of characters.
pub fn split_vec(x: &Vec<char>, sep: char) -> (r: Vec<Vec<char>>)
    ensures
        r@.len() == split_char(x@, sep).len(),
        forall|i: int| 0 <= i < r@.len() ==> (#[trigger] r@[i])@ == split_char(x@, sep)[i],
{
    let mut r: Vec<Vec<char>> = Vec::new();
    let mut pos: usize = 0;
    assert(x@.skip(0) =~= x@);
    loop
        invariant
            pos <= x@.len(),
            split_char(x@, sep) == Seq::new(r@.len() as nat, |i: int| r@[i]@) + split_char(x@.skip(pos as int), sep),
        decreases x@.len() - pos,
    {
        let ghost rest = x@.skip(pos as int);
        let ghost old_r = r@;
        proof { lemma_find_char_shift(x@, sep, pos as int, 0); }
        match find_char_at(x, sep, pos) {
            None => {
                let piece = sub_chars(x, pos, x.len());
                r.push(piece);
                proof {
                    assert(piece@ =~= rest);
                    assert(split_char(rest, sep) == seq![rest]);
                    assert(Seq::new(r@.len() as nat, |i: int| r@[i]@) =~= Seq::new(old_r.len() as nat, |i: int| old_r[i]@).push(rest));
                    assert(split_char(x@, sep) =~= Seq::new(r@.len() as nat, |i: int| r@[i]@));
                }
                return r;
            },
            Some(k) => {
                let piece = sub_chars(x, pos, k);
                r.push(piece);
                proof {
                    let i = k - pos;
                    assert(rest.take(i as int) =~= piece@);
                    assert(rest.skip(i + 1) =~= x@.skip(k + 1));
                    assert(Seq::new(r@.len() as nat, |j: int| r@[j]@) =~= Seq::new(old_r.len() as nat, |j: int| old_r[j]@).push(piece@));
                }
                assert(k < x.len());
                pos = k + 1;
            },
        }
    }
}


/// The code of `c` with ASCII upper case letters lowered.
pub open spec fn ascii_lower_code(c: char) -> u32 {
    if 'A' <= c <= 'Z' {
        (c as u32 + 32) as u32
    } else {
        c as u32
    }
}

/// `str::eq_ignore_ascii_case`.
pub open spec fn eq_ignore_ascii_case(a: Seq<char>, b: Seq<char>) -> bool {
    &&& a.len() == b.len()
    &&& forall|i: int| 0 <= i < a.len() ==> ascii_lower_code(#[trigger] a[i]) == ascii_lower_code(b[i])
}

/// Whether `a` and `b` are equal up to ASCII case.
pub fn str_eq_ignore_ascii_case(a: &str, b: &str) -> (r: bool)
    ensures
        r == eq_ignore_ascii_case(a@, b@),
{
    let av = chars_of(a);
    let bv = chars_of(b);
    if av.len() != bv.len() {
        return false;
    }
    let mut i: usize = 0;
    while i < av.len()
        invariant
            av@ == a@,
            bv@ == b@,
            av@.len() == bv@.len(),
            i <= av@.len(),
            forall|k: int| 0 <= k < i ==> ascii_lower_code(#[trigger] a@[k]) == ascii_lower_code(b@[k]),
        decreases av@.len() - i,
    {
        let x = av[i];
        let y = bv[i];
        let lx: u32 = if 'A' <= x && x <= 'Z' { x as u32 + 32 } else { x as u32 };
        let ly: u32 = if 'A' <= y && y <= 'Z' { y as u32 + 32 } else { y as u32 };
        if lx != ly {
            return false;
        }
        i = i + 1;
    }
    true
}

/// Where `find_from` lands.
pub proof fn lemma_find_from_bounds(s: Seq<char>, p: Seq<char>, i: int)
    ensures
        find_from(s, p, i) matches Some(k) ==> i <= k && k + p.len() <= s.len() && 0 <= k
            && s.subrange(k, k + p.len()) == p,
    decreases s.len() - i,
{
    if !(i < 0 || i + p.len() > s.len()) && !(p.len() == 0 || occurs_at(s, p, i)) {
        lemma_find_from_bounds(s, p, i + 1);
    } else if !(i < 0 || i + p.len() > s.len()) && p.len() == 0 {
        assert(s.subrange(i, i) =~= p);
    }
}

} // verus!
