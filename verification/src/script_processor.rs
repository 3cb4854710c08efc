//! Rewriting of the magic functions `$state(...)`, `$derived(...)` and the
//! like in script blocks.
//!
//! The first magic call is replaced by a comment line announcing the
//! function and the value it currently stands for, the assignment it stands
//! in kept, and the text after it kept as it is.

use vstd::prelude::*;
use crate::text::{
    chars_of, find_char_at, find_char_from, owned, push_chars, rfind_char_at, rfind_char_before,
    split_char, split_vec, string_of, sub_chars, trim, trim_end, trim_end_vec, trim_start,
    trim_start_vec, trim_vec,
};

verus! {

/// Index just past the `)` that closes the group opened before `i`, at
/// nesting `depth`.
pub open spec fn paren_close(s: Seq<char>, i: int, depth: int) -> Option<int>
    decreases s.len() - i,
{
    if i < 0 || i >= s.len() {
        None
    } else if s[i] == '(' {
        paren_close(s, i + 1, depth + 1)
    } else if s[i] == ')' {
        if depth - 1 == 0 {
            Some(i + 1)
        } else {
            paren_close(s, i + 1, depth - 1)
        }
    } else {
        paren_close(s, i + 1, depth)
    }
}

/// The announcement of a magic function `$name`.
pub open spec fn magic_line(name: Seq<char>) -> Seq<char> {
    "-- LUAT magic function $"@ + name + " will be implemented in future"@
}

/// The value a magic call stands for, from its name, its whole argument text
/// and its comma-separated, trimmed arguments.
pub open spec fn magic_value(name: Seq<char>, content: Seq<char>, args: Seq<Seq<char>>) -> Seq<char> {
    if name == "derived"@ {
        content
    } else if name == "state"@ {
        if args.len() == 1 && args[0].len() == 0 {
            "nil"@
        } else if args.len() == 1 {
            args[0]
        } else if args.len() >= 2 {
            args[0] + " or "@ + args[1]
        } else {
            "nil"@
        }
    } else {
        if args.len() == 1 && args[0].len() == 0 {
            "nil"@
        } else if args.len() >= 1 {
            args[0]
        } else {
            "nil"@
        }
    }
}

/// The trimmed comma-separated pieces of `s`.
pub open spec fn trimmed_args(s: Seq<char>) -> Seq<Seq<char>> {
    split_char(s, ',').map_values(|p: Seq<char>| trim(p))
}

/// The parts of one rewriting step on `rem`, which holds a `$`.
pub struct StepParts {
    /// Start of the line holding the first `$`.
    pub line_start: int,
    /// Index of the last `=` before the `$` in that line (0 without one).
    pub assign: int,
    /// The kept left-hand side of the assignment.
    pub lhs: Seq<char>,
    /// The text from the magic call on.
    pub rhs: Seq<char>,
    /// Index of the `$` in `rhs`.
    pub dollar: int,
    /// End of the function name in `rhs`.
    pub name_end: int,
}

/// The parts of the step on `rem`.
pub open spec fn step_parts(rem: Seq<char>) -> StepParts {
    let d = match find_char_from(rem, '$', 0) { Some(k) => k, None => 0 };
    let line_start = match rfind_char_before(rem, '\n', d) { Some(k) => k + 1, None => 0 };
    let ab = rem.skip(line_start);
    let assign = match rfind_char_before(ab, '=', d - line_start) { Some(k) => k, None => 0 };
    let lhs = if assign > 0 { trim_end(ab.take(assign + 1)) } else { Seq::empty() };
    let rhs = if assign > 0 { trim_start(ab.skip(assign + 1)) } else { ab };
    let dollar = match find_char_from(rhs, '$', 0) { Some(k) => k, None => 0 };
    let name_end = match find_char_from(rhs, '(', dollar + 1) { Some(k) => k, None => rhs.len() as int };
    StepParts { line_start, assign, lhs, rhs, dollar, name_end }
}

/// The rewriting of `rem`, which holds a `$`: the text before the line of
/// the first magic call, a comment line announcing the function, then the
/// kept left-hand side of the assignment (if there is one) and the call's
/// value, then everything after the call as it is, save a `)` right after
/// it; `None` where the call's parenthesis never closes.
pub open spec fn magic_step(rem: Seq<char>) -> Option<Seq<char>> {
    let p = step_parts(rem);
    if p.dollar >= p.rhs.len() {
        None
    } else {
        match paren_close(p.rhs, p.name_end, 0) {
            None => None,
            Some(args_end) => {
                let name = p.rhs.subrange(p.dollar + 1, p.name_end);
                let args_str = p.rhs.subrange(p.name_end, args_end);
                let am0 = p.rhs.skip(args_end);
                let am = if am0.len() > 0 && am0[0] == ')' { am0.drop_first() } else { am0 };
                let content = args_str.subrange(1, args_str.len() - 1);
                let value = magic_value(name, content, trimmed_args(content));
                let tail = if p.lhs.len() > 0 { p.lhs + " "@ + value + am } else { value + am };
                Some(rem.take(p.line_start) + magic_line(name) + "\n"@ + tail)
            },
        }
    }
}

/// `content` can be rewritten: it holds no `$`, or the first magic call's
/// parenthesis closes.
pub open spec fn processable(rem: Seq<char>) -> bool {
    find_char_from(rem, '$', 0) is None || magic_step(rem) is Some
}

/// The rewritten script.
pub open spec fn processed(rem: Seq<char>) -> Seq<char> {
    match find_char_from(rem, '$', 0) {
        None => rem,
        Some(_) => match magic_step(rem) {
            None => rem,
            Some(piece) => piece,
        },
    }
}

/// Bounds of a closing index.
pub proof fn lemma_paren_close_bounds(s: Seq<char>, i: int, depth: int)
    ensures
        paren_close(s, i, depth) matches Some(k) ==> i < k <= s.len() && (depth <= 0 ==> k >= i + 2),
    decreases s.len() - i,
{
    if 0 <= i < s.len() {
        if s[i] == '(' {
            lemma_paren_close_bounds(s, i + 1, depth + 1);
        } else if s[i] == ')' {
            if depth - 1 != 0 {
                lemma_paren_close_bounds(s, i + 1, depth - 1);
            }
        } else {
            lemma_paren_close_bounds(s, i + 1, depth);
        }
    }
}

/// Index past the parenthesis group starting at `i` in `s`.
fn paren_close_at(s: &Vec<char>, i: usize) -> (r: Option<usize>)
    requires
        i <= s@.len(),
        s@.len() < usize::MAX / 4,
    ensures
        match r {
            Some(k) => paren_close(s@, i as int, 0) == Some(k as int) && i + 2 <= k <= s@.len(),
            None => paren_close(s@, i as int, 0) is None,
        },
{
    let mut k = i;
    let mut depth: i64 = 0;
    let ghost start = i as int;
    proof { lemma_paren_close_bounds(s@, i as int, 0); }
    while k < s.len()
        invariant
            i <= k <= s@.len(),
            s@.len() < usize::MAX / 4,
            paren_close(s@, i as int, 0) matches Some(kk) ==> kk >= i + 2,
            -(s@.len() as int) <= depth <= s@.len(),
            depth <= k - i,
            -(k - i) <= depth,
            paren_close(s@, i as int, 0) == paren_close(s@, k as int, depth as int),
        decreases s@.len() - k,
    {
        let c = s[k];
        if c == '(' {
            depth = depth + 1;
        } else if c == ')' {
            if depth - 1 == 0 {
                return Some(k + 1);
            }
            depth = depth - 1;
        }
        k = k + 1;
    }
    None
}

/// The parts of the step on `rem`, computed.
fn parts(rem: &Vec<char>) -> (r: (usize, usize, Vec<char>, Vec<char>, usize, usize))
    requires
        find_char_from(rem@, '$', 0) is Some,
        rem@.len() < usize::MAX / 4,
    ensures
        r.0 as int == step_parts(rem@).line_start,
        r.1 as int == step_parts(rem@).assign,
        r.2@ == step_parts(rem@).lhs,
        r.3@ == step_parts(rem@).rhs,
        r.4 as int == step_parts(rem@).dollar,
        r.5 as int == step_parts(rem@).name_end,
        r.0 <= rem@.len(),
        r.1 <= rem@.len(),
        r.3@.len() <= rem@.len(),
        r.4 <= r.3@.len(),
        r.5 <= r.3@.len(),
        r.4 < r.3@.len() ==> r.4 + 1 <= r.5,
{
    let ghost p = step_parts(rem@);
    let d = match find_char_at(rem, '$', 0) { Some(k) => k, None => 0 };
    let line_start = match rfind_char_at(rem, '\n', d) { Some(k) => k + 1, None => 0 };
    let ab = sub_chars(rem, line_start, rem.len());
    assert(ab@ =~= rem@.skip(line_start as int));
    let assign = match rfind_char_at(&ab, '=', d - line_start) { Some(k) => k, None => 0 };
    let (lhs, rhs) = if assign > 0 {
        let left = sub_chars(&ab, 0, assign + 1);
        assert(left@ =~= ab@.take(assign + 1));
        let right = sub_chars(&ab, assign + 1, ab.len());
        assert(right@ =~= ab@.skip(assign + 1));
        proof { crate::text::lemma_skip_ws_bounds(right@, 0); }
        (trim_end_vec(&left), trim_start_vec(&right))
    } else {
        (Vec::new(), sub_chars(&ab, 0, ab.len()))
    };
    assert(rhs@ =~= p.rhs);
    assert(lhs@ =~= p.lhs);
    let dollar = match find_char_at(&rhs, '$', 0) { Some(k) => k, None => 0 };
    let name_end = if dollar + 1 <= rhs.len() {
        match find_char_at(&rhs, '(', dollar + 1) { Some(k) => k, None => rhs.len() }
    } else {
        rhs.len()
    };
    (line_start, assign, lhs, rhs, dollar, name_end)
}

/// The trimmed comma-separated arguments of `content`.
fn args_of(content: &Vec<char>) -> (args: Vec<Vec<char>>)
    ensures
        args@.len() == trimmed_args(content@).len(),
        forall|j: int| 0 <= j < args@.len() ==> (#[trigger] args@[j])@ == trimmed_args(content@)[j],
{
    let pieces = split_vec(content, ',');
    let mut args: Vec<Vec<char>> = Vec::new();
    let mut i: usize = 0;
    while i < pieces.len()
        invariant
            i <= pieces@.len(),
            pieces@.len() == split_char(content@, ',').len(),
            forall|j: int| 0 <= j < pieces@.len() ==> (#[trigger] pieces@[j])@ == split_char(content@, ',')[j],
            args@.len() == i,
            forall|j: int| 0 <= j < i ==> (#[trigger] args@[j])@ == trimmed_args(content@)[j],
        decreases pieces@.len() - i,
    {
        args.push(trim_vec(&pieces[i]));
        i = i + 1;
    }
    args
}

/// The value a magic call stands for.
fn value_of(name: &Vec<char>, content: &Vec<char>, args: &Vec<Vec<char>>) -> (value: String)
    requires
        args@.len() == trimmed_args(content@).len(),
        forall|j: int| 0 <= j < args@.len() ==> (#[trigger] args@[j])@ == trimmed_args(content@)[j],
    ensures
        value@ == magic_value(name@, content@, trimmed_args(content@)),
{
    let ghost targs = trimmed_args(content@);
    let is_derived = eq_chars(name, "derived");
    let is_state = eq_chars(name, "state");
    let mut value: String = String::new();
    if is_derived {
        value = string_of(content);
    } else if is_state {
        if args.len() == 1 && args[0].len() == 0 {
            value.append("nil");
        } else if args.len() == 1 {
            push_chars(&mut value, &args[0]);
        } else if args.len() >= 2 {
            push_chars(&mut value, &args[0]);
            value.append(" or ");
            push_chars(&mut value, &args[1]);
        } else {
            value.append("nil");
        }
    } else {
        if args.len() == 1 && args[0].len() == 0 {
            value.append("nil");
        } else if args.len() >= 1 {
            push_chars(&mut value, &args[0]);
        } else {
            value.append("nil");
        }
    }
    assert(value@ =~= magic_value(name@, content@, targs));
    value
}

/// The rewriting of `rem`, which holds a `$`.
#[verifier::rlimit(50)]
fn step(rem: &Vec<char>) -> (r: Option<String>)
    requires
        find_char_from(rem@, '$', 0) is Some,
        rem@.len() < usize::MAX / 4,
    ensures
        match r {
            Some(piece) => magic_step(rem@) == Some(piece@),
            None => magic_step(rem@) is None,
        },
{
    let (line_start, assign, lhs, rhs, dollar, name_end) = parts(rem);
    if dollar >= rhs.len() {
        return None;
    }
    let args_end = match paren_close_at(&rhs, name_end) {
        Some(k) => k,
        None => { return None; },
    };
    let name = sub_chars(&rhs, dollar + 1, name_end);
    let args_str = sub_chars(&rhs, name_end, args_end);
    let am0 = sub_chars(&rhs, args_end, rhs.len());
    assert(am0@ =~= rhs@.skip(args_end as int));
    let stripped = am0.len() > 0 && am0[0] == ')';
    let am = if stripped { sub_chars(&am0, 1, am0.len()) } else { am0 };
    proof {
        if stripped { assert(am@ =~= am0@.drop_first()); }
    }
    let content = sub_chars(&args_str, 1, args_str.len() - 1);
    let args = args_of(&content);
    let value = value_of(&name, &content, &args);
    let mut piece = String::new();
    push_chars(&mut piece, &sub_chars(rem, 0, line_start));
    piece.append("-- LUAT magic function $");
    push_chars(&mut piece, &name);
    piece.append(" will be implemented in future");
    piece.append("\n");
    if lhs.len() > 0 {
        push_chars(&mut piece, &lhs);
        piece.append(" ");
        piece.append(value.as_str());
        push_chars(&mut piece, &am);
    } else {
        piece.append(value.as_str());
        push_chars(&mut piece, &am);
    }
    assert(rem@.subrange(0, line_start as int) =~= rem@.take(line_start as int));
    Some(piece)
}

/// Whether `name` spells `lit`.
fn eq_chars(name: &Vec<char>, lit: &str) -> (b: bool)
    ensures
        b == (name@ == lit@),
{
    let l = chars_of(lit);
    if l.len() != name.len() {
        return false;
    }
    let mut i: usize = 0;
    while i < l.len()
        invariant
            l@ == lit@,
            l@.len() == name@.len(),
            i <= l@.len(),
            forall|k: int| 0 <= k < i ==> l@[k] == name@[k],
        decreases l@.len() - i,
    {
        if l[i] != name[i] {
            return false;
        }
        i = i + 1;
    }
    assert(l@ =~= name@);
    true
}

/// Whether [`process_script_content`] can rewrite `content`.
pub fn is_processable(content: &str) -> (b: bool)
    requires
        content@.len() < usize::MAX / 4,
    ensures
        b == processable(content@),
{
    let rem = chars_of(content);
    if find_char_at(&rem, '$', 0).is_none() {
        return true;
    }
    step(&rem).is_some()
}

/// Rewrites the first magic function of a script. The line that holds
/// `$name(args)` is preceded by a comment line announcing the function; in
/// an assignment `lhs = $name(args)` the line becomes `lhs value`, and
/// without one the line up to the call becomes `value`. The value is the
/// whole argument text for `$derived`, `a or b` for `$state(a, b)`, the
/// first argument otherwise, or `nil` without arguments. The text after the
/// call is kept once, as it is, save a `)` right after the call.
pub fn process_script_content(content: &str) -> (r: String)
    requires
        content@.len() < usize::MAX / 4,
        processable(content@),
    ensures
        r@ == processed(content@),
{
    let rem = chars_of(content);
    if find_char_at(&rem, '$', 0).is_none() {
        return string_of(&rem);
    }
    match step(&rem) {
        Some(piece) => piece,
        None => string_of(&rem),
    }
}

} // verus!
