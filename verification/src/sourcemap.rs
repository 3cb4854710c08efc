//! Source map of a bundle: which module each bundle line belongs to.

use vstd::prelude::*;
use crate::ast::str_eq;
use crate::text::{chars_of, dec, dec_string, lines, lines_of, owned, parse_usize, parse_usize_range, push_char, views};
use crate::patterns::{interleave, lemma_interleave_start, lemma_interleave_step, regex_accepts, regex_captures, regex_pieces, regex_split, BUNDLE_LINE_PATTERN};

verus! {

/// Where a module of a bundle comes from.
#[derive(Debug, Clone)]
pub struct ModuleSourceInfo {
    /// Original path of the module.
    pub path: String,
    /// Bundle line at which the module's source starts.
    pub line_offset: usize,
    /// Original source of the module.
    pub source: String,
    /// Number of lines of the source.
    pub line_count: usize,
}

/// `a` comes strictly before `b` in the order of their characters' code
/// points (the order of `String`).
pub open spec fn str_lt(a: Seq<char>, b: Seq<char>) -> bool
    decreases a.len(),
{
    if a.len() == 0 {
        b.len() > 0
    } else if b.len() == 0 {
        false
    } else if a[0] != b[0] {
        (a[0] as int) < (b[0] as int)
    } else {
        str_lt(a.drop_first(), b.drop_first())
    }
}

/// Strict order of two strings, by characters.
pub fn str_less(a: &str, b: &str) -> (r: bool)
    ensures
        r == str_lt(a@, b@),
{
    let av = chars_of(a);
    let bv = chars_of(b);
    let mut i: usize = 0;
    proof {
        assert(a@.skip(0) =~= a@);
        assert(b@.skip(0) =~= b@);
    }
    loop
        invariant
            av@ == a@,
            bv@ == b@,
            i <= av@.len(),
            i <= bv@.len(),
            str_lt(a@, b@) == str_lt(a@.skip(i as int), b@.skip(i as int)),
        decreases av@.len() - i,
    {
        let ghost x = a@.skip(i as int);
        let ghost y = b@.skip(i as int);
        if i == av.len() {
            return i < bv.len();
        }
        if i == bv.len() {
            return false;
        }
        if av[i] != bv[i] {
            return av[i] < bv[i];
        }
        proof {
            assert(x.drop_first() =~= a@.skip(i + 1));
            assert(y.drop_first() =~= b@.skip(i + 1));
        }
        i = i + 1;
    }
}

/// The modules of a bundle, ordered by name.
#[derive(Debug, Clone)]
pub struct ModuleTable {
    entries: Vec<(String, ModuleSourceInfo)>,
}

impl ModuleTable {
    /// The module names in order.
    pub closed spec fn names(&self) -> Seq<Seq<char>> {
        self.entries@.map_values(|e: (String, ModuleSourceInfo)| e.0@)
    }

    /// The module records, in the order of their names.
    pub closed spec fn infos(&self) -> Seq<ModuleSourceInfo> {
        self.entries@.map_values(|e: (String, ModuleSourceInfo)| e.1)
    }

    /// Well-formedness: names strictly increasing.
    pub open spec fn wf(&self) -> bool {
        &&& self.names().len() == self.infos().len()
        &&& forall|i: int, j: int| 0 <= i < j < self.names().len() ==> str_lt(self.names()[i], self.names()[j])
    }

    /// Number of modules.
    pub fn len(&self) -> (n: usize)
        ensures
            n == self.names().len(),
    {
        self.entries.len()
    }

    /// Position of the module `name`.
    fn position(&self, name: &str) -> (r: Option<usize>)
        ensures
            match r {
                Some(i) => i < self.names().len() && self.names()[i as int] == name@,
                None => !self.names().contains(name@),
            },
    {
        let mut i: usize = 0;
        while i < self.entries.len()
            invariant
                i <= self.entries@.len(),
                self.names() == self.entries@.map_values(|e: (String, ModuleSourceInfo)| e.0@),
                forall|k: int| 0 <= k < i ==> self.names()[k] != name@,
            decreases self.entries@.len() - i,
        {
            if str_eq(self.entries[i].0.as_str(), name) {
                return Some(i);
            }
            i = i + 1;
        }
        None
    }

    /// Whether a module `name` is recorded.
    pub fn contains_key(&self, name: &str) -> (b: bool)
        ensures
            b == self.names().contains(name@),
    {
        self.position(name).is_some()
    }

    /// The record of module `name`.
    pub fn get(&self, name: &str) -> (r: Option<&ModuleSourceInfo>)
        requires
            self.wf(),
        ensures
            match r {
                Some(info) => self.get_spec(name@) == Some(*info),
                None => self.get_spec(name@) is None,
            },
    {
        match self.position(name) {
            Some(i) => {
                proof {
                    lemma_get_spec_at(*self, i as int);
                    assert(self.infos()[i as int] == self.entries@[i as int].1);
                }
                Some(&self.entries[i].1)
            },
            None => {
                proof {
                    lemma_get_spec_absent(*self, name@);
                }
                None
            },
        }
    }

    /// The entries in name order.
    pub fn entries(&self) -> (r: &Vec<(String, ModuleSourceInfo)>)
        ensures
            r@.map_values(|e: (String, ModuleSourceInfo)| e.0@) == self.names(),
            r@.map_values(|e: (String, ModuleSourceInfo)| e.1) == self.infos(),
    {
        &self.entries
    }
}

/// Source map of a bundle.
#[derive(Debug, Clone)]
pub struct BundleSourceMap {
    /// The modules, by name.
    pub modules: ModuleTable,
}

/// `after` is `before` with every line offset moved by `delta`, held at
/// zero from below; nothing else changes.
pub open spec fn offsets_adjusted(before: Seq<ModuleSourceInfo>, after: Seq<ModuleSourceInfo>, delta: int) -> bool {
    &&& after.len() == before.len()
    &&& forall|i: int| 0 <= i < after.len() ==> {
        let a = #[trigger] before[i];
        let b = after[i];
        &&& b.path == a.path && b.source == a.source && b.line_count == a.line_count
        &&& b.line_offset == (if delta >= 0 { a.line_offset + delta } else if a.line_offset >= -delta {
            a.line_offset + delta
        } else {
            0
        })
    }
}

/// Moving the offsets by `d` and then by `-d` gives the modules back, when
/// no offset falls below zero on the way.
pub proof fn lemma_adjust_round_trip(a: Seq<ModuleSourceInfo>, b: Seq<ModuleSourceInfo>, c: Seq<ModuleSourceInfo>, d: int)
    requires
        offsets_adjusted(a, b, d),
        offsets_adjusted(b, c, -d),
        forall|i: int| 0 <= i < a.len() ==> (#[trigger] a[i]).line_offset + d >= 0,
    ensures
        c == a,
{
    assert forall|i: int| 0 <= i < a.len() implies #[trigger] c[i] == a[i] by {
        let x = a[i];
        let y = b[i];
        let z = c[i];
        assert(y.line_offset == x.line_offset + d);
        assert(z.line_offset == y.line_offset - d);
    }
    assert(c =~= a);
}

/// The module that holds bundle line `line` among the first `n` entries: of
/// those whose lines `offset .. offset + count` hold it, the one starting
/// last (the first in name order among equals).
pub open spec fn best_module(infos: Seq<ModuleSourceInfo>, n: int, line: int) -> Option<int>
    decreases n,
{
    if n <= 0 {
        None
    } else {
        let prev = best_module(infos, n - 1, line);
        let info = infos[n - 1];
        if info.line_offset <= line && line < info.line_offset + info.line_count && (match prev {
            None => true,
            Some(p) => info.line_offset > infos[p].line_offset,
        }) {
            Some(n - 1)
        } else {
            prev
        }
    }
}

/// The numbered lines `from..=to` (line numbers below 1 left out) of `ls`.
pub open spec fn context_window(ls: Seq<Seq<char>>, from: int, to: int) -> Seq<(usize, Seq<char>)>
    decreases to - from + 1,
{
    if to < from {
        Seq::empty()
    } else if to < 1 {
        Seq::empty()
    } else {
        context_window(ls, from, to - 1).push((to as usize, ls[to - 1]))
    }
}

/// What a match of a bundle line number becomes: the module's path and the
/// line within the module, or the match itself when the number does not
/// parse, is the largest `usize`, or lies in no module.
pub open spec fn bundle_line_replacement(infos: Seq<ModuleSourceInfo>, c: (Seq<char>, Seq<char>)) -> Seq<char> {
    match parse_usize(c.1) {
        Some(n) => if n < usize::MAX {
            match best_module(infos, infos.len() as int, n as int) {
                Some(i) => infos[i].path@ + seq![':'] + dec((n - infos[i].line_offset + 1) as nat) + seq![':'],
                None => c.0,
            }
        } else {
            c.0
        },
        None => c.0,
    }
}

/// An error message with each `luat_bundle:<line>:` replaced by the module
/// path and the line within the module.
pub open spec fn translated_bundle_lines(infos: Seq<ModuleSourceInfo>, msg: Seq<char>) -> Seq<char> {
    interleave(
        regex_split(BUNDLE_LINE_PATTERN@, msg),
        regex_captures(BUNDLE_LINE_PATTERN@, msg).map_values(|c: (Seq<char>, Seq<char>)| bundle_line_replacement(infos, c)),
    )
}

impl BundleSourceMap {
    /// An empty source map.
    pub fn new() -> (r: Self)
        ensures
            r.modules.names().len() == 0,
            r.modules.wf(),
    {
        let r = BundleSourceMap { modules: ModuleTable { entries: Vec::new() } };
        assert(r.modules.names() =~= Seq::<Seq<char>>::empty());
        assert(r.modules.infos() =~= Seq::<ModuleSourceInfo>::empty());
        r
    }

    /// Records module `name`, from `path`, starting at bundle line
    /// `line_offset`, with source `source`; a module of the same name is
    /// replaced.
    pub fn add_module(&mut self, name: &str, path: &str, line_offset: usize, source: &str)
        requires
            old(self).modules.wf(),
        ensures
            final(self).modules.wf(),
            final(self).modules.get_spec(name@) matches Some(info) && info_matches(info, path@, line_offset, source@),
            forall|k: Seq<char>| k != name@ ==> final(self).modules.get_spec(k) == old(self).modules.get_spec(k),
            final(self).modules.names().contains(name@),
            forall|k: Seq<char>| k != name@ ==> (final(self).modules.names().contains(k) <==> old(self).modules.names().contains(k)),
    {
        let n = lines_of(&chars_of(source)).len();
        let info = ModuleSourceInfo { path: owned(path), line_offset, source: owned(source), line_count: n };
        let ghost old_names = self.modules.names();
        let ghost old_infos = self.modules.infos();
        let ghost old_entries = self.modules.entries@;
        match self.modules.position(name) {
            Some(i) => {
                let k = self.modules.entries[i].0.clone();
                self.modules.entries.set(i, (k, info));
                proof {
                    assert(self.modules.names() =~= old_names);
                    assert(self.modules.infos() =~= old_infos.update(i as int, info));
                    assert forall|a: int| 0 <= a < self.modules.names().len() && self.modules.names()[a] == name@ implies a == i by {
                        if a != i {
                            if a < i { assert(str_lt(old_names[a], old_names[i as int])); lemma_str_lt_irrefl(name@); }
                            else { assert(str_lt(old_names[i as int], old_names[a])); lemma_str_lt_irrefl(name@); }
                        }
                    }
                }
            },
            None => {
                let mut p: usize = 0;
                while p < self.modules.entries.len() && str_less(self.modules.entries[p].0.as_str(), name)
                    invariant
                        p <= self.modules.entries@.len(),
                        self.modules.entries@ == old_entries,
                        old_names == old_entries.map_values(|e: (String, ModuleSourceInfo)| e.0@),
                        forall|k: int| 0 <= k < p ==> str_lt(#[trigger] old_names[k], name@),
                    decreases self.modules.entries@.len() - p,
                {
                    proof {
                        assert(old_names[p as int] == old_entries[p as int].0@);
                    }
                    p = p + 1;
                }
                self.modules.entries.insert(p, (owned(name), info));
                proof {
                    assert(self.modules.names() =~= old_names.insert(p as int, name@));
                    assert(self.modules.infos() =~= old_infos.insert(p as int, info));
                    if p < old_names.len() {
                        assert(!str_lt(old_names[p as int], name@));
                        lemma_str_lt_total(old_names[p as int], name@);
                    }
                    assert forall|a: int, b: int| 0 <= a < b < self.modules.names().len() implies str_lt(
                        self.modules.names()[a],
                        self.modules.names()[b],
                    ) by {
                        let ns = self.modules.names();
                        if b < p {
                        } else if a < p && b == p {
                        } else if a < p && b > p {
                            assert(ns[b] == old_names[b - 1]);
                            if p < old_names.len() {
                                if b - 1 > p {
                                    assert(str_lt(old_names[p as int], old_names[b - 1]));
                                    lemma_str_lt_trans(name@, old_names[p as int], old_names[b - 1]);
                                }
                            }
                            lemma_str_lt_trans(ns[a], name@, ns[b]);
                        } else if a == p {
                            assert(ns[b] == old_names[b - 1]);
                            if b - 1 > p {
                                assert(str_lt(old_names[p as int], old_names[b - 1]));
                                lemma_str_lt_trans(name@, old_names[p as int], old_names[b - 1]);
                            }
                        } else {
                            assert(ns[a] == old_names[a - 1]);
                            assert(ns[b] == old_names[b - 1]);
                        }
                    }
                    assert forall|a: int| 0 <= a < self.modules.names().len() && self.modules.names()[a] == name@ implies a == p by {
                        if a < p { assert(old_names[a] == name@); lemma_str_lt_irrefl(name@); }
                        if a > p { assert(old_names[a - 1] == name@); }
                    }
                    assert forall|k: Seq<char>| k != name@ implies (self.modules.names().contains(k) <==> old_names.contains(k)) by {
                        if self.modules.names().contains(k) {
                            let a = choose|a: int| 0 <= a < self.modules.names().len() && self.modules.names()[a] == k;
                            if a < p { assert(old_names[a] == k); } else { assert(old_names[a - 1] == k); }
                        }
                        if old_names.contains(k) {
                            let a = choose|a: int| 0 <= a < old_names.len() && old_names[a] == k;
                            if a < p { assert(self.modules.names()[a] == k); } else { assert(self.modules.names()[a + 1] == k); }
                        }
                    }
                    assert forall|i: int| 0 <= i < self.modules.names().len() && self.modules.names()[i] != name@ implies
                        exists|j: int| 0 <= j < old_names.len() && old_names[j] == self.modules.names()[i]
                            && old_infos[j] == #[trigger] self.modules.infos()[i] by {
                        if i < p { assert(old_names[i] == self.modules.names()[i]); }
                        else { assert(old_names[i - 1] == self.modules.names()[i]); }
                    }
                    assert(self.modules.names()[p as int] == name@);
                }
            },
        }
        proof {
            let t = self.modules;
            let a = choose|a: int| 0 <= a < t.names().len() && t.names()[a] == name@;
            lemma_get_spec_at(t, a);
            assert forall|i: int| 0 <= i < t.names().len() && t.names()[i] == name@ implies i == a by {
                if i < a {
                    assert(str_lt(t.names()[i], t.names()[a]));
                    lemma_str_lt_irrefl(name@);
                } else if i > a {
                    assert(str_lt(t.names()[a], t.names()[i]));
                    lemma_str_lt_irrefl(name@);
                }
            }
            assert forall|k: Seq<char>| k != name@ implies t.get_spec(k) == old(self).modules.get_spec(k) by {
                if t.names().contains(k) {
                    let b = choose|b: int| 0 <= b < t.names().len() && t.names()[b] == k;
                    lemma_get_spec_at(t, b);
                    let j = choose|j: int| 0 <= j < old_names.len() && old_names[j] == t.names()[b]
                        && old_infos[j] == #[trigger] t.infos()[b];
                    lemma_get_spec_at(old(self).modules, j);
                } else {
                    lemma_get_spec_absent(t, k);
                    lemma_get_spec_absent(old(self).modules, k);
                }
            }
        }
    }

    /// The module holding bundle line `bundle_line`, with the line's number
    /// within that module's source.
    pub fn find_module_by_line(&self, bundle_line: usize) -> (r: Option<(&String, &ModuleSourceInfo, usize)>)
        requires
            bundle_line < usize::MAX,
        ensures
            match best_module(self.modules.infos(), self.modules.infos().len() as int, bundle_line as int) {
                None => r is None,
                Some(i) => r matches Some((name, info, rel)) && name@ == self.modules.names()[i]
                    && *info == self.modules.infos()[i] && rel == bundle_line - info.line_offset + 1,
            },
    {
        let entries = self.modules.entries();
        let mut best: Option<usize> = None;
        let mut i: usize = 0;
        while i < entries.len()
            invariant
                i <= entries@.len(),
                entries@.map_values(|e: (String, ModuleSourceInfo)| e.1) == self.modules.infos(),
                entries@.map_values(|e: (String, ModuleSourceInfo)| e.0@) == self.modules.names(),
                match best {
                    None => best_module(self.modules.infos(), i as int, bundle_line as int) is None,
                    Some(b) => best_module(self.modules.infos(), i as int, bundle_line as int) == Some(b as int) && b < i,
                },
            decreases entries@.len() - i,
        {
            let info = &entries[i].1;
            assert(self.modules.infos()[i as int] == *info);
            if info.line_offset <= bundle_line && bundle_line - info.line_offset < info.line_count {
                let better = match best {
                    None => true,
                    Some(b) => {
                        assert(self.modules.infos()[b as int] == entries@[b as int].1);
                        info.line_offset > entries[b].1.line_offset
                    },
                };
                if better {
                    best = Some(i);
                }
            }
            i = i + 1;
        }
        match best {
            None => None,
            Some(b) => {
                let info = &entries[b].1;
                assert(self.modules.infos()[b as int] == *info);
                assert(self.modules.names()[b as int] == entries@[b as int].0@);
                proof {
                    lemma_best_module_range(self.modules.infos(), self.modules.infos().len() as int, bundle_line as int);
                }
                Some((&entries[b].0, info, bundle_line - info.line_offset + 1))
            },
        }
    }

    /// The lines `line - context_lines ..= line + context_lines` of module
    /// `module_name` (clamped to its source), numbered from 1.
    pub fn get_source_context(&self, module_name: &str, line: usize, context_lines: usize) -> (r: Option<Vec<(usize, String)>>)
        requires
            self.modules.wf(),
            line + context_lines <= usize::MAX,
        ensures
            match self.modules.get_spec(module_name@) {
                None => r is None,
                Some(info) => r matches Some(v) && {
                    let ls = lines(info.source@);
                    let from = if line >= context_lines { line - context_lines } else { 0 };
                    let to = if line + context_lines <= ls.len() { line + context_lines } else { ls.len() as int };
                    let want = context_window(ls, from, to);
                    &&& v@.len() == want.len()
                    &&& forall|k: int| 0 <= k < v@.len() ==> (#[trigger] v@[k]).0 == want[k].0 && v@[k].1@ == want[k].1
                },
            },
    {
        match self.modules.get(module_name) {
            None => None,
            Some(info) => {
                let ls = lines_of(&chars_of(info.source.as_str()));
                let from = if line >= context_lines { line - context_lines } else { 0 };
                let to = if line + context_lines <= ls.len() { line + context_lines } else { ls.len() };
                let ghost want = context_window(views(ls@), from as int, to as int);
                let mut out: Vec<(usize, String)> = Vec::new();
                let start = if from >= 1 { from } else { 1 };
                if start <= to {
                    let mut l = start;
                    proof {
                        lemma_context_lines_empty(views(ls@), from as int, (l - 1) as int);
                    }
                    loop
                        invariant_except_break
                            out@.len() == context_window(views(ls@), from as int, l - 1).len(),
                            forall|k: int| 0 <= k < out@.len() ==> (#[trigger] out@[k]).0 == context_window(views(ls@), from as int, l - 1)[k].0
                                && out@[k].1@ == context_window(views(ls@), from as int, l - 1)[k].1,
                        invariant
                            1 <= start <= l <= to,
                            from <= start,
                            to <= ls@.len(),
                            want == context_window(views(ls@), from as int, to as int),
                        ensures
                            out@.len() == want.len(),
                            forall|k: int| 0 <= k < out@.len() ==> (#[trigger] out@[k]).0 == want[k].0 && out@[k].1@ == want[k].1,
                        decreases to - l,
                    {
                        out.push((l, ls[l - 1].clone()));
                        proof {
                            assert(views(ls@)[l - 1] == ls@[l - 1]@);
                        }
                        if l == to {
                            break;
                        }
                        l = l + 1;
                    }
                } else {
                    proof {
                        lemma_context_lines_empty(views(ls@), from as int, to as int);
                    }
                }
                Some(out)
            },
        }
    }

    /// Moves every module by `delta` lines (saturating at 0 downwards).
    /// What a match `whole` with bundle line `digits` becomes.
    fn bundle_line_replacement_of(&self, whole: &str, digits: &str) -> (r: String)
        ensures
            r@ == bundle_line_replacement(self.modules.infos(), (whole@, digits@)),
    {
        let dv = chars_of(digits);
        proof {
            assert(dv@.subrange(0, dv@.len() as int) =~= digits@);
        }
        match parse_usize_range(&dv, 0, dv.len()) {
            Some(n) => {
                if n == usize::MAX {
                    return owned(whole);
                }
                match self.find_module_by_line(n) {
                    Some((_, info, rel)) => {
                        let mut out = owned(info.path.as_str());
                        push_char(&mut out, ':');
                        let d = dec_string(rel);
                        out.append(d.as_str());
                        push_char(&mut out, ':');
                        proof {
                            assert(out@ =~= info.path@ + seq![':'] + dec(rel as nat) + seq![':']);
                        }
                        out
                    },
                    None => owned(whole),
                }
            },
            None => owned(whole),
        }
    }

    /// The error message with each `luat_bundle:<line>:` replaced by
    /// `<module path>:<line in module>:` where a module covers the line.
    pub fn translate_error(&self, error_msg: &str) -> (r: String)
        ensures
            r@ == translated_bundle_lines(self.modules.infos(), error_msg@),
            self.modules.infos().len() == 0 ==> r@ == error_msg@,
    {
        proof {
            assert(crate::patterns::known_pattern(BUNDLE_LINE_PATTERN@));
        }
        let (gaps, caps) = match regex_pieces(BUNDLE_LINE_PATTERN, error_msg) {
            Ok(v) => v,
            Err(_) => {
                return owned(error_msg);
            },
        };
        let ghost g = views(gaps@);
        let ghost infos = self.modules.infos();
        let ghost fills = regex_captures(BUNDLE_LINE_PATTERN@, error_msg@).map_values(|c: (Seq<char>, Seq<char>)| bundle_line_replacement(infos, c));
        let mut out = owned(gaps[0].as_str());
        proof {
            lemma_interleave_start(g, fills);
            assert(g[0] == gaps@[0]@);
        }
        let mut i: usize = 0;
        while i < caps.len()
            invariant
                i <= caps@.len(),
                gaps@.len() == caps@.len() + 1,
                g == views(gaps@),
                g == regex_split(BUNDLE_LINE_PATTERN@, error_msg@),
                infos == self.modules.infos(),
                crate::collections::pair_views(caps@) == regex_captures(BUNDLE_LINE_PATTERN@, error_msg@),
                fills == regex_captures(BUNDLE_LINE_PATTERN@, error_msg@).map_values(|c: (Seq<char>, Seq<char>)| bundle_line_replacement(infos, c)),
                out@ == interleave(g.take(i + 1), fills.take(i as int)),
            decreases caps@.len() - i,
        {
            let rep = self.bundle_line_replacement_of(caps[i].0.as_str(), caps[i].1.as_str());
            out.append(rep.as_str());
            out.append(gaps[i + 1].as_str());
            proof {
                assert(crate::collections::pair_views(caps@)[i as int] == (caps@[i as int].0@, caps@[i as int].1@));
                assert(fills[i as int] == rep@);
                assert(g[i + 1] == gaps@[i + 1]@);
                lemma_interleave_step(g, fills, i as int);
            }
            i = i + 1;
        }
        proof {
            assert(g.take(i + 1) =~= g);
            assert(fills.take(i as int) =~= fills);
            if self.modules.infos().len() == 0 {
                assert(fills =~= crate::patterns::whole_matches(regex_captures(BUNDLE_LINE_PATTERN@, error_msg@)));
            }
        }
        out
    }

    pub fn adjust_offsets(&mut self, delta: isize)
        requires
            delta > isize::MIN,
            forall|i: int| 0 <= i < old(self).modules.infos().len() ==> delta >= 0 ==> (#[trigger] old(self).modules.infos()[i]).line_offset + delta <= usize::MAX,
        ensures
            final(self).modules.names() == old(self).modules.names(),
            offsets_adjusted(old(self).modules.infos(), final(self).modules.infos(), delta as int),
    {
        let ghost old_entries = self.modules.entries@;
        proof {
            assert forall|k: int| 0 <= k < old_entries.len() implies old(self).modules.infos()[k] == (#[trigger] old_entries[k]).1 by {}
        }
        let mut i: usize = 0;
        while i < self.modules.entries.len()
            invariant
                i <= self.modules.entries@.len(),
                self.modules.entries@.len() == old_entries.len(),
                delta > isize::MIN,
                forall|k: int| 0 <= k < old_entries.len() ==> delta >= 0 ==> (#[trigger] old_entries[k]).1.line_offset + delta <= usize::MAX,
                forall|k: int| i <= k < old_entries.len() ==> #[trigger] self.modules.entries@[k] == old_entries[k],
                forall|k: int| 0 <= k < i ==> {
                    let a = #[trigger] old_entries[k];
                    let b = self.modules.entries@[k];
                    &&& b.0 == a.0
                    &&& b.1.path == a.1.path && b.1.source == a.1.source && b.1.line_count == a.1.line_count
                    &&& b.1.line_offset == (if delta >= 0 { a.1.line_offset + delta } else if a.1.line_offset >= -delta {
                        a.1.line_offset + delta
                    } else {
                        0
                    })
                },
            decreases self.modules.entries@.len() - i,
        {
            let (k, mut info) = self.modules.entries.remove(i);
            if delta >= 0 {
                info.line_offset = info.line_offset + (delta as usize);
            } else {
                let d = (-delta) as usize;
                info.line_offset = if info.line_offset >= d { info.line_offset - d } else { 0 };
            }
            self.modules.entries.insert(i, (k, info));
            i = i + 1;
        }
        proof {
            assert(self.modules.names() =~= old(self).modules.names());
        }
    }
}

impl ModuleTable {
    /// The record of module `name`, if any.
    pub open spec fn get_spec(&self, name: Seq<char>) -> Option<ModuleSourceInfo> {
        let k = find_name(self.names(), name, 0);
        if 0 <= k < self.names().len() {
            Some(self.infos()[k])
        } else {
            None
        }
    }
}

/// The first position at or after `i` of `n` in `names`, or -1.
pub open spec fn find_name(names: Seq<Seq<char>>, n: Seq<char>, i: int) -> int
    decreases names.len() - i,
{
    if i < 0 || i >= names.len() {
        -1
    } else if names[i] == n {
        i
    } else {
        find_name(names, n, i + 1)
    }
}

/// What `find_name` finds.
pub proof fn lemma_find_name(names: Seq<Seq<char>>, n: Seq<char>, i: int)
    requires
        0 <= i <= names.len(),
    ensures
        find_name(names, n, i) == -1 ==> forall|j: int| i <= j < names.len() ==> names[j] != n,
        find_name(names, n, i) != -1 ==> i <= find_name(names, n, i) < names.len() && names[find_name(names, n, i)] == n,
    decreases names.len() - i,
{
    if i < names.len() && names[i] != n {
        lemma_find_name(names, n, i + 1);
    }
}

/// A module record matches a path, a start line and a source.
pub open spec fn info_matches(info: ModuleSourceInfo, path: Seq<char>, line_offset: usize, source: Seq<char>) -> bool {
    &&& info.path@ == path
    &&& info.line_offset == line_offset
    &&& info.source@ == source
    &&& info.line_count == lines(source).len()
}

/// In a well-formed table, the record of the module at position `i` is
/// the one found by its name.
pub proof fn lemma_get_spec_at(t: ModuleTable, i: int)
    requires
        t.wf(),
        0 <= i < t.names().len(),
    ensures
        t.get_spec(t.names()[i]) == Some(t.infos()[i]),
{
    let n = t.names()[i];
    lemma_find_name(t.names(), n, 0);
    let j = find_name(t.names(), n, 0);
    if j == -1 {
        assert(t.names()[i] != n);
    }
    if j < i {
        assert(str_lt(t.names()[j], t.names()[i]));
        lemma_str_lt_irrefl(n);
    } else if j > i {
        assert(str_lt(t.names()[i], t.names()[j]));
        lemma_str_lt_irrefl(n);
    }
}

/// A name that is not recorded has no record.
pub proof fn lemma_get_spec_absent(t: ModuleTable, n: Seq<char>)
    requires
        !t.names().contains(n),
    ensures
        t.get_spec(n) is None,
{
    lemma_find_name(t.names(), n, 0);
    let j = find_name(t.names(), n, 0);
    if j != -1 {
        assert(t.names()[j] == n);
    }
}

/// The module that `best_module` picks holds the line.
pub proof fn lemma_best_module_range(infos: Seq<ModuleSourceInfo>, n: int, line: int)
    ensures
        best_module(infos, n, line) matches Some(p) ==> 0 <= p < n && infos[p].line_offset <= line
            < infos[p].line_offset + infos[p].line_count,
    decreases n,
{
    if n > 0 {
        lemma_best_module_range(infos, n - 1, line);
    }
}

/// No line numbered below 1 or above a bound below 1.
pub proof fn lemma_context_lines_empty(ls: Seq<Seq<char>>, from: int, to: int)
    requires
        to <= 0 || to < from,
    ensures
        context_window(ls, from, to) == Seq::<(usize, Seq<char>)>::empty(),
{
}

/// No string comes before itself.
pub proof fn lemma_str_lt_irrefl(a: Seq<char>)
    ensures
        !str_lt(a, a),
    decreases a.len(),
{
    if a.len() > 0 {
        lemma_str_lt_irrefl(a.drop_first());
    }
}

/// The string order is transitive.
pub proof fn lemma_str_lt_trans(a: Seq<char>, b: Seq<char>, c: Seq<char>)
    requires
        str_lt(a, b),
        str_lt(b, c),
    ensures
        str_lt(a, c),
    decreases a.len(),
{
    if a.len() > 0 && b.len() > 0 && c.len() > 0 && a[0] == b[0] && b[0] == c[0] {
        lemma_str_lt_trans(a.drop_first(), b.drop_first(), c.drop_first());
    }
}

/// The string order is total.
pub proof fn lemma_str_lt_total(a: Seq<char>, b: Seq<char>)
    ensures
        a == b || str_lt(a, b) || str_lt(b, a),
    decreases a.len(),
{
    if a.len() > 0 && b.len() > 0 && a[0] == b[0] {
        lemma_str_lt_total(a.drop_first(), b.drop_first());
        if a.drop_first() == b.drop_first() {
            assert(a =~= seq![a[0]] + a.drop_first());
            assert(b =~= seq![b[0]] + b.drop_first());
        }
    } else if a.len() == 0 && b.len() == 0 {
        assert(a =~= b);
    } else if a.len() > 0 && b.len() > 0 {
        assert((a[0] as int) != (b[0] as int));
    }
}

} // verus!
