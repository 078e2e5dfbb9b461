//! Substitution sets: `old path -> new path` pairs applied as one unit.
//!
//! Where several pairs match, the longest old path wins, and what was put in
//! is never looked at again.

use vstd::prelude::*;
use vstd::string::*;

use crate::fs::apart;
use crate::path::components;
use crate::path::lemma_components_concat;
use crate::path::tail_components;
use crate::path::under;
use crate::path::FilePath;
use crate::text::alphanumeric;
use crate::text::chars_of;
use crate::text::is_letter_or_digit;
use crate::text::string_of;

verus! {

/// The pairs of a substitution set, in the order they were given.
pub type Pairs = Seq<(Seq<char>, Seq<char>)>;

/// Whether a match that ends at `j` ends a path segment there: at the end of
/// the text, before a `/`, or before a character that no segment continues
/// with.
pub open spec fn boundary(s: Seq<char>, j: int) -> bool {
    j >= s.len() || s[j] == '/' || !(alphanumeric(s[j]) || s[j] == '_' || s[j] == '-' || s[j]
        == '.')
}

/// Whether the text `s` holds `w` at `i`.
pub open spec fn text_at(s: Seq<char>, i: int, w: Seq<char>) -> bool {
    0 <= i && i + w.len() <= s.len() && s.subrange(i, i + w.len()) == w
}

/// Whether `old` matches in the middle of the text `s`, at `i`.
pub open spec fn hits_text(s: Seq<char>, i: int, old: Seq<char>) -> bool {
    old.len() > 0 && text_at(s, i, old) && boundary(s, i + old.len())
}

/// Whether `old` is the whole path `p` or a path above it.
pub open spec fn hits_path(p: Seq<char>, old: Seq<char>) -> bool {
    p == old || (old.len() < p.len() && p[old.len() as int] == '/' && text_at(p, 0, old))
}

/// Entry `e` is the longest that `hit` accepts, the first given among equals.
pub open spec fn picks(set: Pairs, hit: spec_fn(Seq<char>) -> bool, e: int) -> bool {
    &&& 0 <= e < set.len()
    &&& hit(set[e].0)
    &&& forall|f: int|
        0 <= f < set.len() && hit(#[trigger] set[f].0) ==> set[f].0.len() < set[e].0.len() || (
        set[f].0.len() == set[e].0.len() && e <= f)
}

/// The entry that `hit` picks out of the set, if it accepts any.
pub open spec fn pick(set: Pairs, hit: spec_fn(Seq<char>) -> bool) -> Option<int> {
    if exists|e: int| picks(set, hit, e) {
        Some(choose|e: int| picks(set, hit, e))
    } else {
        None
    }
}

/// The entry that matches the text `s` at `i`.
pub open spec fn match_text(set: Pairs, s: Seq<char>, i: int) -> Option<int> {
    pick(set, |old: Seq<char>| hits_text(s, i, old))
}

/// The entry that matches the whole path `p`.
pub open spec fn match_path(set: Pairs, p: Seq<char>) -> Option<int> {
    pick(set, |old: Seq<char>| hits_path(p, old))
}

/// The path `p` moved along with the entry that matches it.
pub open spec fn rebased(set: Pairs, p: Seq<char>) -> Option<Seq<char>> {
    match match_path(set, p) {
        Some(e) => Some(set[e].1 + p.skip(set[e].0.len() as int)),
        None => None,
    }
}

/// The matches in `s` from `i` on, left to right, each with the place where it
/// starts and the entry that matched. The text of a match is not searched
/// again.
pub open spec fn matches_from(set: Pairs, s: Seq<char>, i: int) -> Seq<(int, int)>
    decreases s.len() - i,
{
    if i < 0 || i >= s.len() {
        Seq::empty()
    } else {
        match match_text(set, s, i) {
            Some(e) if set[e].0.len() > 0 => {
                seq![(i, e)] + matches_from(set, s, i + set[e].0.len())
            },
            _ => matches_from(set, s, i + 1),
        }
    }
}

/// The matches in `s`.
pub open spec fn matches_in(set: Pairs, s: Seq<char>) -> Seq<(int, int)> {
    matches_from(set, s, 0)
}

/// The text `s` from `i` on, with each match replaced by its entry's new path.
pub open spec fn replaced_from(set: Pairs, s: Seq<char>, i: int) -> Seq<char>
    decreases s.len() - i,
{
    if i < 0 || i >= s.len() {
        Seq::empty()
    } else {
        match match_text(set, s, i) {
            Some(e) if set[e].0.len() > 0 => {
                set[e].1 + replaced_from(set, s, i + set[e].0.len())
            },
            _ => seq![s[i]] + replaced_from(set, s, i + 1),
        }
    }
}

/// The text `s` with every match replaced.
pub open spec fn replaced(set: Pairs, s: Seq<char>) -> Seq<char> {
    replaced_from(set, s, 0)
}

proof fn lemma_picks_unique(set: Pairs, hit: spec_fn(Seq<char>) -> bool, e: int)
    requires
        picks(set, hit, e),
    ensures
        pick(set, hit) == Some(e),
{
    let f = choose|f: int| picks(set, hit, f);
    assert(picks(set, hit, f));
    assert(hit(set[e].0) && hit(set[f].0));
}

/// A set of `old path -> new path` substitutions.
pub struct Substitutions {
    entries: Vec<(Vec<char>, String)>,
}

impl View for Substitutions {
    type V = Pairs;

    closed spec fn view(&self) -> Pairs {
        self.entries@.map_values(|e: (Vec<char>, String)| (e.0@, e.1@))
    }
}

/// The texts of some pairs.
pub open spec fn pairs_of(entries: Seq<(String, String)>) -> Pairs {
    entries.map_values(|e: (String, String)| (e.0@, e.1@))
}

/// Whether `text` holds `w` at `at`.
pub fn holds_at(text: &Vec<char>, at: usize, w: &Vec<char>) -> (r: bool)
    requires
        at <= text@.len(),
    ensures
        r == text_at(text@, at as int, w@),
{
    let n: usize = text.len();
    if w.len() > n - at {
        return false;
    }
    let mut i: usize = 0;
    while i < w.len()
        invariant
            n == text@.len(),
            at + w@.len() <= n,
            i <= w@.len(),
            forall|x: int| 0 <= x < i ==> text@[at + x] == w@[x],
        decreases w@.len() - i,
    {
        if text[at + i] != w[i] {
            assert(text@.subrange(at as int, at + w@.len())[i as int] != w@[i as int]);
            return false;
        }
        i = i + 1;
    }
    assert(text@.subrange(at as int, at + w@.len()) =~= w@);
    true
}

/// Whether a match that ends at `j` ends a path segment there.
pub fn is_segment_boundary(text: &Vec<char>, j: usize) -> (r: bool)
    ensures
        r == boundary(text@, j as int),
{
    if j >= text.len() {
        return true;
    }
    let c: char = text[j];
    c == '/' || !(is_letter_or_digit(c) || c == '_' || c == '-' || c == '.')
}

impl Substitutions {
    pub fn new(entries: Vec<(String, String)>) -> (r: Self)
        ensures
            r@ == pairs_of(entries@),
    {
        let mut held: Vec<(Vec<char>, String)> = Vec::new();
        let mut i: usize = 0;
        while i < entries.len()
            invariant
                i <= entries@.len(),
                held@.len() == i,
                forall|x: int|
                    0 <= x < i ==> (#[trigger] held@[x]).0@ == entries@[x].0@ && held@[x].1@
                        == entries@[x].1@,
            decreases entries@.len() - i,
        {
            held.push((chars_of(entries[i].0.as_str()), entries[i].1.clone()));
            i = i + 1;
        }
        let r = Substitutions { entries: held };
        assert(r@ =~= pairs_of(entries@));
        r
    }

    pub fn is_empty(&self) -> (r: bool)
        ensures
            r == (self@.len() == 0),
    {
        self.entries.len() == 0
    }

    /// The old path of an entry.
    pub fn old_text(&self, e: usize) -> (r: String)
        requires
            e < self@.len(),
        ensures
            r@ == self@[e as int].0,
    {
        let old = &self.entries[e].0;
        let r = string_of(old, 0, old.len());
        assert(old@.subrange(0, old@.len() as int) =~= old@);
        r
    }

    /// The new path of an entry.
    pub fn new_text(&self, e: usize) -> (r: String)
        requires
            e < self@.len(),
        ensures
            r@ == self@[e as int].1,
    {
        self.entries[e].1.clone()
    }

    /// The longest entry that matches `text` at `at` on a segment boundary.
    pub fn match_at(&self, text: &Vec<char>, at: usize) -> (r: Option<usize>)
        requires
            at <= text@.len(),
        ensures
            match r {
                Some(e) => match_text(self@, text@, at as int) == Some(e as int) && e < self@.len(),
                None => match_text(self@, text@, at as int) is None,
            },
    {
        let ghost hit = |old: Seq<char>| hits_text(text@, at as int, old);
        let n: usize = text.len();
        let mut best: Option<usize> = None;
        let mut i: usize = 0;
        while i < self.entries.len()
            invariant
                n == text@.len(),
                at <= n,
                hit == (|old: Seq<char>| hits_text(text@, at as int, old)),
                self@.len() == self.entries@.len(),
                i <= self@.len(),
                match best {
                    Some(e) => e < i && picks(self@.take(i as int), hit, e as int),
                    None => forall|f: int| 0 <= f < i ==> !hit(#[trigger] self@[f].0),
                },
            decreases self@.len() - i,
        {
            let old = &self.entries[i].0;
            assert(self@[i as int].0 == old@);
            let ghost before = self@.take(i as int);
            let ghost now = self@.take(i + 1);
            let found = old.len() > 0 && holds_at(text, at, old) && is_segment_boundary(
                text,
                at + old.len(),
            );
            assert(found == hit(old@));
            let longer = match best {
                Some(e) => old.len() > self.entries[e].0.len(),
                None => true,
            };
            if found && longer {
                best = Some(i);
            }
            i = i + 1;
            proof {
                assert forall|f: int| 0 <= f < i - 1 implies #[trigger] now[f] == before[f] by {}
                match best {
                    Some(e) => {
                        assert forall|f: int| 0 <= f < now.len() && hit(#[trigger] now[f].0) implies (
                        now[f].0.len() < now[e as int].0.len() || (now[f].0.len()
                            == now[e as int].0.len() && e <= f)) by {
                            if f < i - 1 {
                                assert(now[f] == before[f]);
                                assert(now[f] == self@[f]);
                            }
                        }
                        assert(picks(now, hit, e as int));
                    },
                    None => {},
                }
            }
        }
        proof {
            assert(self@.take(i as int) =~= self@);
            match best {
                Some(e) => {
                    lemma_picks_unique(self@, hit, e as int);
                },
                None => {},
            }
        }
        best
    }

    /// The longest entry that is `path` itself or a path above it.
    pub fn match_prefix(&self, path: &Vec<char>) -> (r: Option<usize>)
        ensures
            match r {
                Some(e) => match_path(self@, path@) == Some(e as int) && e < self@.len() && hits_path(
                    path@,
                    self@[e as int].0,
                ),
                None => match_path(self@, path@) is None,
            },
    {
        let ghost hit = |old: Seq<char>| hits_path(path@, old);
        let mut best: Option<usize> = None;
        let mut i: usize = 0;
        while i < self.entries.len()
            invariant
                hit == (|old: Seq<char>| hits_path(path@, old)),
                self@.len() == self.entries@.len(),
                i <= self@.len(),
                match best {
                    Some(e) => e < i && picks(self@.take(i as int), hit, e as int),
                    None => forall|f: int| 0 <= f < i ==> !hit(#[trigger] self@[f].0),
                },
            decreases self@.len() - i,
        {
            let old = &self.entries[i].0;
            assert(self@[i as int].0 == old@);
            let ghost before = self@.take(i as int);
            let ghost now = self@.take(i + 1);
            let found = holds_at(path, 0, old) && (path.len() == old.len() || (path.len() > old.len()
                && path[old.len()] == '/'));
            proof {
                assert(path@.subrange(0, path@.len() as int) =~= path@);
                assert(found == hit(old@));
            }
            let longer = match best {
                Some(e) => old.len() > self.entries[e].0.len(),
                None => true,
            };
            if found && longer {
                best = Some(i);
            }
            i = i + 1;
            proof {
                assert forall|f: int| 0 <= f < i - 1 implies #[trigger] now[f] == before[f] by {}
                match best {
                    Some(e) => {
                        assert forall|f: int| 0 <= f < now.len() && hit(#[trigger] now[f].0) implies (
                        now[f].0.len() < now[e as int].0.len() || (now[f].0.len()
                            == now[e as int].0.len() && e <= f)) by {
                            if f < i - 1 {
                                assert(now[f] == before[f]);
                                assert(now[f] == self@[f]);
                            }
                        }
                        assert(picks(now, hit, e as int));
                    },
                    None => {},
                }
            }
        }
        proof {
            assert(self@.take(i as int) =~= self@);
            match best {
                Some(e) => {
                    lemma_picks_unique(self@, hit, e as int);
                },
                None => {},
            }
        }
        best
    }

    /// The longest entry that matches a path as a whole.
    pub fn match_path(&self, path: &FilePath) -> (r: Option<usize>)
        ensures
            match r {
                Some(e) => match_path(self@, path@) == Some(e as int) && e < self@.len() && hits_path(
                    path@,
                    self@[e as int].0,
                ),
                None => match_path(self@, path@) is None,
            },
    {
        self.match_prefix(&chars_of(path.as_str()))
    }

    /// `path` with the start that matches an entry replaced.
    pub fn rebase(&self, path: &FilePath) -> (r: Option<FilePath>)
        ensures
            match r {
                Some(p) => rebased(self@, path@) == Some(p@),
                None => rebased(self@, path@) is None,
            },
    {
        let chars = chars_of(path.as_str());
        match self.match_prefix(&chars) {
            Some(e) => {
                let mut text = self.entries[e].1.clone();
                let from: usize = self.entries[e].0.len();
                let rest = string_of(&chars, from, chars.len());
                text.append(rest.as_str());
                proof {
                    assert(chars@.subrange(from as int, chars@.len() as int) =~= path@.skip(
                        from as int,
                    ));
                }
                Some(FilePath::from_string(text))
            },
            None => None,
        }
    }
}

/// What the matches found so far look like in the model.
pub open spec fn found(r: Seq<(usize, usize)>) -> Seq<(int, int)> {
    r.map_values(|m: (usize, usize)| (m.0 as int, m.1 as int))
}

/// Finds every match in `content`, left to right, each with the place where it
/// starts and the entry that matched.
pub fn scan_matches(content: &Vec<char>, subs: &Substitutions) -> (r: Vec<(usize, usize)>)
    ensures
        found(r@) == matches_in(subs@, content@),
{
    let mut r: Vec<(usize, usize)> = Vec::new();
    let mut i: usize = 0;
    proof {
        assert(found(r@) + matches_from(subs@, content@, 0) =~= matches_in(subs@, content@));
    }
    while i < content.len()
        invariant
            i <= content@.len(),
            found(r@) + matches_from(subs@, content@, i as int) == matches_in(subs@, content@),
        decreases content@.len() - i,
    {
        let ghost before = found(r@);
        let ghost here = i as int;
        match subs.match_at(content, i) {
            Some(e) => {
                proof {
                    lemma_match_text(subs@, content@, i as int);
                }
                r.push((i, e));
                i = i + subs.entries[e].0.len();
                proof {
                    assert(found(r@) =~= before.push((here, e as int)));
                    assert(found(r@) + matches_from(subs@, content@, i as int) =~= before + (seq![
                        (here, e as int),
                    ] + matches_from(subs@, content@, i as int)));
                }
            },
            None => {
                i = i + 1;
            },
        }
    }
    proof {
        assert(found(r@) + Seq::<(int, int)>::empty() =~= found(r@));
    }
    r
}

/// An entry that matches at `i` is there in the text.
pub proof fn lemma_match_text(set: Pairs, s: Seq<char>, i: int)
    ensures
        match_text(set, s, i) matches Some(e) ==> 0 <= e < set.len() && hits_text(s, i, set[e].0),
{
    let hit = |old: Seq<char>| hits_text(s, i, old);
    if exists|e: int| picks(set, hit, e) {
        let e = choose|e: int| picks(set, hit, e);
        assert(picks(set, hit, e));
    }
}

/// An entry that matches a path is above it.
pub proof fn lemma_match_path(set: Pairs, p: Seq<char>)
    ensures
        match_path(set, p) matches Some(e) ==> 0 <= e < set.len() && hits_path(p, set[e].0),
{
    let hit = |old: Seq<char>| hits_path(p, old);
    if exists|e: int| picks(set, hit, e) {
        let e = choose|e: int| picks(set, hit, e);
        assert(picks(set, hit, e));
    }
}

/// Replaces every match in `content` in one pass. Gives the number of matches
/// and the new text.
pub fn replace_paths(content: &str, subs: &Substitutions) -> (r: (usize, String))
    ensures
        r.0 == matches_in(subs@, content@).len(),
        r.1@ == replaced(subs@, content@),
{
    let chars = chars_of(content);
    let hits = scan_matches(&chars, subs);
    let n: usize = chars.len();
    let mut out = String::new();
    let mut last: usize = 0;
    let mut k: usize = 0;
    proof {
        assert(out@ + replaced_from(subs@, content@, 0) =~= replaced(subs@, content@));
        assert(found(hits@).skip(0) =~= found(hits@));
    }
    while k < hits.len()
        invariant
            chars@ == content@,
            n == content@.len(),
            found(hits@).len() == hits@.len(),
            k <= hits@.len(),
            last <= content@.len(),
            found(hits@).skip(k as int) == matches_from(subs@, content@, last as int),
            out@ + replaced_from(subs@, content@, last as int) == replaced(subs@, content@),
        decreases hits@.len() - k,
    {
        let (at, e) = hits[k];
        proof {
            assert(found(hits@).skip(k as int)[0] == (at as int, e as int));
            lemma_next_match(subs@, content@, last as int);
        }
        let between = string_of(&chars, last, at);
        let ghost before = out@;
        out.append(between.as_str());
        out.append(subs.entries[e].1.as_str());
        let ghost from = last as int;
        assert(subs@[e as int] == (subs.entries@[e as int].0@, subs.entries@[e as int].1@));
        last = at + subs.entries[e].0.len();
        proof {
            assert(found(hits@).skip(k + 1) =~= found(hits@).skip(k as int).drop_first());
            assert(out@ =~= before + (content@.subrange(from, at as int) + subs@[e as int].1));
            assert(out@ + replaced_from(subs@, content@, last as int) =~= before + (
            content@.subrange(from, at as int) + (subs@[e as int].1 + replaced_from(
                subs@,
                content@,
                last as int,
            ))));
        }
        k = k + 1;
    }
    let rest = string_of(&chars, last, n);
    out.append(rest.as_str());
    proof {
        lemma_no_match(subs@, content@, last as int);
    }
    (hits.len(), out)
}

/// What lies between here and the next match is copied.
proof fn lemma_next_match(set: Pairs, s: Seq<char>, i: int)
    requires
        0 <= i <= s.len(),
        matches_from(set, s, i).len() > 0,
    ensures
        ({
            let (at, e) = matches_from(set, s, i)[0];
            let next = at + set[e].0.len();
            &&& i <= at < s.len()
            &&& 0 <= e < set.len()
            &&& hits_text(s, at, set[e].0)
            &&& matches_from(set, s, i).drop_first() == matches_from(set, s, next)
            &&& replaced_from(set, s, i) == s.subrange(i, at) + (set[e].1 + replaced_from(
                set,
                s,
                next,
            ))
        }),
    decreases s.len() - i,
{
    lemma_match_text(set, s, i);
    match match_text(set, s, i) {
        Some(e) => {
            let next = i + set[e].0.len();
            assert(matches_from(set, s, i).drop_first() =~= matches_from(set, s, next));
            assert(s.subrange(i, i) =~= Seq::empty());
            assert(s.subrange(i, i) + (set[e].1 + replaced_from(set, s, next)) =~= set[e].1
                + replaced_from(set, s, next));
        },
        None => {
            lemma_next_match(set, s, i + 1);
            let (at, e) = matches_from(set, s, i)[0];
            let rest = set[e].1 + replaced_from(set, s, at + set[e].0.len());
            assert(s.subrange(i, at) =~= seq![s[i]] + s.subrange(i + 1, at));
            assert(seq![s[i]] + (s.subrange(i + 1, at) + rest) =~= s.subrange(i, at) + rest);
        },
    }
}

/// Without a match the rest is copied.
proof fn lemma_no_match(set: Pairs, s: Seq<char>, i: int)
    requires
        0 <= i <= s.len(),
        matches_from(set, s, i).len() == 0,
    ensures
        replaced_from(set, s, i) == s.subrange(i, s.len() as int),
    decreases s.len() - i,
{
    if i < s.len() {
        lemma_match_text(set, s, i);
        match match_text(set, s, i) {
            Some(e) => {
                assert(matches_from(set, s, i)[0] == (i, e));
            },
            None => {
                lemma_no_match(set, s, i + 1);
                assert(s.subrange(i, s.len() as int) =~= seq![s[i]] + s.subrange(
                    i + 1,
                    s.len() as int,
                ));
            },
        }
    } else {
        assert(s.subrange(i, s.len() as int) =~= Seq::empty());
    }
}

/// Some entry matches at `i` as soon as one hits there.
pub(crate) proof fn lemma_pick_exists(set: Pairs, hit: spec_fn(Seq<char>) -> bool, f: int)
    requires
        0 <= f < set.len(),
        hit(set[f].0),
    ensures
        pick(set, hit) is Some,
        picks(set, hit, pick(set, hit)->0),
{
    let e = lemma_best_of(set, hit, set.len() as int, f);
    assert(set.take(set.len() as int) =~= set);
    lemma_picks_unique(set, hit, e);
}

proof fn lemma_best_of(set: Pairs, hit: spec_fn(Seq<char>) -> bool, n: int, f: int) -> (e: int)
    requires
        0 <= f < n <= set.len(),
        hit(set[f].0),
    ensures
        picks(set.take(n), hit, e),
    decreases n,
{
    let now = set.take(n);
    let last = n - 1;
    if exists|g: int| 0 <= g < last && hit(#[trigger] set[g].0) {
        let g = choose|g: int| 0 <= g < last && hit(#[trigger] set[g].0);
        let d = lemma_best_of(set, hit, last, g);
        let before = set.take(last);
        let e = if hit(set[last].0) && set[last].0.len() > set[d].0.len() {
            last
        } else {
            d
        };
        assert forall|x: int| 0 <= x < now.len() && hit(#[trigger] now[x].0) implies (
        now[x].0.len() < now[e].0.len() || (now[x].0.len() == now[e].0.len() && e <= x)) by {
            if x < last {
                assert(now[x] == before[x]);
                assert(hit(before[x].0));
            }
        }
        assert(now[e] == set[e]);
        assert(before[d] == set[d]);
        e
    } else {
        assert forall|x: int| 0 <= x < now.len() && hit(#[trigger] now[x].0) implies x == last by {
            assert(now[x] == set[x]);
        }
        assert(f == last);
        assert(now[last] == set[last]);
        last
    }
}

/// Where several entries match, none is longer than the one that is taken, and
/// none of the same length was given before it.
pub proof fn law_longest_match_wins(set: Pairs, s: Seq<char>, i: int, f: int)
    requires
        0 <= f < set.len(),
        hits_text(s, i, set[f].0),
    ensures
        match_text(set, s, i) matches Some(e) && set[f].0.len() <= set[e].0.len() && (
        set[f].0.len() == set[e].0.len() ==> e <= f),
{
    lemma_pick_exists(set, |old: Seq<char>| hits_text(s, i, old), f);
}

/// The same of a path that is matched as a whole.
pub proof fn law_longest_prefix_wins(set: Pairs, p: Seq<char>, f: int)
    requires
        0 <= f < set.len(),
        hits_path(p, set[f].0),
    ensures
        match_path(set, p) matches Some(e) && set[f].0.len() <= set[e].0.len() && (set[f].0.len()
            == set[e].0.len() ==> e <= f),
{
    lemma_pick_exists(set, |old: Seq<char>| hits_path(p, old), f);
}

/// Every match found is an old path that stands in the text and ends a segment
/// there, so a sibling that only starts the same way is never one. Matches do
/// not overlap.
pub proof fn law_matches_are_hits(set: Pairs, s: Seq<char>, k: int)
    requires
        0 <= k < matches_in(set, s).len(),
    ensures
        ({
            let (at, e) = matches_in(set, s)[k];
            &&& 0 <= e < set.len()
            &&& match_text(set, s, at) == Some(e)
            &&& hits_text(s, at, set[e].0)
            &&& k + 1 < matches_in(set, s).len() ==> at + set[e].0.len() <= matches_in(set, s)[k
                + 1].0
        }),
{
    lemma_matches_are_hits(set, s, 0, k);
}

proof fn lemma_matches_are_hits(set: Pairs, s: Seq<char>, i: int, k: int)
    requires
        0 <= i,
        0 <= k < matches_from(set, s, i).len(),
    ensures
        ({
            let all = matches_from(set, s, i);
            let (at, e) = all[k];
            &&& i <= at < s.len()
            &&& 0 <= e < set.len()
            &&& match_text(set, s, at) == Some(e)
            &&& hits_text(s, at, set[e].0)
            &&& k + 1 < all.len() ==> at + set[e].0.len() <= all[k + 1].0
        }),
    decreases s.len() - i,
{
    lemma_match_text(set, s, i);
    let all = matches_from(set, s, i);
    match match_text(set, s, i) {
        Some(e) => {
            let next = i + set[e].0.len();
            let rest = matches_from(set, s, next);
            if k > 0 {
                lemma_matches_are_hits(set, s, next, k - 1);
                assert(all[k] == rest[k - 1]);
                if k + 1 < all.len() {
                    assert(all[k + 1] == rest[k]);
                }
            } else if all.len() > 1 {
                lemma_matches_are_hits(set, s, next, 0);
                assert(all[1] == rest[0]);
            }
        },
        None => {
            lemma_matches_are_hits(set, s, i + 1, k);
        },
    }
}

/// No old path is overlooked: wherever one stands on a segment boundary, the
/// place is a match or lies inside one.
pub proof fn law_no_hit_is_missed(set: Pairs, s: Seq<char>, i: int, f: int)
    requires
        0 <= i < s.len(),
        0 <= f < set.len(),
        hits_text(s, i, set[f].0),
    ensures
        exists|k: int|
            0 <= k < matches_in(set, s).len() && {
                let (at, e) = #[trigger] matches_in(set, s)[k];
                at <= i < at + set[e].0.len()
            },
{
    lemma_no_hit_is_missed(set, s, 0, i, f);
    let all = matches_from(set, s, 0);
    let k = choose|k: int|
        0 <= k < all.len() && {
            let (at, e) = #[trigger] all[k];
            at <= i < at + set[e].0.len()
        };
    assert(matches_in(set, s)[k] == all[k]);
}

proof fn lemma_no_hit_is_missed(set: Pairs, s: Seq<char>, from: int, i: int, f: int)
    requires
        0 <= from <= i < s.len(),
        0 <= f < set.len(),
        hits_text(s, i, set[f].0),
    ensures
        exists|k: int|
            0 <= k < matches_from(set, s, from).len() && {
                let (at, e) = #[trigger] matches_from(set, s, from)[k];
                at <= i < at + set[e].0.len()
            },
    decreases s.len() - from,
{
    lemma_match_text(set, s, from);
    let all = matches_from(set, s, from);
    if from == i {
        law_longest_match_wins(set, s, i, f);
        assert(all[0].0 == i);
    } else {
        match match_text(set, s, from) {
            Some(e) => {
                let next = from + set[e].0.len();
                if i < next {
                    assert(all[0] == (from, e));
                } else {
                    lemma_no_hit_is_missed(set, s, next, i, f);
                    let rest = matches_from(set, s, next);
                    let k = choose|k: int|
                        0 <= k < rest.len() && {
                            let (at, e) = #[trigger] rest[k];
                            at <= i < at + set[e].0.len()
                        };
                    assert(all[k + 1] == rest[k]);
                }
            },
            None => {
                lemma_no_hit_is_missed(set, s, from + 1, i, f);
            },
        }
    }
}

/// A text in which no old path stands on a segment boundary stays as it is.
pub proof fn law_unmatched_text_is_kept(set: Pairs, s: Seq<char>)
    requires
        forall|i: int, f: int|
            0 <= i < s.len() && 0 <= f < set.len() ==> !#[trigger] hits_text(s, i, set[f].0),
    ensures
        matches_in(set, s).len() == 0,
        replaced(set, s) == s,
{
    if matches_in(set, s).len() > 0 {
        law_matches_are_hits(set, s, 0);
        lemma_next_match(set, s, 0);
    }
    lemma_no_match(set, s, 0);
    assert(s.subrange(0, s.len() as int) =~= s);
}

/// `s` from `from` on with the given matches exchanged for their entries' new
/// paths, and nothing else changed.
pub open spec fn stitched(set: Pairs, s: Seq<char>, ms: Seq<(int, int)>, from: int) -> Seq<char>
    decreases ms.len(),
{
    if ms.len() == 0 {
        s.subrange(from, s.len() as int)
    } else {
        let (at, e) = ms[0];
        s.subrange(from, at) + set[e].1 + stitched(set, s, ms.drop_first(), at + set[e].0.len())
    }
}

/// A replacement exchanges exactly the matches of the text as it was. What is
/// put in is not searched again.
pub proof fn law_replacement_is_one_pass(set: Pairs, s: Seq<char>)
    ensures
        replaced(set, s) == stitched(set, s, matches_in(set, s), 0),
{
    lemma_one_pass(set, s, 0);
}

proof fn lemma_one_pass(set: Pairs, s: Seq<char>, i: int)
    requires
        0 <= i <= s.len(),
    ensures
        replaced_from(set, s, i) == stitched(set, s, matches_from(set, s, i), i),
    decreases s.len() - i,
{
    if matches_from(set, s, i).len() == 0 {
        lemma_no_match(set, s, i);
    } else {
        lemma_next_match(set, s, i);
        let (at, e) = matches_from(set, s, i)[0];
        let next = at + set[e].0.len();
        lemma_one_pass(set, s, next);
        assert(s.subrange(i, at) + (set[e].1 + replaced_from(set, s, next)) =~= s.subrange(i, at)
            + set[e].1 + replaced_from(set, s, next));
    }
}

/// With both `a -> b` and `b -> c` in the set, a text that is `a` becomes `b`
/// and stops there.
pub proof fn law_no_cascade(set: Pairs, e: int)
    requires
        0 <= e < set.len(),
        set[e].0.len() > 0,
        forall|f: int| 0 <= f < e ==> (#[trigger] set[f]).0 != set[e].0,
    ensures
        replaced(set, set[e].0) == set[e].1,
        rebased(set, set[e].0) == Some(set[e].1),
{
    let s = set[e].0;
    assert(s.subrange(0, s.len() as int) =~= s);
    law_longest_match_wins(set, s, 0, e);
    lemma_match_text(set, s, 0);
    let g = match_text(set, s, 0)->0;
    assert(set[g].0 =~= s) by {
        assert(set[g].0.len() == s.len());
    }
    assert(g == e);
    assert(replaced_from(set, s, s.len() as int) =~= Seq::empty());
    assert(set[e].1 + Seq::<char>::empty() =~= set[e].1);
    law_longest_prefix_wins(set, s, e);
    lemma_match_path(set, s);
    let h = match_path(set, s)->0;
    assert(set[h].0 =~= s);
    assert(h == e);
    assert(s.skip(s.len() as int) =~= Seq::empty());
}

/// A path that is moved keeps its place below the old path: the same
/// components follow the new one.
pub proof fn law_rebase_keeps_place(set: Pairs, p: Seq<char>)
    requires
        match_path(set, p) matches Some(e) && set[e].0.len() > 0 && set[e].1.len() > 0,
    ensures
        ({
            let e = match_path(set, p)->0;
            let (old, new) = set[e];
            &&& under(components(p), components(old))
            &&& components(rebased(set, p)->0) == components(new) + components(p).skip(
                components(old).len() as int,
            )
        }),
{
    lemma_match_path(set, p);
    let e = match_path(set, p)->0;
    let (old, new) = set[e];
    let k = components(p);
    if p == old {
        assert(p.skip(old.len() as int) =~= Seq::empty());
        assert(new + p.skip(old.len() as int) =~= new);
        assert(k.skip(k.len() as int) =~= Seq::empty());
        assert(components(new) + k.skip(k.len() as int) =~= components(new));
        assert(components(old).is_prefix_of(k)) by {
            assert(k.subrange(0, k.len() as int) =~= k);
        }
    } else {
        let rest = p.skip(old.len() as int + 1);
        assert(p =~= old.push('/') + rest);
        lemma_components_concat(old, rest);
        assert(k == components(old) + tail_components(rest));
        assert(k.subrange(0, components(old).len() as int) =~= components(old));
        assert(k.skip(components(old).len() as int) =~= tail_components(rest));
        assert(new + p.skip(old.len() as int) =~= new.push('/') + rest);
        lemma_components_concat(new, rest);
    }
}

/// Where no old path lies above or below a new one, a path that was moved is not
/// moved again.
pub proof fn law_moved_path_stays(set: Pairs, p: Seq<char>)
    requires
        rebased(set, p) is Some,
        forall|e: int|
            0 <= e < set.len() ==> (#[trigger] set[e]).0.len() > 0 && set[e].1.len() > 0,
        forall|e: int, f: int|
            0 <= e < set.len() && 0 <= f < set.len() ==> apart(
                components((#[trigger] set[e]).0),
                components((#[trigger] set[f]).1),
            ),
    ensures
        rebased(set, rebased(set, p)->0) is None,
{
    lemma_match_path(set, p);
    law_rebase_keeps_place(set, p);
    let e = match_path(set, p)->0;
    let q = rebased(set, p)->0;
    if match_path(set, q) is Some {
        lemma_match_path(set, q);
        law_rebase_keeps_place(set, q);
        let f = match_path(set, q)->0;
        let old = components(set[f].0);
        let new = components(set[e].1);
        let k = components(q);
        assert(k.subrange(0, old.len() as int) == old);
        assert(k.subrange(0, new.len() as int) =~= new);
        if old.len() <= new.len() {
            assert(new.subrange(0, old.len() as int) =~= old);
        } else {
            assert(old.subrange(0, new.len() as int) =~= new);
        }
        assert(apart(components(set[f].0), components(set[e].1)));
    }
}

/// A path that is no old path and lies below none is not moved, however it
/// starts.
pub proof fn law_sibling_path_is_not_moved(set: Pairs, p: Seq<char>)
    requires
        forall|e: int| 0 <= e < set.len() ==> !hits_path(p, (#[trigger] set[e]).0),
    ensures
        rebased(set, p) is None,
{
    lemma_match_path(set, p);
}

/// A path that only goes on where the old path ends is no match for it.
pub proof fn law_longer_name_is_no_match(s: Seq<char>, i: int, old: Seq<char>)
    requires
        0 <= i,
        i + old.len() < s.len(),
        alphanumeric(s[i + old.len()]) || s[i + old.len()] == '_' || s[i + old.len()] == '-' || s[i
            + old.len()] == '.',
    ensures
        !hits_text(s, i, old),
{
}

/// An empty set changes no text and moves no path.
pub proof fn law_empty_set_changes_nothing(s: Seq<char>)
    ensures
        replaced(Seq::empty(), s) == s,
        matches_in(Seq::empty(), s).len() == 0,
        rebased(Seq::empty(), s) is None,
{
    law_unmatched_text_is_kept(Seq::empty(), s);
    law_sibling_path_is_not_moved(Seq::empty(), s);
}

} // verus!
