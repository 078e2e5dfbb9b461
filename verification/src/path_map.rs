//! A map from paths to values, kept in the order in which the paths came.

use vstd::prelude::*;

use crate::fs::apart;
use crate::fs::origin;
use crate::fs::texts;
use crate::path::components;
use crate::path::has_parent;
use crate::path::join_text;
use crate::path::lemma_components_join;
use crate::path::lemma_strip_components;
use crate::path::strip_text;
use crate::path::under;
use crate::path::FilePath;
use crate::path::Key;

verus! {

/// A map from paths to values. No path is in it twice.
#[derive(Debug)]
pub struct PathMap<V> {
    entries: Vec<(FilePath, V)>,
}

/// Whether entry `i` is for the path `k`.
pub open spec fn is_for<V>(entries: Seq<(FilePath, V)>, k: Key, i: int) -> bool {
    0 <= i < entries.len() && entries[i].0.key() == k
}

/// Whether no path occurs twice.
pub open spec fn distinct<V>(entries: Seq<(FilePath, V)>) -> bool {
    forall|i: int, j: int|
        0 <= i < entries.len() && 0 <= j < entries.len() && (#[trigger] entries[i]).0.key() == (
        #[trigger] entries[j]).0.key() ==> i == j
}

/// The map that the entries make.
pub open spec fn map_of<V>(entries: Seq<(FilePath, V)>) -> Map<Key, V> {
    Map::new(
        |k: Key| exists|i: int| is_for(entries, k, i),
        |k: Key| entries[choose|i: int| is_for(entries, k, i)].1,
    )
}

pub proof fn lemma_map_of<V>(entries: Seq<(FilePath, V)>, i: int)
    requires
        distinct(entries),
        0 <= i < entries.len(),
    ensures
        map_of(entries).contains_key(entries[i].0.key()),
        map_of(entries)[entries[i].0.key()] == entries[i].1,
{
    let k = entries[i].0.key();
    assert(is_for(entries, k, i));
    let j = choose|j: int| is_for(entries, k, j);
    assert(is_for(entries, k, j));
}

impl<V> View for PathMap<V> {
    type V = Map<Key, V>;

    closed spec fn view(&self) -> Map<Key, V> {
        map_of(self.entries@)
    }
}

impl<V> PathMap<V> {
    #[verifier::type_invariant]
    spec fn paths_are_distinct(self) -> bool {
        distinct(self.entries@)
    }

    /// The entries, in the order in which the paths came.
    pub closed spec fn entries(&self) -> Seq<(FilePath, V)> {
        self.entries@
    }

    /// The map is the one that the entries make.
    pub proof fn lemma_entries(&self)
        ensures
            self@ == map_of(self.entries()),
    {
    }

    pub fn new() -> (r: Self)
        ensures
            r@ == Map::<Key, V>::empty(),
            r.entries().len() == 0,
    {
        let r = PathMap { entries: Vec::new() };
        assert(r@ =~= Map::empty()) by {
            assert forall|k: Key| !r@.contains_key(k) by {
                if r@.contains_key(k) {
                    let i = choose|i: int| is_for(r.entries@, k, i);
                    assert(is_for(r.entries@, k, i));
                }
            }
        }
        r
    }

    pub fn len(&self) -> (r: usize)
        ensures
            r == self.entries().len(),
            self@ == map_of(self.entries()),
            distinct(self.entries()),
    {
        proof {
            use_type_invariant(self);
        }
        self.entries.len()
    }

    /// The path of an entry.
    pub fn path(&self, i: usize) -> (r: &FilePath)
        requires
            i < self.entries().len(),
        ensures
            *r == self.entries()[i as int].0,
    {
        &self.entries[i].0
    }

    /// The value of an entry.
    pub fn value(&self, i: usize) -> (r: &V)
        requires
            i < self.entries().len(),
        ensures
            *r == self.entries()[i as int].1,
    {
        &self.entries[i].1
    }

    /// Where the entry for `path` is.
    fn find(&self, path: &FilePath) -> (r: Option<usize>)
        ensures
            match r {
                Some(i) => is_for(self.entries@, path.key(), i as int) && self@.contains_key(
                    path.key(),
                ) && self@[path.key()] == self.entries@[i as int].1,
                None => !self@.contains_key(path.key()) && forall|i: int|
                    !is_for(self.entries@, path.key(), i),
            },
    {
        proof {
            use_type_invariant(self);
        }
        let mut i: usize = 0;
        while i < self.entries.len()
            invariant
                distinct(self.entries@),
                i <= self.entries@.len(),
                forall|j: int| 0 <= j < i ==> !is_for(self.entries@, path.key(), j),
            decreases self.entries@.len() - i,
        {
            if self.entries[i].0.same(path) {
                proof {
                    lemma_map_of(self.entries@, i as int);
                }
                return Some(i);
            }
            i = i + 1;
        }
        None
    }

    pub fn contains(&self, path: &FilePath) -> (r: bool)
        ensures
            r == self@.contains_key(path.key()),
    {
        self.find(path).is_some()
    }

    pub fn get(&self, path: &FilePath) -> (r: Option<&V>)
        ensures
            match r {
                Some(v) => self@.contains_key(path.key()) && *v == self@[path.key()],
                None => !self@.contains_key(path.key()),
            },
    {
        match self.find(path) {
            Some(i) => Some(&self.entries[i].1),
            None => None,
        }
    }

    /// Puts `value` in at `path`, in the place of what was there.
    pub fn insert(&mut self, path: FilePath, value: V)
        ensures
            final(self)@ == old(self)@.insert(path.key(), value),
    {
        proof {
            use_type_invariant(&*self);
        }
        let ghost before = self.entries@;
        let ghost k = path.key();
        match self.find(&path) {
            Some(i) => {
                let held = self.entries[i].0.clone();
                proof {
                    let after = before.update(i as int, (held, value));
                    assert(distinct(after)) by {
                        assert forall|x: int, y: int|
                            0 <= x < after.len() && 0 <= y < after.len() && (
                            #[trigger] after[x]).0.key() == (#[trigger] after[y]).0.key() implies x
                            == y by {
                            assert(before[x].0.key() == after[x].0.key());
                            assert(before[y].0.key() == after[y].0.key());
                        }
                    }
                    assert(map_of(after) =~= map_of(before).insert(k, value)) by {
                        assert forall|q: Key|
                            map_of(after).contains_key(q) == map_of(before).insert(
                                k,
                                value,
                            ).contains_key(q) by {
                            if map_of(after).contains_key(q) {
                                let x = choose|x: int| is_for(after, q, x);
                                assert(is_for(before, q, x));
                            }
                            if map_of(before).contains_key(q) {
                                let x = choose|x: int| is_for(before, q, x);
                                assert(is_for(after, q, x));
                            }
                            if q == k {
                                assert(is_for(after, q, i as int));
                            }
                        }
                        assert forall|q: Key| map_of(after).contains_key(q) implies map_of(after)[q]
                            == map_of(before).insert(k, value)[q] by {
                            let x = choose|x: int| is_for(after, q, x);
                            assert(is_for(after, q, x));
                            lemma_map_of(after, x);
                            lemma_map_of(before, x);
                        }
                    }
                }
                let mut entries: Vec<(FilePath, V)> = Vec::new();
                std::mem::swap(&mut self.entries, &mut entries);
                entries.set(i, (held, value));
                self.entries = entries;
            },
            None => {
                proof {
                    let after = before.push((path, value));
                    assert(distinct(after)) by {
                        assert forall|x: int, y: int|
                            0 <= x < after.len() && 0 <= y < after.len() && (
                            #[trigger] after[x]).0.key() == (#[trigger] after[y]).0.key() implies x
                            == y by {
                            if x < before.len() {
                                assert(!is_for(before, k, x));
                            }
                            if y < before.len() {
                                assert(!is_for(before, k, y));
                            }
                        }
                    }
                    assert(map_of(after) =~= map_of(before).insert(k, value)) by {
                        assert forall|q: Key|
                            map_of(after).contains_key(q) == map_of(before).insert(
                                k,
                                value,
                            ).contains_key(q) by {
                            if map_of(after).contains_key(q) {
                                let x = choose|x: int| is_for(after, q, x);
                                assert(is_for(after, q, x));
                                if x < before.len() {
                                    assert(is_for(before, q, x));
                                }
                            }
                            if map_of(before).contains_key(q) {
                                let x = choose|x: int| is_for(before, q, x);
                                assert(is_for(after, q, x));
                            }
                            if q == k {
                                assert(is_for(after, q, before.len() as int));
                            }
                        }
                        assert forall|q: Key| map_of(after).contains_key(q) implies map_of(after)[q]
                            == map_of(before).insert(k, value)[q] by {
                            let x = choose|x: int| is_for(after, q, x);
                            assert(is_for(after, q, x));
                            lemma_map_of(after, x);
                            if x < before.len() {
                                assert(!is_for(before, k, x));
                                lemma_map_of(before, x);
                            }
                        }
                    }
                }
                let mut entries: Vec<(FilePath, V)> = Vec::new();
                std::mem::swap(&mut self.entries, &mut entries);
                entries.push((path, value));
                self.entries = entries;
            },
        }
    }

    /// Takes the entry at `path` out.
    pub fn remove(&mut self, path: &FilePath) -> (r: Option<V>)
        ensures
            final(self)@ == old(self)@.remove(path.key()),
            match r {
                Some(v) => old(self)@.contains_key(path.key()) && v == old(self)@[path.key()],
                None => !old(self)@.contains_key(path.key()) && *final(self) == *old(self),
            },
    {
        proof {
            use_type_invariant(&*self);
        }
        let ghost before = self.entries@;
        let ghost k = path.key();
        match self.find(path) {
            Some(i) => {
                proof {
                    lemma_removed(before, i as int);
                }
                let mut entries: Vec<(FilePath, V)> = Vec::new();
                std::mem::swap(&mut self.entries, &mut entries);
                let (_, value) = entries.remove(i);
                self.entries = entries;
                Some(value)
            },
            None => {
                assert(self@ =~= self@.remove(k));
                None
            },
        }
    }
}

/// The paths among the entries that `f` accepts, in order.
pub open spec fn selected<V>(entries: Seq<(FilePath, V)>, f: spec_fn(Key) -> bool) -> Seq<Seq<char>>
    decreases entries.len(),
{
    if entries.len() == 0 {
        Seq::empty()
    } else if f(entries.last().0.key()) {
        selected(entries.drop_last(), f).push(entries.last().0@)
    } else {
        selected(entries.drop_last(), f)
    }
}

/// Whether a path with the components `k` is among the texts.
pub open spec fn names(list: Seq<Seq<char>>, k: Key) -> bool {
    exists|j: int| 0 <= j < list.len() && components(#[trigger] list[j]) == k
}

/// Exactly the paths in the map that `f` accepts are selected.
pub proof fn lemma_selected<V>(entries: Seq<(FilePath, V)>, f: spec_fn(Key) -> bool, k: Key)
    ensures
        names(selected(entries, f), k) == (f(k) && map_of(entries).contains_key(k)),
    decreases entries.len(),
{
    if entries.len() > 0 {
        let init = entries.drop_last();
        let last = entries.last();
        let before = selected(init, f);
        let now = selected(entries, f);
        lemma_selected(init, f, k);
        if map_of(init).contains_key(k) {
            let i = choose|i: int| is_for(init, k, i);
            assert(is_for(entries, k, i));
        }
        if last.0.key() == k {
            assert(is_for(entries, k, entries.len() - 1));
        }
        if map_of(entries).contains_key(k) {
            let i = choose|i: int| is_for(entries, k, i);
            assert(is_for(entries, k, i));
            if i < init.len() {
                assert(is_for(init, k, i));
            }
        }
        if f(last.0.key()) {
            if names(before, k) {
                let j = choose|j: int| 0 <= j < before.len() && components(#[trigger] before[j]) == k;
                assert(now[j] == before[j]);
            }
            assert(now[before.len() as int] == last.0@);
            if names(now, k) {
                let j = choose|j: int| 0 <= j < now.len() && components(#[trigger] now[j]) == k;
                if j < before.len() {
                    assert(now[j] == before[j]);
                }
            }
        }
    } else {
        if map_of(entries).contains_key(k) {
            let i = choose|i: int| is_for(entries, k, i);
            assert(is_for(entries, k, i));
        }
    }
}

/// What two lists name together.
pub proof fn lemma_names_add(a: Seq<Seq<char>>, b: Seq<Seq<char>>, k: Key)
    ensures
        names(a + b, k) == (names(a, k) || names(b, k)),
{
    let c = a + b;
    if names(a, k) {
        let j = choose|j: int| 0 <= j < a.len() && components(#[trigger] a[j]) == k;
        assert(c[j] == a[j]);
    }
    if names(b, k) {
        let j = choose|j: int| 0 <= j < b.len() && components(#[trigger] b[j]) == k;
        assert(c[a.len() + j] == b[j]);
    }
    if names(c, k) {
        let j = choose|j: int| 0 <= j < c.len() && components(#[trigger] c[j]) == k;
        if j < a.len() {
            assert(c[j] == a[j]);
        } else {
            assert(c[j] == b[j - a.len()]);
        }
    }
}

/// The paths that lie directly in the directory `dir`.
pub open spec fn is_child(dir: Key) -> spec_fn(Key) -> bool {
    |k: Key| has_parent(k) && k.drop_last() == dir
}

/// The paths that lie below the directory `dir`.
pub open spec fn is_below(dir: Key) -> spec_fn(Key) -> bool {
    |k: Key| under(k, dir) && k != dir
}

/// The map `m` with everything at or below `from` moved to `to`.
pub open spec fn relocated<V>(m: Map<Key, V>, from: Key, to: Key) -> Map<Key, V> {
    Map::new(
        |q: Key|
            (under(q, to) && m.contains_key(origin(q, from, to))) || (m.contains_key(q) && !under(
                q,
                from,
            )),
        |q: Key|
            if under(q, to) && m.contains_key(origin(q, from, to)) {
                m[origin(q, from, to)]
            } else {
                m[q]
            },
    )
}

/// Both maps agree at `k`.
pub open spec fn agree<V>(a: Map<Key, V>, b: Map<Key, V>, k: Key) -> bool {
    a.contains_key(k) == b.contains_key(k) && (a.contains_key(k) ==> a[k] == b[k])
}

/// `rest` is `all` without what lies at or below `from`, and `out` is that.
pub open spec fn parted<V>(
    all: Map<Key, V>,
    rest: Map<Key, V>,
    out: Seq<(FilePath, V)>,
    from: Key,
) -> bool {
    &&& distinct(out)
    &&& forall|i: int| 0 <= i < out.len() ==> under((#[trigger] out[i]).0.key(), from)
    &&& forall|q: Key| #[trigger]
        rest.contains_key(q) == (all.contains_key(q) && !under(q, from))
    &&& forall|q: Key| rest.contains_key(q) ==> #[trigger] rest[q] == all[q]
    &&& forall|q: Key| #[trigger]
        map_of(out).contains_key(q) == (all.contains_key(q) && under(q, from))
    &&& forall|q: Key| map_of(out).contains_key(q) ==> #[trigger] map_of(out)[q] == all[q]
}

impl<V> PathMap<V> {
    /// Appends the paths that lie directly in `dir`.
    pub fn push_children(&self, dir: &FilePath, out: &mut Vec<FilePath>)
        ensures
            texts(final(out)@) == texts(old(out)@) + selected(self.entries(), is_child(dir.key())),
    {
        let ghost f = is_child(dir.key());
        let mut i: usize = 0;
        assert(self.entries@.take(0) =~= Seq::empty());
        assert(texts(out@) =~= texts(old(out)@) + selected(self.entries@.take(0), f));
        while i < self.entries.len()
            invariant
                f == is_child(dir.key()),
                i <= self.entries@.len(),
                texts(out@) == texts(old(out)@) + selected(self.entries@.take(i as int), f),
            decreases self.entries@.len() - i,
        {
            let path = &self.entries[i].0;
            let found = match path.parent() {
                Some(parent) => parent.same(dir),
                None => false,
            };
            let ghost before = out@;
            if found {
                out.push(path.clone());
            }
            i = i + 1;
            proof {
                assert(self.entries@.take(i as int).drop_last() =~= self.entries@.take(i - 1));
                assert(self.entries@.take(i as int).last() == self.entries@[i - 1]);
                if found {
                    assert(texts(before.push(*path)) =~= texts(before).push(path@));
                }
                assert(texts(out@) =~= texts(old(out)@) + selected(
                    self.entries@.take(i as int),
                    f,
                ));
            }
        }
        assert(self.entries@.take(i as int) =~= self.entries@);
    }

    /// Appends the paths that lie below `dir`.
    pub fn push_below(&self, dir: &FilePath, out: &mut Vec<FilePath>)
        ensures
            texts(final(out)@) == texts(old(out)@) + selected(self.entries(), is_below(dir.key())),
    {
        let ghost f = is_below(dir.key());
        let mut i: usize = 0;
        assert(self.entries@.take(0) =~= Seq::empty());
        assert(texts(out@) =~= texts(old(out)@) + selected(self.entries@.take(0), f));
        while i < self.entries.len()
            invariant
                f == is_below(dir.key()),
                i <= self.entries@.len(),
                texts(out@) == texts(old(out)@) + selected(self.entries@.take(i as int), f),
            decreases self.entries@.len() - i,
        {
            let path = &self.entries[i].0;
            let found = path.starts_with(dir) && !path.same(dir);
            let ghost before = out@;
            if found {
                out.push(path.clone());
            }
            i = i + 1;
            proof {
                assert(self.entries@.take(i as int).drop_last() =~= self.entries@.take(i - 1));
                assert(self.entries@.take(i as int).last() == self.entries@[i - 1]);
                if found {
                    assert(texts(before.push(*path)) =~= texts(before).push(path@));
                }
                assert(texts(out@) =~= texts(old(out)@) + selected(
                    self.entries@.take(i as int),
                    f,
                ));
            }
        }
        assert(self.entries@.take(i as int) =~= self.entries@);
    }

    /// Whether anything lies at or below `dir`.
    pub fn any_under(&self, dir: &FilePath) -> (r: bool)
        ensures
            r == exists|q: Key| self@.contains_key(q) && under(q, dir.key()),
    {
        proof {
            use_type_invariant(self);
        }
        let mut i: usize = 0;
        while i < self.entries.len()
            invariant
                distinct(self.entries@),
                i <= self.entries@.len(),
                forall|j: int|
                    0 <= j < i ==> !under((#[trigger] self.entries@[j]).0.key(), dir.key()),
            decreases self.entries@.len() - i,
        {
            if self.entries[i].0.starts_with(dir) {
                proof {
                    lemma_map_of(self.entries@, i as int);
                }
                return true;
            }
            i = i + 1;
        }
        proof {
            assert forall|q: Key| self@.contains_key(q) implies !under(q, dir.key()) by {
                let j = choose|j: int| is_for(self.entries@, q, j);
                assert(is_for(self.entries@, q, j));
            }
        }
        false
    }

    /// Takes out everything at or below `from`.
    pub fn take_under(&mut self, from: &FilePath) -> (out: Vec<(FilePath, V)>)
        ensures
            parted(old(self)@, final(self)@, out@, from.key()),
    {
        proof {
            use_type_invariant(&*self);
        }
        let ghost all = self.entries@;
        let ghost f = from.key();
        let mut rest: Vec<(FilePath, V)> = Vec::new();
        std::mem::swap(&mut self.entries, &mut rest);
        let mut kept: Vec<(FilePath, V)> = Vec::new();
        let mut out: Vec<(FilePath, V)> = Vec::new();
        let ghost mut places: Seq<int> = Seq::empty();
        let ghost mut out_places: Seq<int> = Seq::empty();
        let ghost mut n: int = 0;
        while rest.len() > 0
            invariant
                f == from.key(),
                0 <= n <= all.len(),
                rest@ == all.skip(n),
                places.len() == kept@.len(),
                out_places.len() == out@.len(),
                forall|i: int|
                    0 <= i < kept@.len() ==> 0 <= #[trigger] places[i] < n && all[places[i]]
                        == kept@[i] && !under(kept@[i].0.key(), f),
                forall|i: int|
                    0 <= i < out@.len() ==> 0 <= #[trigger] out_places[i] < n && all[out_places[i]]
                        == out@[i] && under(out@[i].0.key(), f),
                forall|i: int, j: int| 0 <= i < j < places.len() ==> places[i] < places[j],
                forall|i: int, j: int|
                    0 <= i < j < out_places.len() ==> out_places[i] < out_places[j],
                forall|x: int|
                    0 <= x < n ==> (if under((#[trigger] all[x]).0.key(), f) {
                        out_places.contains(x)
                    } else {
                        places.contains(x)
                    }),
            decreases rest@.len(),
        {
            let ghost before_places = places;
            let ghost before_out = out_places;
            let entry = rest.remove(0);
            proof {
                assert(entry == all[n]);
                assert(all.skip(n).remove(0) =~= all.skip(n + 1));
            }
            if entry.0.starts_with(from) {
                proof {
                    out_places = out_places.push(n);
                    assert(out_places[out_places.len() - 1] == n);
                    assert forall|x: int| before_out.contains(x) implies out_places.contains(x) by {
                        let i = choose|i: int| 0 <= i < before_out.len() && before_out[i] == x;
                        assert(out_places[i] == x);
                    }
                    assert forall|i: int, j: int| 0 <= i < j < out_places.len() implies out_places[i]
                        < out_places[j] by {
                        assert(out_places[i] == before_out[i]);
                    }
                }
                out.push(entry);
            } else {
                proof {
                    places = places.push(n);
                    assert(places[places.len() - 1] == n);
                    assert forall|x: int| before_places.contains(x) implies places.contains(x) by {
                        let i = choose|i: int|
                            0 <= i < before_places.len() && before_places[i] == x;
                        assert(places[i] == x);
                    }
                    assert forall|i: int, j: int| 0 <= i < j < places.len() implies places[i]
                        < places[j] by {
                        assert(places[i] == before_places[i]);
                    }
                }
                kept.push(entry);
            }
            proof {
                n = n + 1;
            }
        }
        proof {
            assert(n == all.len());
            lemma_part_of(all, kept@, places);
            lemma_part_of(all, out@, out_places);
            assert forall|q: Key| #[trigger]
                map_of(kept@).contains_key(q) == (map_of(all).contains_key(q) && !under(q, f)) by {
                if map_of(kept@).contains_key(q) {
                    let i = choose|i: int| is_for(kept@, q, i);
                    assert(is_for(kept@, q, i));
                    assert(is_for(all, q, places[i]));
                }
                if map_of(all).contains_key(q) && !under(q, f) {
                    let x = choose|x: int| is_for(all, q, x);
                    assert(is_for(all, q, x));
                    let i = choose|i: int| 0 <= i < places.len() && places[i] == x;
                    assert(is_for(kept@, q, i));
                }
            }
            assert forall|q: Key| #[trigger]
                map_of(out@).contains_key(q) == (map_of(all).contains_key(q) && under(q, f)) by {
                if map_of(out@).contains_key(q) {
                    let i = choose|i: int| is_for(out@, q, i);
                    assert(is_for(out@, q, i));
                    assert(is_for(all, q, out_places[i]));
                }
                if map_of(all).contains_key(q) && under(q, f) {
                    let x = choose|x: int| is_for(all, q, x);
                    assert(is_for(all, q, x));
                    let i = choose|i: int| 0 <= i < out_places.len() && out_places[i] == x;
                    assert(is_for(out@, q, i));
                }
            }
        }
        self.entries = kept;
        proof {
            assert forall|i: int| 0 <= i < out@.len() implies under(
                (#[trigger] out@[i]).0.key(),
                f,
            ) by {
                assert(0 <= out_places[i] < n);
            }
            assert forall|q: Key| self@.contains_key(q) implies #[trigger] self@[q]
                == old(self)@[q] by {
                assert(map_of(kept@)[q] == map_of(all)[q]);
            }
        }
        out
    }

    /// Moves everything at or below `from` to `to`.
    pub fn relocate(&mut self, from: &FilePath, to: &FilePath)
        ensures
            forall|q: Key|
                !under(q, from.key()) && !under(q, to.key()) ==> #[trigger] agree(
                    old(self)@,
                    final(self)@,
                    q,
                ),
            apart(from.key(), to.key()) ==> final(self)@ == relocated(
                old(self)@,
                from.key(),
                to.key(),
            ),
    {
        let ghost all = self@;
        let ghost f = from.key();
        let ghost t = to.key();
        let mut out = self.take_under(from);
        let ghost taken = out@;
        let ghost rest = self@;
        let ghost mut n: int = 0;
        assert(taken.skip(0) =~= taken);
        while out.len() > 0
            invariant
                f == from.key(),
                t == to.key(),
                parted(all, rest, taken, f),
                0 <= n <= taken.len(),
                out@ == taken.skip(n),
                forall|q: Key|
                    !under(q, f) && !under(q, t) ==> #[trigger] agree(all, self@, q),
                apart(f, t) ==> forall|q: Key| #[trigger]
                    self@.contains_key(q) == (rest.contains_key(q) || landed(taken, n, f, t, q)),
                apart(f, t) ==> forall|q: Key| #[trigger]
                    self@.contains_key(q) ==> self@[q] == if landed(taken, n, f, t, q) {
                        all[origin(q, f, t)]
                    } else {
                        rest[q]
                    },
            decreases out@.len(),
        {
            let (path, value) = out.remove(0);
            let ghost before = self@;
            let place = match path.strip_prefix(from) {
                Some(below) => to.join(below.as_str()),
                None => to.clone(),
            };
            proof {
                assert((path, value) == taken[n]);
                assert(taken.skip(n).remove(0) =~= taken.skip(n + 1));
                assert(under(path.key(), f));
                lemma_map_of(taken, n);
                lemma_place(path@, f, to@, place@);
                if f.len() > 0 && t.len() > 0 {
                    assert(t.is_prefix_of(place.key())) by {
                        assert(place.key().subrange(0, t.len() as int) =~= t);
                    }
                }
            }
            self.insert(place, value);
            proof {
                let k = place.key();
                assert forall|q: Key| !under(q, f) && !under(q, t) implies #[trigger] agree(
                    all,
                    self@,
                    q,
                ) by {
                    assert(agree(all, before, q));
                    if f.len() == 0 {
                        assert(q.subrange(0, 0) =~= f);
                    }
                    if t.len() == 0 {
                        assert(q.subrange(0, 0) =~= t);
                    }
                }
                if apart(f, t) {
                    lemma_apart(f, t);
                    assert(origin(k, f, t) =~= path.key()) by {
                        assert(k.skip(t.len() as int) =~= path.key().skip(f.len() as int));
                        assert(path.key() =~= f + path.key().skip(f.len() as int));
                    }
                    assert forall|q: Key| #[trigger]
                        self@.contains_key(q) == (rest.contains_key(q) || landed(
                            taken,
                            n + 1,
                            f,
                            t,
                            q,
                        )) by {
                        assert(before.contains_key(q) == (rest.contains_key(q) || landed(
                            taken,
                            n,
                            f,
                            t,
                            q,
                        )));
                        lemma_landed_step(taken, n, f, t, q, k);
                    }
                    assert forall|q: Key| #[trigger] self@.contains_key(q) implies self@[q]
                        == if landed(taken, n + 1, f, t, q) {
                        all[origin(q, f, t)]
                    } else {
                        rest[q]
                    } by {
                        assert(before.contains_key(q) == (rest.contains_key(q) || landed(
                            taken,
                            n,
                            f,
                            t,
                            q,
                        )));
                        lemma_landed_step(taken, n, f, t, q, k);
                    }
                }
                n = n + 1;
            }
        }
        proof {
            if apart(f, t) {
                let want = relocated(all, f, t);
                lemma_apart(f, t);
                assert forall|q: Key| #[trigger] self@.contains_key(q) == want.contains_key(q) by {
                    lemma_landed_all(all, rest, taken, f, t, q);
                }
                assert forall|q: Key| self@.contains_key(q) implies self@[q] == want[q] by {
                    lemma_landed_all(all, rest, taken, f, t, q);
                }
                assert(self@ =~= want);
            }
        }
    }
}

/// One of the first `n` of the entries taken from `from` goes to `q`.
spec fn landed<V>(taken: Seq<(FilePath, V)>, n: int, from: Key, to: Key, q: Key) -> bool {
    under(q, to) && exists|i: int| 0 <= i < n && is_for(taken, origin(q, from, to), i)
}

proof fn lemma_landed_step<V>(
    taken: Seq<(FilePath, V)>,
    n: int,
    from: Key,
    to: Key,
    q: Key,
    k: Key,
)
    requires
        0 <= n < taken.len(),
        distinct(taken),
        under(k, to),
        under(taken[n].0.key(), from),
        origin(k, from, to) == taken[n].0.key(),
    ensures
        landed(taken, n + 1, from, to, q) == (landed(taken, n, from, to, q) || q == k),
{
    if landed(taken, n + 1, from, to, q) {
        let i = choose|i: int| 0 <= i < n + 1 && is_for(taken, origin(q, from, to), i);
        assert(is_for(taken, origin(q, from, to), i));
        if i < n {
            assert(landed(taken, n, from, to, q));
        } else {
            assert(origin(q, from, to) == origin(k, from, to));
            assert(q.skip(to.len() as int) =~= origin(q, from, to).skip(from.len() as int));
            assert(k.skip(to.len() as int) =~= origin(k, from, to).skip(from.len() as int));
            assert(q =~= to + q.skip(to.len() as int));
            assert(k =~= to + k.skip(to.len() as int));
        }
    }
    if landed(taken, n, from, to, q) {
        let i = choose|i: int| 0 <= i < n && is_for(taken, origin(q, from, to), i);
        assert(0 <= i < n + 1 && is_for(taken, origin(q, from, to), i));
    }
    if q == k {
        assert(is_for(taken, origin(q, from, to), n));
    }
}

proof fn lemma_landed_all<V>(
    all: Map<Key, V>,
    rest: Map<Key, V>,
    taken: Seq<(FilePath, V)>,
    from: Key,
    to: Key,
    q: Key,
)
    requires
        parted(all, rest, taken, from),
    ensures
        landed(taken, taken.len() as int, from, to, q) == (under(q, to) && all.contains_key(
            origin(q, from, to),
        )),
{
    let o = origin(q, from, to);
    assert(from.is_prefix_of(o)) by {
        assert(o.subrange(0, from.len() as int) =~= from);
    }
    assert(map_of(taken).contains_key(o) == (all.contains_key(o) && under(o, from)));
    if landed(taken, taken.len() as int, from, to, q) {
        let i = choose|i: int| 0 <= i < taken.len() && is_for(taken, o, i);
        assert(is_for(taken, o, i));
        assert(map_of(taken).contains_key(o));
    }
    if under(q, to) && all.contains_key(o) {
        let i = choose|i: int| is_for(taken, o, i);
        assert(is_for(taken, o, i));
    }
}

/// Paths that lie apart are not empty.
proof fn lemma_apart(a: Key, b: Key)
    requires
        apart(a, b),
    ensures
        a.len() > 0,
        b.len() > 0,
{
    if a.len() == 0 {
        assert(b.subrange(0, 0) =~= a);
    }
    if b.len() == 0 {
        assert(a.subrange(0, 0) =~= b);
    }
}

/// Where a path below `from` goes when it is read from inside `to`.
proof fn lemma_place(path: Seq<char>, from: Key, to: Seq<char>, place: Seq<char>)
    requires
        under(components(path), from),
        place == join_text(to, strip_text(path, from.len() as int)),
    ensures
        from.len() > 0 && components(to).len() > 0 ==> components(place) == components(to)
            + components(path).skip(from.len() as int),
{
    if from.len() > 0 && components(to).len() > 0 {
        lemma_strip_components(path, from.len() as int);
        lemma_components_join(to, strip_text(path, from.len() as int));
    }
}

/// A part of distinct entries, in order, is distinct and maps alike.
proof fn lemma_part_of<V>(all: Seq<(FilePath, V)>, part: Seq<(FilePath, V)>, places: Seq<int>)
    requires
        distinct(all),
        places.len() == part.len(),
        forall|i: int|
            0 <= i < part.len() ==> 0 <= #[trigger] places[i] < all.len() && all[places[i]]
                == part[i],
        forall|i: int, j: int| 0 <= i < j < places.len() ==> places[i] < places[j],
    ensures
        distinct(part),
        forall|q: Key| map_of(part).contains_key(q) ==> #[trigger] map_of(part)[q] == map_of(all)[q],
{
    assert forall|i: int, j: int|
        0 <= i < part.len() && 0 <= j < part.len() && (#[trigger] part[i]).0.key() == (
        #[trigger] part[j]).0.key() implies i == j by {
        assert(all[places[i]] == part[i]);
        assert(all[places[j]] == part[j]);
        assert(places[i] == places[j]);
        if i < j {
            assert(places[i] < places[j]);
        } else if j < i {
            assert(places[j] < places[i]);
        }
    }
    assert forall|q: Key| map_of(part).contains_key(q) implies #[trigger] map_of(part)[q] == map_of(
        all,
    )[q] by {
        let i = choose|i: int| is_for(part, q, i);
        assert(is_for(part, q, i));
        lemma_map_of(part, i);
        lemma_map_of(all, places[i]);
    }
}

/// Taking one entry out takes its path out of the map.
proof fn lemma_removed<V>(before: Seq<(FilePath, V)>, i: int)
    requires
        distinct(before),
        0 <= i < before.len(),
    ensures
        distinct(before.remove(i)),
        map_of(before.remove(i)) == map_of(before).remove(before[i].0.key()),
{
    let k = before[i].0.key();
    let after = before.remove(i);
    assert(distinct(after)) by {
        assert forall|x: int, y: int|
            0 <= x < after.len() && 0 <= y < after.len() && (#[trigger] after[x]).0.key() == (
            #[trigger] after[y]).0.key() implies x == y by {
            let x2 = if x < i {
                x
            } else {
                x + 1
            };
            let y2 = if y < i {
                y
            } else {
                y + 1
            };
            assert(after[x] == before[x2]);
            assert(after[y] == before[y2]);
        }
    }
    assert(map_of(after) =~= map_of(before).remove(k)) by {
        assert forall|q: Key|
            map_of(after).contains_key(q) == map_of(before).remove(k).contains_key(q) by {
            if map_of(after).contains_key(q) {
                let x = choose|x: int| is_for(after, q, x);
                assert(is_for(after, q, x));
                let x2 = if x < i {
                    x
                } else {
                    x + 1
                };
                assert(after[x] == before[x2]);
                assert(is_for(before, q, x2));
                assert(before[x2].0.key() != before[i].0.key());
            }
            if map_of(before).contains_key(q) && q != k {
                let x = choose|x: int| is_for(before, q, x);
                assert(is_for(before, q, x));
                let x2 = if x < i {
                    x
                } else {
                    x - 1
                };
                assert(after[x2] == before[x]);
                assert(is_for(after, q, x2));
            }
        }
        assert forall|q: Key| map_of(after).contains_key(q) implies map_of(after)[q] == map_of(
            before,
        ).remove(k)[q] by {
            let x = choose|x: int| is_for(after, q, x);
            assert(is_for(after, q, x));
            let x2 = if x < i {
                x
            } else {
                x + 1
            };
            assert(after[x] == before[x2]);
            lemma_map_of(after, x);
            lemma_map_of(before, x2);
        }
    }
}

} // verus!
