//! Orders on texts and paths, and a stable sort.

use vstd::prelude::*;

use crate::path::dot;
use crate::path::dot_dot;
use crate::path::slash;
use crate::path::FilePath;
use crate::path::Key;

verus! {

/// Whether `a` comes before `b`, compared character by character from the
/// front, a start of `b` before `b` itself.
pub open spec fn text_lt(a: Seq<char>, b: Seq<char>) -> bool
    decreases a.len(),
{
    if b.len() == 0 {
        false
    } else if a.len() == 0 {
        true
    } else if a[0] == b[0] {
        text_lt(a.drop_first(), b.drop_first())
    } else {
        a[0] < b[0]
    }
}

/// The kind of a component: root, `.`, `..`, a name, in that order.
pub open spec fn rank(c: Seq<char>) -> int {
    if c == slash() {
        0
    } else if c == dot() {
        1
    } else if c == dot_dot() {
        2
    } else {
        3
    }
}

/// Components are ordered by their kind, names among themselves as texts.
pub open spec fn component_lt(a: Seq<char>, b: Seq<char>) -> bool {
    rank(a) < rank(b) || (rank(a) == 3 && rank(b) == 3 && text_lt(a, b))
}

/// Whether a path with components `a` comes before one with components `b`:
/// compared component by component, a path before what lies below it.
pub open spec fn key_lt(a: Key, b: Key) -> bool
    decreases a.len(),
{
    if b.len() == 0 {
        false
    } else if a.len() == 0 {
        true
    } else if a[0] == b[0] {
        key_lt(a.drop_first(), b.drop_first())
    } else {
        component_lt(a[0], b[0])
    }
}

pub proof fn lemma_text_lt_total(a: Seq<char>, b: Seq<char>)
    ensures
        text_lt(a, b) || text_lt(b, a) || a == b,
        !(text_lt(a, b) && text_lt(b, a)),
        !text_lt(a, a),
    decreases a.len(),
{
    if a.len() > 0 {
        lemma_text_lt_total(a.drop_first(), a.drop_first());
    }
    if a.len() > 0 && b.len() > 0 && a[0] == b[0] {
        lemma_text_lt_total(a.drop_first(), b.drop_first());
        if a.drop_first() == b.drop_first() {
            assert(a =~= seq![a[0]] + a.drop_first());
            assert(b =~= seq![b[0]] + b.drop_first());
        }
    } else if a.len() == 0 && b.len() == 0 {
        assert(a =~= b);
    }
}

pub proof fn lemma_text_lt_transitive(a: Seq<char>, b: Seq<char>, c: Seq<char>)
    requires
        text_lt(a, b),
        text_lt(b, c),
    ensures
        text_lt(a, c),
    decreases a.len(),
{
    if a.len() > 0 && a[0] == b[0] && b[0] == c[0] {
        lemma_text_lt_transitive(a.drop_first(), b.drop_first(), c.drop_first());
    }
}

proof fn lemma_component_lt_total(a: Seq<char>, b: Seq<char>)
    ensures
        component_lt(a, b) || component_lt(b, a) || a == b,
        !(component_lt(a, b) && component_lt(b, a)),
        !component_lt(a, a),
{
    lemma_text_lt_total(a, b);
}

proof fn lemma_component_lt_transitive(a: Seq<char>, b: Seq<char>, c: Seq<char>)
    requires
        component_lt(a, b),
        component_lt(b, c),
    ensures
        component_lt(a, c),
{
    if rank(a) == 3 && rank(b) == 3 && rank(c) == 3 {
        lemma_text_lt_transitive(a, b, c);
    }
}

/// Of two different paths exactly one comes first.
pub proof fn lemma_key_lt_total(a: Key, b: Key)
    ensures
        key_lt(a, b) || key_lt(b, a) || a == b,
        !(key_lt(a, b) && key_lt(b, a)),
        !key_lt(a, a),
    decreases a.len(),
{
    if a.len() > 0 {
        lemma_key_lt_total(a.drop_first(), a.drop_first());
    }
    if a.len() > 0 && b.len() > 0 {
        lemma_component_lt_total(a[0], b[0]);
        if a[0] == b[0] {
            lemma_key_lt_total(a.drop_first(), b.drop_first());
            if a.drop_first() == b.drop_first() {
                assert(a =~= seq![a[0]] + a.drop_first());
                assert(b =~= seq![b[0]] + b.drop_first());
            }
        }
    } else if a.len() == 0 && b.len() == 0 {
        assert(a =~= b);
    }
}

pub proof fn lemma_key_lt_transitive(a: Key, b: Key, c: Key)
    requires
        key_lt(a, b),
        key_lt(b, c),
    ensures
        key_lt(a, c),
    decreases a.len(),
{
    if a.len() > 0 {
        if a[0] == b[0] && b[0] == c[0] {
            lemma_key_lt_transitive(a.drop_first(), b.drop_first(), c.drop_first());
        } else if a[0] != b[0] && b[0] != c[0] {
            lemma_component_lt_transitive(a[0], b[0], c[0]);
            lemma_component_lt_total(a[0], c[0]);
            lemma_component_lt_total(a[0], b[0]);
        }
    }
}

fn chars_before(a: &Vec<char>, b: &Vec<char>) -> (r: bool)
    ensures
        r == text_lt(a@, b@),
{
    let mut i: usize = 0;
    proof {
        assert(a@.skip(0) =~= a@);
        assert(b@.skip(0) =~= b@);
    }
    while i < a.len() && i < b.len()
        invariant
            i <= a@.len(),
            i <= b@.len(),
            text_lt(a@, b@) == text_lt(a@.skip(i as int), b@.skip(i as int)),
        decreases a@.len() - i,
    {
        proof {
            assert(a@.skip(i as int).drop_first() =~= a@.skip(i + 1));
            assert(b@.skip(i as int).drop_first() =~= b@.skip(i + 1));
        }
        if a[i] != b[i] {
            return a[i] < b[i];
        }
        i = i + 1;
    }
    i < b.len()
}

fn component_rank(c: &Vec<char>) -> (r: u8)
    ensures
        r == rank(c@),
{
    if c.len() == 1 && c[0] == '/' {
        assert(c@ =~= slash());
        0
    } else if c.len() == 1 && c[0] == '.' {
        assert(c@ =~= dot());
        1
    } else if c.len() == 2 && c[0] == '.' && c[1] == '.' {
        assert(c@ =~= dot_dot());
        2
    } else {
        assert(slash()[0] == '/' && dot()[0] == '.' && dot_dot()[0] == '.' && dot_dot()[1] == '.');
        3
    }
}

fn component_before(a: &Vec<char>, b: &Vec<char>) -> (r: bool)
    ensures
        r == component_lt(a@, b@),
{
    let x: u8 = component_rank(a);
    let y: u8 = component_rank(b);
    x < y || (x == 3 && y == 3 && chars_before(a, b))
}

/// Whether `a` comes before `b`.
pub fn path_before(a: &FilePath, b: &FilePath) -> (r: bool)
    ensures
        r == key_lt(a.key(), b.key()),
{
    let x = a.components();
    let y = b.components();
    let ghost ka = a.key();
    let ghost kb = b.key();
    let mut i: usize = 0;
    proof {
        assert(ka.skip(0) =~= ka);
        assert(kb.skip(0) =~= kb);
    }
    while i < x.len() && i < y.len()
        invariant
            ka == a.key(),
            kb == b.key(),
            x@.len() == ka.len(),
            y@.len() == kb.len(),
            forall|j: int| 0 <= j < x@.len() ==> (#[trigger] x@[j])@ == ka[j],
            forall|j: int| 0 <= j < y@.len() ==> (#[trigger] y@[j])@ == kb[j],
            i <= x@.len(),
            i <= y@.len(),
            key_lt(ka, kb) == key_lt(ka.skip(i as int), kb.skip(i as int)),
        decreases x@.len() - i,
    {
        proof {
            assert(ka.skip(i as int).drop_first() =~= ka.skip(i + 1));
            assert(kb.skip(i as int).drop_first() =~= kb.skip(i + 1));
            lemma_component_lt_total(ka[i as int], kb[i as int]);
        }
        if component_before(&x[i], &y[i]) {
            return true;
        }
        if component_before(&y[i], &x[i]) {
            return false;
        }
        i = i + 1;
    }
    i < y.len()
}

/// `x` put into `s` behind every leading element that comes before it.
pub open spec fn insert_sorted<T>(x: T, s: Seq<T>, lt: spec_fn(T, T) -> bool) -> Seq<T>
    decreases s.len(),
{
    if s.len() > 0 && lt(s[0], x) {
        seq![s[0]] + insert_sorted(x, s.drop_first(), lt)
    } else {
        seq![x] + s
    }
}

/// `s` in the order of `lt`; elements of which neither comes before the other
/// keep their places.
pub open spec fn sorted<T>(s: Seq<T>, lt: spec_fn(T, T) -> bool) -> Seq<T>
    decreases s.len(),
{
    if s.len() == 0 {
        Seq::empty()
    } else {
        insert_sorted(s[0], sorted(s.drop_first(), lt), lt)
    }
}

/// An order in which "not before" can be chained.
pub open spec fn is_weak_order<T>(lt: spec_fn(T, T) -> bool) -> bool {
    &&& forall|a: T, b: T| #[trigger] lt(a, b) ==> !lt(b, a)
    &&& forall|a: T, b: T, c: T| !#[trigger] lt(a, b) && !#[trigger] lt(b, c) ==> !lt(a, c)
}

/// No element comes before one that stands in front of it.
pub open spec fn in_order<T>(s: Seq<T>, lt: spec_fn(T, T) -> bool) -> bool {
    forall|i: int, j: int| 0 <= i < j < s.len() ==> !#[trigger] lt(s[j], s[i])
}

proof fn lemma_insert_at<T>(x: T, s: Seq<T>, lt: spec_fn(T, T) -> bool, at: int)
    requires
        0 <= at <= s.len(),
        forall|i: int| 0 <= i < at ==> lt(#[trigger] s[i], x),
        at < s.len() ==> !lt(s[at], x),
    ensures
        insert_sorted(x, s, lt) == s.insert(at, x),
    decreases at,
{
    if at > 0 {
        assert(lt(s[0], x));
        assert forall|i: int| 0 <= i < at - 1 implies lt(#[trigger] s.drop_first()[i], x) by {
            assert(s.drop_first()[i] == s[i + 1]);
        }
        lemma_insert_at(x, s.drop_first(), lt, at - 1);
        assert(seq![s[0]] + s.drop_first().insert(at - 1, x) =~= s.insert(at, x));
    } else {
        assert(seq![x] + s =~= s.insert(0, x));
    }
}

proof fn lemma_insert_sorted<T>(x: T, s: Seq<T>, lt: spec_fn(T, T) -> bool)
    ensures
        insert_sorted(x, s, lt).to_multiset() == s.to_multiset().insert(x),
        insert_sorted(x, s, lt).len() == s.len() + 1,
        is_weak_order(lt) && in_order(s, lt) ==> in_order(insert_sorted(x, s, lt), lt),
    decreases s.len(),
{
    broadcast use vstd::seq_lib::group_to_multiset_ensures;

    let r = insert_sorted(x, s, lt);
    if s.len() > 0 && lt(s[0], x) {
        let rest = s.drop_first();
        let tail = insert_sorted(x, rest, lt);
        lemma_insert_sorted(x, rest, lt);
        assert(s =~= seq![s[0]] + rest);
        vstd::seq_lib::lemma_multiset_commutative(seq![s[0]], rest);
        vstd::seq_lib::lemma_multiset_commutative(seq![s[0]], tail);
        assert(r.to_multiset() =~= s.to_multiset().insert(x));
        if is_weak_order(lt) && in_order(s, lt) {
            assert(in_order(rest, lt)) by {
                assert forall|i: int, j: int| 0 <= i < j < rest.len() implies !#[trigger] lt(
                    rest[j],
                    rest[i],
                ) by {
                    assert(!lt(s[j + 1], s[i + 1]));
                }
            }
            assert forall|i: int, j: int| 0 <= i < j < r.len() implies !#[trigger] lt(r[j], r[i]) by {
                if i == 0 {
                    assert(r[j] == tail[j - 1]);
                    assert(tail.to_multiset().contains(tail[j - 1]));
                    if tail[j - 1] != x {
                        assert(rest.to_multiset().contains(tail[j - 1]));
                        let m = choose|m: int| 0 <= m < rest.len() && rest[m] == tail[j - 1];
                        assert(!lt(s[m + 1], s[0]));
                    }
                } else {
                    assert(!lt(tail[j - 1], tail[i - 1]));
                }
            }
        }
    } else {
        vstd::seq_lib::lemma_multiset_commutative(seq![x], s);
        assert(r.to_multiset() =~= s.to_multiset().insert(x));
        if is_weak_order(lt) && in_order(s, lt) {
            assert forall|i: int, j: int| 0 <= i < j < r.len() implies !#[trigger] lt(r[j], r[i]) by {
                if i == 0 {
                    if j > 1 {
                        assert(!lt(s[j - 1], s[0]));
                        assert(!lt(s[0], x));
                    }
                } else {
                    assert(!lt(s[j - 1], s[i - 1]));
                }
            }
        }
    }
}

/// Sorting keeps the elements and puts them in order.
pub proof fn lemma_sorted<T>(s: Seq<T>, lt: spec_fn(T, T) -> bool)
    ensures
        sorted(s, lt).len() == s.len(),
        sorted(s, lt).to_multiset() == s.to_multiset(),
        is_weak_order(lt) ==> in_order(sorted(s, lt), lt),
    decreases s.len(),
{
    broadcast use vstd::seq_lib::group_to_multiset_ensures;

    if s.len() > 0 {
        let rest = s.drop_first();
        lemma_sorted(rest, lt);
        lemma_insert_sorted(s[0], sorted(rest, lt), lt);
        assert(s =~= seq![s[0]] + rest);
        vstd::seq_lib::lemma_multiset_commutative(seq![s[0]], rest);
        assert(sorted(s, lt).to_multiset() =~= s.to_multiset());
    }
}

/// Sorting what the elements stand for is sorting the elements.
pub proof fn lemma_sorted_map<T, U>(
    s: Seq<T>,
    f: spec_fn(T) -> U,
    lt: spec_fn(T, T) -> bool,
    lu: spec_fn(U, U) -> bool,
)
    requires
        forall|a: T, b: T| #[trigger] lt(a, b) == lu(f(a), f(b)),
    ensures
        sorted(s, lt).map_values(f) == sorted(s.map_values(f), lu),
    decreases s.len(),
{
    if s.len() == 0 {
        assert(sorted(s, lt).map_values(f) =~= sorted(s.map_values(f), lu));
    } else {
        lemma_sorted_map(s.drop_first(), f, lt, lu);
        assert(s.map_values(f).drop_first() =~= s.drop_first().map_values(f));
        lemma_insert_map(s[0], sorted(s.drop_first(), lt), f, lt, lu);
    }
}

proof fn lemma_insert_map<T, U>(
    x: T,
    s: Seq<T>,
    f: spec_fn(T) -> U,
    lt: spec_fn(T, T) -> bool,
    lu: spec_fn(U, U) -> bool,
)
    requires
        forall|a: T, b: T| #[trigger] lt(a, b) == lu(f(a), f(b)),
    ensures
        insert_sorted(x, s, lt).map_values(f) == insert_sorted(f(x), s.map_values(f), lu),
    decreases s.len(),
{
    let m = s.map_values(f);
    if s.len() > 0 && lt(s[0], x) {
        lemma_insert_map(x, s.drop_first(), f, lt, lu);
        assert(m.drop_first() =~= s.drop_first().map_values(f));
        assert((seq![s[0]] + insert_sorted(x, s.drop_first(), lt)).map_values(f) =~= seq![f(s[0])]
            + insert_sorted(x, s.drop_first(), lt).map_values(f));
    } else {
        if s.len() > 0 {
            assert(!lu(m[0], f(x)));
        }
        assert((seq![x] + s).map_values(f) =~= seq![f(x)] + m);
    }
}

/// Sorts `items` by `before`, keeping the order of equals.
pub fn stable_sort<T, F: Fn(&T, &T) -> bool>(
    items: Vec<T>,
    before: F,
    Ghost(lt): Ghost<spec_fn(T, T) -> bool>,
) -> (r: Vec<T>)
    requires
        forall|a: &T, b: &T| #[trigger] before.requires((a, b)),
        forall|a: &T, b: &T, c: bool| before.ensures((a, b), c) ==> c == lt(*a, *b),
    ensures
        r@ == sorted(items@, lt),
{
    let ghost all = items@;
    let mut rest = items;
    let mut r: Vec<T> = Vec::new();
    while rest.len() > 0
        invariant
            forall|a: &T, b: &T| #[trigger] before.requires((a, b)),
            forall|a: &T, b: &T, c: bool| before.ensures((a, b), c) ==> c == lt(*a, *b),
            rest@.len() <= all.len(),
            rest@ == all.take(rest@.len() as int),
            r@ == sorted(all.skip(rest@.len() as int), lt),
        decreases rest@.len(),
    {
        let ghost n = rest@.len() as int;
        if let Some(x) = rest.pop() {
            let mut at: usize = 0;
            while at < r.len() && before(&r[at], &x)
                invariant
                    forall|a: &T, b: &T| #[trigger] before.requires((a, b)),
                    forall|a: &T, b: &T, c: bool| before.ensures((a, b), c) ==> c == lt(*a, *b),
                    at <= r@.len(),
                    forall|i: int| 0 <= i < at ==> lt(#[trigger] r@[i], x),
                ensures
                    at <= r@.len(),
                    forall|i: int| 0 <= i < at ==> lt(#[trigger] r@[i], x),
                    at < r@.len() ==> !lt(r@[at as int], x),
                decreases r@.len() - at,
            {
                at = at + 1;
            }
            proof {
                lemma_insert_at(x, r@, lt, at as int);
                assert(all.skip(n - 1).drop_first() =~= all.skip(n));
                assert(all.skip(n - 1)[0] == x);
            }
            r.insert(at, x);
        }
    }
    proof {
        assert(all.skip(0) =~= all);
    }
    r
}

} // verus!
