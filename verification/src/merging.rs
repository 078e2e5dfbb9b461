//! When merging goes through.

use vstd::prelude::*;

use crate::error::Error;
use crate::fs::apart;
use crate::fs::lists_at;
use crate::fs::moved;
use crate::fs::remove_owed;
use crate::fs::rename_owed;
use crate::fs::same_entry;
use crate::fs::same_listing;
use crate::fs::FsView;
use crate::laws::lemma_under_under;
use crate::merge::entry_name;
use crate::merge::entry_ran;
use crate::merge::fault_in;
use crate::merge::is_repeated;
use crate::merge::lemma_apart_below;
use crate::merge::lemma_apart_children;
use crate::merge::lemma_under_child;
use crate::merge::lemma_under_self;
use crate::merge::merge_ran;
use crate::merge::merge_step;
use crate::merge::merge_trace;
use crate::merge::place;
use crate::merge::MAX_DEPTH;
use crate::path::components;
use crate::path::is_name;
use crate::path::is_plain;
use crate::path::join_text;
use crate::path::lemma_components_join_name;
use crate::path::slash;
use crate::path::under;
use crate::path::Key;
use crate::path_map::names;

verus! {

/// What is at `q` is a file or a directory, nothing is refused there, and no link is
/// there.
pub open spec fn is_tidy_at(v: FsView, q: Key) -> bool {
    &&& v.accepts.contains(q) && !v.links.contains_key(q)
    &&& v.present.contains(q) == (v.dirs.contains(q) || v.file(q) is Some)
    &&& !(v.dirs.contains(q) && v.file(q) is Some)
}

/// Everything at `k` and below is tidy, each entry has a name and lies in a
/// directory.
pub open spec fn is_tidy(v: FsView, k: Key) -> bool {
    &&& forall|q: Key| under(q, k) ==> #[trigger] is_tidy_at(v, q)
    &&& forall|q: Key, p: Key|
        under(p, k) && #[trigger] under(q, p) && q != p && #[trigger] v.present.contains(q)
            ==> v.dirs.contains(p)
    &&& forall|q: Key|
        under(q, k) && q != k && #[trigger] v.present.contains(q) ==> is_name(q.last())
            && is_plain(q.last())
}

/// The text `t` lists the directory that it names: an entry for each thing in it, and
/// no other.
pub open spec fn is_listed(v: FsView, t: Seq<char>) -> bool {
    let k = components(t);
    &&& v.listing.contains_key(t)
    &&& forall|q: Key| #[trigger]
        names(v.listing[t], q) == (q.len() == k.len() + 1 && under(q, k) && v.present.contains(q))
}

/// The directory `src` can be merged into `dst`: everything in both is tidy and on one
/// device, what is to take entries takes them, the source can be listed throughout, no
/// file meets a directory, and no directory of the source lies deeper than `depth`
/// levels.
pub open spec fn is_mergeable(v: FsView, src: Key, dst: Key, device: u64, depth: nat) -> bool {
    &&& apart(src, dst) && src.len() > 0 && dst.len() > 0
    &&& v.dirs.contains(src) && v.dirs.contains(dst)
    &&& is_tidy(v, src) && is_tidy(v, dst)
    &&& forall|q: Key|
        (under(q, src) || under(q, dst)) && #[trigger] v.present.contains(q)
            ==> v.device.contains_key(q) && v.device[q] == device
    &&& forall|q: Key| under(q, dst) && #[trigger] v.dirs.contains(q) ==> v.writable.contains(q)
    &&& forall|t: Seq<char>|
        under(components(t), src) && v.dirs.contains(components(t)) ==> #[trigger] is_listed(v, t)
    &&& forall|q: Key|
        under(q, src) && #[trigger] v.present.contains(q) && v.present.contains(
            place(q, src, dst),
        ) ==> v.dirs.contains(q) == v.dirs.contains(place(q, src, dst))
    &&& forall|q: Key|
        under(q, src) && #[trigger] v.dirs.contains(q) ==> q.len() <= src.len() + depth
}

/// Nothing is at `k` or below it.
pub open spec fn is_bare(v: FsView, k: Key) -> bool {
    &&& forall|q: Key| under(q, k) ==> !#[trigger] v.present.contains(q)
    &&& forall|q: Key| under(q, k) ==> !#[trigger] v.links.contains_key(q)
    &&& forall|q: Key| under(q, k) ==> #[trigger] v.file(q) is None
}

/// What merging does not reach: the entries outside of both directories and the
/// target itself are the same, and so is what other directories list.
pub open spec fn is_elsewhere_same(a: FsView, b: FsView, src: Key, dst: Key) -> bool {
    &&& b.accepts == a.accepts
    &&& forall|q: Key| !under(q, src) && !under(q, dst) ==> #[trigger] same_entry(a, b, q)
    &&& same_entry(a, b, dst)
    &&& forall|t: Seq<char>|
        !lists_at(t, src) && !under(components(t), dst) ==> #[trigger] same_listing(a, b, t)
}

/// One of the first `n` entries of the list goes by the name `c`.
spec fn is_seen(list: Seq<Seq<char>>, n: int, c: Seq<char>) -> bool {
    exists|j: int| 0 <= j < n && entry_name(#[trigger] list[j]) == Some(c)
}

/// What is at and below the two children by the name `c` is as it was.
spec fn is_child_same(a: FsView, x: FsView, src: Key, dst: Key, c: Seq<char>) -> bool {
    &&& forall|q: Key|
        under(q, src.push(c)) || under(q, dst.push(c)) ==> #[trigger] same_entry(a, x, q)
    &&& forall|t: Seq<char>| under(components(t), src.push(c)) ==> #[trigger] same_listing(a, x, t)
}

/// How far merging has come behind the first `n` entries.
spec fn is_so_far(
    a: FsView,
    x: FsView,
    list: Seq<Seq<char>>,
    src: Key,
    dst: Key,
    n: int,
) -> bool {
    &&& x.accepts == a.accepts
    &&& same_entry(a, x, src) && same_entry(a, x, dst)
    &&& forall|q: Key| !under(q, src) && !under(q, dst) ==> #[trigger] same_entry(a, x, q)
    &&& forall|t: Seq<char>|
        !under(components(t), src) && !under(components(t), dst) ==> #[trigger] same_listing(
            a,
            x,
            t,
        )
    &&& forall|c: Seq<char>|
        #![trigger src.push(c)]
        if is_seen(list, n, c) {
            is_bare(x, src.push(c))
        } else {
            is_child_same(a, x, src, dst, c)
        }
}

/// Children of different names lie apart.
proof fn lemma_siblings(k: Key, c: Seq<char>, d: Seq<char>, q: Key)
    requires
        c != d,
        under(q, k.push(c)),
    ensures
        !under(q, k.push(d)),
{
    let n = k.len() as int;
    assert(q.subrange(0, n + 1)[n] == c);
    if under(q, k.push(d)) {
        assert(q.subrange(0, n + 1)[n] == d);
    }
}

/// A child and what is below it is below the directory.
proof fn lemma_child_below(k: Key, c: Seq<char>)
    ensures
        under(k.push(c), k),
        !under(k, k.push(c)),
        k.push(c).drop_last() == k,
        forall|q: Key| under(q, k.push(c)) ==> #[trigger] under(q, k) && q != k,
{
    lemma_under_self(k.push(c));
    lemma_under_child(k, c, k.push(c));
    assert(k.push(c).drop_last() =~= k);
    assert forall|q: Key| under(q, k.push(c)) implies #[trigger] under(q, k) && q != k by {
        lemma_under_child(k, c, q);
    }
}

/// What lies below a child goes below the child of the same name.
proof fn lemma_place_child(q: Key, src: Key, dst: Key, c: Seq<char>)
    requires
        under(q, src.push(c)),
    ensures
        place(q, src.push(c), dst.push(c)) == place(q, src, dst),
        under(place(q, src, dst), dst.push(c)),
{
    let n = src.len() as int;
    assert(q.subrange(0, n + 1)[n] == c);
    assert(q.skip(n) =~= seq![c] + q.skip(n + 1));
    assert(place(q, src, dst) =~= dst.push(c) + q.skip(n + 1));
    assert(place(q, src, dst).subrange(0, dst.len() as int + 1) =~= dst.push(c));
}

/// A child that is a directory on both sides can be merged, as far as it is what it
/// was.
proof fn lemma_child_mergeable(
    a: FsView,
    x: FsView,
    src: Key,
    dst: Key,
    device: u64,
    depth: nat,
    c: Seq<char>,
)
    requires
        is_mergeable(a, src, dst, device, depth),
        x.accepts == a.accepts,
        is_child_same(a, x, src, dst, c),
        x.dirs.contains(src.push(c)) && x.dirs.contains(dst.push(c)),
        depth > 0,
    ensures
        is_mergeable(x, src.push(c), dst.push(c), device, (depth - 1) as nat),
{
    let s = src.push(c);
    let d = dst.push(c);
    lemma_apart_children(src, dst, c);
    lemma_child_below(src, c);
    lemma_child_below(dst, c);
    assert forall|q: Key| under(q, s) || under(q, d) implies #[trigger] is_tidy_at(x, q) by {
        assert(is_tidy_at(a, q));
        assert(same_entry(a, x, q));
    }
    assert forall|q: Key, p: Key|
        (under(p, s) || under(p, d)) && #[trigger] under(q, p) && q != p
            && #[trigger] x.present.contains(q) implies x.dirs.contains(p) by {
        if under(p, s) {
            lemma_under_under(q, p, s);
        } else {
            lemma_under_under(q, p, d);
        }
        assert(is_tidy_at(a, q) && is_tidy_at(a, p));
        assert(same_entry(a, x, q) && same_entry(a, x, p));
        assert(a.present.contains(q));
    }
    assert forall|q: Key|
        (under(q, s) || under(q, d)) && #[trigger] x.present.contains(q) implies is_name(q.last())
        && is_plain(q.last()) && x.device.contains_key(q) && x.device[q] == device by {
        assert(is_tidy_at(a, q));
        assert(same_entry(a, x, q));
        assert(a.present.contains(q));
    }
    assert forall|q: Key| under(q, d) && #[trigger] x.dirs.contains(q) implies x.writable.contains(
        q,
    ) by {
        assert(is_tidy_at(a, q));
        assert(same_entry(a, x, q));
        assert(a.dirs.contains(q));
    }
    assert forall|t: Seq<char>|
        under(components(t), s) && x.dirs.contains(components(t)) implies #[trigger] is_listed(
        x,
        t,
    ) by {
        let k = components(t);
        assert(is_tidy_at(a, k));
        assert(same_entry(a, x, k));
        assert(is_listed(a, t));
        assert(same_listing(a, x, t));
        assert forall|q: Key| #[trigger]
            names(x.listing[t], q) == (q.len() == k.len() + 1 && under(q, k) && x.present.contains(
                q,
            )) by {
            assert(names(a.listing[t], q) == names(x.listing[t], q));
            if under(q, k) {
                lemma_under_under(q, k, s);
                assert(is_tidy_at(a, q));
                assert(same_entry(a, x, q));
            }
        }
    }
    assert forall|q: Key|
        under(q, s) && #[trigger] x.present.contains(q) && x.present.contains(
            place(q, s, d),
        ) implies x.dirs.contains(q) == x.dirs.contains(place(q, s, d)) by {
        lemma_place_child(q, src, dst, c);
        let p = place(q, src, dst);
        assert(is_tidy_at(a, q) && is_tidy_at(a, p));
        assert(same_entry(a, x, q) && same_entry(a, x, p));
        assert(a.present.contains(q));
    }
    assert forall|q: Key| under(q, s) && #[trigger] x.dirs.contains(q) implies q.len() <= s.len()
        + (depth - 1) by {
        assert(is_tidy_at(a, q));
        assert(same_entry(a, x, q));
        assert(a.dirs.contains(q));
    }
}

/// An entry that is listed goes by the name of something in the directory.
proof fn lemma_entry_named(
    a: FsView,
    src: Seq<char>,
    dst: Key,
    device: u64,
    depth: nat,
    i: int,
) -> (c: Seq<char>)
    requires
        is_mergeable(a, components(src), dst, device, depth),
        0 <= i < a.listing[src].len(),
    ensures
        entry_name(a.listing[src][i]) == Some(c),
        is_plain(c),
        a.present.contains(components(src).push(c)),
        components(join_text(src, c)) == components(src).push(c),
{
    let k = components(src);
    let list = a.listing[src];
    lemma_under_self(k);
    assert(is_listed(a, src));
    let q = components(list[i]);
    assert(names(list, q));
    assert(q.len() == k.len() + 1 && under(q, k) && a.present.contains(q));
    let c = q.last();
    assert(q =~= k.push(c)) by {
        assert(q.subrange(0, k.len() as int) =~= k);
    }
    lemma_components_join_name(src, c);
    c
}

/// Moving an entry that is no directory on both sides is owed.
proof fn lemma_entry_owed(
    a: FsView,
    x: FsView,
    src: Key,
    dst: Key,
    device: u64,
    depth: nat,
    c: Seq<char>,
)
    requires
        is_mergeable(a, src, dst, device, depth),
        x.accepts == a.accepts,
        same_entry(a, x, dst),
        is_child_same(a, x, src, dst, c),
        a.present.contains(src.push(c)) && is_plain(c),
        !(x.dirs.contains(src.push(c)) && x.dirs.contains(dst.push(c))),
    ensures
        rename_owed(x, src.push(c), dst.push(c)),
{
    let s = src.push(c);
    let d = dst.push(c);
    lemma_apart_children(src, dst, c);
    lemma_child_below(src, c);
    lemma_child_below(dst, c);
    lemma_under_self(s);
    lemma_under_self(d);
    lemma_under_self(dst);
    assert(is_tidy_at(a, s) && is_tidy_at(a, d) && is_tidy_at(a, dst));
    assert(same_entry(a, x, s) && same_entry(a, x, d));
    assert(a.present.contains(dst));
    lemma_place_child(s, src, dst, c);
    assert(place(s, src, dst) =~= d) by {
        assert(s.skip(src.len() as int) =~= seq![c]);
    }
    assert(c != slash()) by {
        assert(!c.contains('/'));
        assert(slash()[0] == '/');
        assert(c == slash() ==> c.contains(c[0]));
    }
}

/// An entry that was moved leaves nothing behind.
proof fn lemma_entry_gone(
    a: FsView,
    x: FsView,
    y: FsView,
    src: Key,
    dst: Key,
    device: u64,
    depth: nat,
    c: Seq<char>,
)
    requires
        is_mergeable(a, src, dst, device, depth),
        is_child_same(a, x, src, dst, c),
        a.present.contains(src.push(c)),
        moved(x, y, src.push(c), dst.push(c)),
    ensures
        is_bare(y, src.push(c)),
{
    let s = src.push(c);
    let d = dst.push(c);
    lemma_apart_children(src, dst, c);
    lemma_child_below(src, c);
    lemma_under_self(s);
    assert(is_tidy_at(a, s));
    assert(same_entry(a, x, s));
    assert forall|q: Key| under(q, s) implies !#[trigger] y.links.contains_key(q) && y.file(
        q,
    ) is None && !y.present.contains(q) by {
        assert(is_tidy_at(a, q));
        assert(same_entry(a, x, q));
        lemma_apart_below(s, d, q);
        if q != s && !x.dirs.contains(s) {
            if a.present.contains(q) {
                assert(under(q, s));
                assert(a.dirs.contains(s));
            }
            assert(x.file(q) is None);
            assert(!x.present.contains(q));
        }
    }
    assert forall|q: Key| under(q, s) implies !#[trigger] y.present.contains(q) by {
        assert(!y.links.contains_key(q));
    }
    assert forall|q: Key| under(q, s) implies #[trigger] y.file(q) is None by {
        assert(!y.links.contains_key(q));
    }
}

/// One entry more.
proof fn lemma_next(
    a: FsView,
    x: FsView,
    y: FsView,
    list: Seq<Seq<char>>,
    src: Key,
    dst: Key,
    i: int,
    c: Seq<char>,
)
    requires
        is_so_far(a, x, list, src, dst, i),
        0 <= i < list.len(),
        entry_name(list[i]) == Some(c),
        apart(src, dst),
        y.accepts == x.accepts,
        forall|q: Key|
            !under(q, src.push(c)) && !under(q, dst.push(c)) ==> #[trigger] same_entry(x, y, q),
        forall|t: Seq<char>|
            !lists_at(t, src.push(c)) && !lists_at(t, dst.push(c)) ==> #[trigger] same_listing(
                x,
                y,
                t,
            ),
        is_bare(y, src.push(c)),
    ensures
        is_so_far(a, y, list, src, dst, i + 1),
{
    let s = src.push(c);
    let d = dst.push(c);
    lemma_child_below(src, c);
    lemma_child_below(dst, c);
    lemma_under_self(src);
    lemma_under_self(dst);
    assert(!under(src, d)) by {
        if under(src, d) {
            lemma_under_child(dst, c, src);
        }
    }
    assert(!under(dst, s)) by {
        if under(dst, s) {
            lemma_under_child(src, c, dst);
        }
    }
    assert(same_entry(x, y, src) && same_entry(x, y, dst));
    assert forall|q: Key| !under(q, src) && !under(q, dst) implies #[trigger] same_entry(
        a,
        y,
        q,
    ) by {
        assert(!under(q, s) && !under(q, d));
        assert(same_entry(a, x, q));
        assert(same_entry(x, y, q));
    }
    assert forall|t: Seq<char>|
        !under(components(t), src) && !under(components(t), dst) implies #[trigger] same_listing(
        a,
        y,
        t,
    ) by {
        let k = components(t);
        assert(!lists_at(t, s) && !lists_at(t, d));
        lemma_same_listing_on(a, x, y, t);
    }
    assert forall|e: Seq<char>|
        #![trigger src.push(e)]
        if is_seen(list, i + 1, e) {
            is_bare(y, src.push(e))
        } else {
            is_child_same(a, y, src, dst, e)
        } by {
        if e == c {
            assert(is_seen(list, i + 1, e)) by {
                assert(entry_name(list[i]) == Some(e));
            }
        } else {
            let p = src.push(e);
            assert(is_seen(list, i + 1, e) == is_seen(list, i, e)) by {
                if is_seen(list, i + 1, e) {
                    let j = choose|j: int|
                        0 <= j < i + 1 && entry_name(#[trigger] list[j]) == Some(e);
                    assert(j != i);
                }
            }
            lemma_child_below(src, e);
            lemma_child_below(dst, e);
            assert forall|q: Key|
                under(q, p) || under(q, dst.push(e)) implies #[trigger] same_entry(
                x,
                y,
                q,
            ) by {
                if under(q, p) {
                    lemma_siblings(src, e, c, q);
                    lemma_apart_below(src, dst, q);
                } else {
                    lemma_siblings(dst, e, c, q);
                    lemma_apart_below(dst, src, q);
                }
            }
            if is_seen(list, i, e) {
                assert(is_bare(x, p));
                assert forall|q: Key| under(q, p) implies !#[trigger] y.present.contains(q)
                    && !y.links.contains_key(q) && y.file(q) is None by {
                    assert(same_entry(x, y, q));
                    assert(!x.links.contains_key(q));
                    assert(!x.present.contains(q));
                    assert(x.file(q) is None);
                }
                assert forall|q: Key| under(q, p) implies !#[trigger] y.links.contains_key(q) by {
                    assert(!y.present.contains(q));
                }
                assert forall|q: Key| under(q, p) implies #[trigger] y.file(q) is None by {
                    assert(!y.present.contains(q));
                }
            } else {
                assert(is_child_same(a, x, src, dst, e));
                assert forall|q: Key|
                    under(q, p) || under(q, dst.push(e)) implies #[trigger] same_entry(a, y, q) by {
                    assert(same_entry(a, x, q));
                    assert(same_entry(x, y, q));
                }
                assert forall|t: Seq<char>|
                    under(components(t), p) implies #[trigger] same_listing(a, y, t) by {
                    let k = components(t);
                    lemma_siblings(src, e, c, k);
                    lemma_apart_below(src, dst, k);
                    assert(!lists_at(t, s) && !lists_at(t, d));
                    assert(same_listing(a, x, t));
                    lemma_same_listing_on(a, x, y, t);
                }
            }
        }
    }
}

proof fn lemma_same_listing_on(a: FsView, x: FsView, y: FsView, t: Seq<char>)
    requires
        same_listing(a, x, t),
        same_listing(x, y, t),
    ensures
        same_listing(a, y, t),
{
    if a.listing.contains_key(t) {
        assert forall|k: Key| #[trigger]
            names(y.listing[t], k) == names(a.listing[t], k) by {
            assert(names(x.listing[t], k) == names(a.listing[t], k));
            assert(names(y.listing[t], k) == names(x.listing[t], k));
        }
    }
}

/// One entry goes through, and merging has come further.
proof fn lemma_entry_goes(
    a: FsView,
    x: FsView,
    y: FsView,
    src: Seq<char>,
    dst: Seq<char>,
    device: u64,
    depth: nat,
    i: int,
    r: Option<Error>,
)
    requires
        is_mergeable(a, components(src), components(dst), device, depth),
        is_so_far(a, x, a.listing[src], components(src), components(dst), i),
        0 <= i < a.listing[src].len(),
        entry_ran(x, y, a.listing[src], i, src, dst, depth, r),
    ensures
        r is None,
        is_so_far(a, y, a.listing[src], components(src), components(dst), i + 1),
    decreases depth, 0nat,
{
    let list = a.listing[src];
    let k = components(src);
    let l = components(dst);
    let c = lemma_entry_named(a, src, l, device, depth, i);
    lemma_components_join_name(dst, c);
    let s = k.push(c);
    let d = l.push(c);
    let from = join_text(src, c);
    let to = join_text(dst, c);
    if is_repeated(list, i) {
        assert forall|e: Seq<char>| is_seen(list, i + 1, e) == is_seen(list, i, e) by {
            if is_seen(list, i + 1, e) {
                let j = choose|j: int| 0 <= j < i + 1 && entry_name(#[trigger] list[j]) == Some(e);
                if j == i {
                    let h = choose|h: int|
                        0 <= h < i && entry_name(#[trigger] list[h]) == entry_name(list[i]);
                    assert(entry_name(list[h]) == Some(e));
                }
            }
        }
    } else {
        assert(!is_seen(list, i, c)) by {
            if is_seen(list, i, c) {
                let j = choose|j: int| 0 <= j < i && entry_name(#[trigger] list[j]) == Some(c);
                assert(is_repeated(list, i));
            }
        }
        assert(is_child_same(a, x, k, l, c));
        lemma_under_self(s);
        lemma_child_below(k, c);
        if x.dirs.contains(s) && x.dirs.contains(d) {
            assert(same_entry(a, x, s));
            assert(is_tidy_at(a, s));
            assert(a.dirs.contains(s));
            lemma_child_mergeable(a, x, k, l, device, depth, c);
            lemma_merge_goes(x, y, from, to, device, (depth - 1) as nat, r);
            lemma_under_self(d);
            assert forall|q: Key| !under(q, s) && !under(q, d) implies #[trigger] same_entry(
                x,
                y,
                q,
            ) by {}
            assert forall|t: Seq<char>|
                !lists_at(t, s) && !lists_at(t, d) implies #[trigger] same_listing(x, y, t) by {}
            lemma_next(a, x, y, list, k, l, i, c);
        } else {
            lemma_entry_owed(a, x, k, l, device, depth, c);
            lemma_entry_gone(a, x, y, k, l, device, depth, c);
            lemma_next(a, x, y, list, k, l, i, c);
        }
    }
}

/// The first entries go through.
proof fn lemma_entries_go(
    a: FsView,
    vs: Seq<FsView>,
    b: FsView,
    src: Seq<char>,
    dst: Seq<char>,
    device: u64,
    depth: nat,
    r: Option<Error>,
    n: int,
)
    requires
        is_mergeable(a, components(src), components(dst), device, depth),
        merge_trace(vs, b, a.listing[src], src, dst, depth, r),
        vs[0] == a,
        0 <= n < vs.len(),
    ensures
        is_so_far(a, vs[n], a.listing[src], components(src), components(dst), n),
    decreases depth, 1nat, n,
{
    if n > 0 {
        lemma_entries_go(a, vs, b, src, dst, device, depth, r, n - 1);
        let i = n - 1;
        let list = a.listing[src];
        assert(list[i] == list[i]);
        lemma_entry_goes(a, vs[i], vs[i + 1], src, dst, device, depth, i, None);
    }
}

/// Merging goes through, leaves nothing of the source, and touches nothing else.
proof fn lemma_merge_goes(
    a: FsView,
    b: FsView,
    src: Seq<char>,
    dst: Seq<char>,
    device: u64,
    depth: nat,
    r: Option<Error>,
)
    requires
        is_mergeable(a, components(src), components(dst), device, depth),
        merge_ran(a, b, src, dst, depth, r),
    ensures
        r is None,
        is_bare(b, components(src)),
        is_elsewhere_same(a, b, components(src), components(dst)),
    decreases depth, 2nat,
{
    let k = components(src);
    let l = components(dst);
    let list = a.listing[src];
    lemma_under_self(k);
    lemma_under_self(l);
    assert(is_listed(a, src));
    let vs = choose|vs: Seq<FsView>|
        #![trigger vs[0]]
        vs[0] == a && merge_trace(vs, b, list, src, dst, depth, r);
    let n = vs.len() - 1;
    lemma_entries_go(a, vs, b, src, dst, device, depth, r, n);
    let x = vs[n];
    if n < list.len() {
        lemma_entry_goes(a, x, b, src, dst, device, depth, n, r);
    } else {
        lemma_all_gone(a, x, src, l, device, depth);
        assert forall|t: Seq<char>|
            !lists_at(t, k) && !under(components(t), l) implies #[trigger] same_listing(
            a,
            b,
            t,
        ) by {
            lemma_same_listing_on(a, x, b, t);
        }
        assert forall|q: Key| !under(q, k) && !under(q, l) implies #[trigger] same_entry(
            a,
            b,
            q,
        ) by {
            assert(same_entry(a, x, q));
            assert(same_entry(x, b, q));
        }
        assert(same_entry(x, b, l));
        assert forall|q: Key| under(q, k) implies !#[trigger] b.links.contains_key(q) && b.file(
            q,
        ) is None by {
            assert(x.file(q) is None);
        }
        assert forall|q: Key| under(q, k) implies #[trigger] b.file(q) is None by {
            assert(!b.links.contains_key(q));
        }
    }
}

/// Behind the last entry nothing is left in the source.
proof fn lemma_all_gone(
    a: FsView,
    x: FsView,
    src: Seq<char>,
    dst: Key,
    device: u64,
    depth: nat,
)
    requires
        is_mergeable(a, components(src), dst, device, depth),
        is_so_far(
            a,
            x,
            a.listing[src],
            components(src),
            dst,
            a.listing[src].len() as int,
        ),
    ensures
        remove_owed(x, components(src)),
{
    let k = components(src);
    let list = a.listing[src];
    lemma_under_self(k);
    assert(is_listed(a, src));
    assert(is_tidy_at(a, k));
    assert forall|q: Key| under(q, k) implies #[trigger] x.file(q) is None
        && !x.links.contains_key(q) && (q != k ==> !x.present.contains(q)) by {
        if q != k {
            let m = k.len() as int;
            assert(q.len() > m) by {
                if q.len() == m {
                    assert(q.subrange(0, m) =~= q);
                }
            }
            let c = q[m];
            let s = k.push(c);
            assert(q.subrange(0, m + 1) =~= s) by {
                assert(q.subrange(0, m) =~= k);
                assert forall|i: int| 0 <= i < m + 1 implies q.subrange(0, m + 1)[i] == s[i] by {
                    if i < m {
                        assert(q.subrange(0, m)[i] == k[i]);
                    }
                }
            }
            assert(under(q, s));
            lemma_child_below(k, c);
            if is_seen(list, list.len() as int, c) {
                assert(is_bare(x, s));
                assert(!x.present.contains(q));
                assert(!x.links.contains_key(q));
            } else {
                assert(is_child_same(a, x, k, dst, c));
                assert(same_entry(a, x, q));
                assert(is_tidy_at(a, q) && is_tidy_at(a, s));
                assert(!a.present.contains(s)) by {
                    if a.present.contains(s) {
                        assert(names(list, s));
                        let j = choose|j: int|
                            0 <= j < list.len() && components(#[trigger] list[j]) == s;
                        assert(is_name(s.last()));
                        assert(entry_name(list[j]) == Some(c));
                    }
                }
                if a.present.contains(q) && q != s {
                    assert(under(q, s));
                    assert(a.dirs.contains(s));
                }
            }
        } else {
            assert(same_entry(a, x, k));
        }
    }
    assert forall|q: Key| under(q, k) implies !#[trigger] x.links.contains_key(q) by {
        assert(x.file(q) is None);
    }
    assert forall|q: Key| under(q, k) && q != k implies !#[trigger] x.present.contains(q) by {
        assert(x.file(q) is None);
    }
}

/// Merging one directory into another goes through where nothing stands in its way,
/// and leaves nothing of the source: everything in both is on one device and no link,
/// nothing is refused, no file meets a directory, the source can be listed
/// throughout, and it is not deeper than merging goes.
pub proof fn law_merge_goes_through(
    a: FsView,
    b: FsView,
    src: Seq<char>,
    dst: Seq<char>,
    device: u64,
    r: Result<(), Error>,
)
    requires
        merge_step(a, b, src, dst, r),
        is_mergeable(a, components(src), components(dst), device, MAX_DEPTH as nat),
    ensures
        r is Ok,
        is_bare(b, components(src)),
        is_elsewhere_same(a, b, components(src), components(dst)),
{
    lemma_merge_goes(a, b, src, dst, device, MAX_DEPTH as nat, fault_in(r));
}

} // verus!
