//! Merging one directory into another.

use vstd::prelude::*;
use vstd::string::*;
use vstd::utf8::encode_utf8;

use crate::error::Error;
use crate::error::FsError;
use crate::fs::apart;
use crate::fs::arrives;
use crate::fs::leaves;
use crate::fs::moved;
use crate::fs::origin;
use crate::fs::remove_owed;
use crate::fs::removed_dir;
use crate::fs::rename_owed;
use crate::fs::same_books;
use crate::fs::same_entry;
use crate::fs::same_link;
use crate::fs::spoiled;
use crate::fs::texts;
use crate::fs::wrote;
use crate::fs::Fs;
use crate::fs::FsView;
use crate::json::array_items;
use crate::json::array_of;
use crate::json::compact;
use crate::json::empty_object;
use crate::json::insert_member;
use crate::json::is_null;
use crate::json::items;
use crate::json::member;
use crate::json::members;
use crate::json::null;
use crate::json::object_keys;
use crate::json::parse_json;
use crate::json::parsed;
use crate::json::print_compact;
use crate::path::components;
use crate::path::is_name;
use crate::path::is_plain;
use crate::path::join_text;
use crate::path::lemma_components_join_name;
use crate::path::lemma_components_plain;
use crate::path::same_text;
use crate::path::under;
use crate::path::FilePath;
use crate::path::Key;

verus! {

/// How many levels of directories below each other can be merged. No file system
/// takes a path with more components than this.
pub const MAX_DEPTH: usize = 4096;

/// Where the entry at `o`, at or below `src`, goes.
pub open spec fn place(o: Key, src: Key, dst: Key) -> Key {
    dst + o.skip(src.len() as int)
}

/// Whether `o` lies behind a link that is at or below `src`.
pub open spec fn is_hidden(v: FsView, src: Key, o: Key) -> bool {
    exists|q: Key| #[trigger] v.links.contains_key(q) && under(q, src) && under(o, q) && q != o
}

/// Whether `o` is a link or lies behind one.
pub open spec fn is_behind(v: FsView, src: Key, o: Key) -> bool {
    v.links.contains_key(o) || is_hidden(v, src, o)
}

/// Nothing outside of both directories is different.
pub open spec fn same_outside(a: FsView, b: FsView, src: Key, dst: Key) -> bool {
    forall|q: Key| !under(q, src) && !under(q, dst) ==> #[trigger] same_entry(a, b, q)
}

/// A file at `o` is still there, or where it is to go.
pub open spec fn kept_or_placed(a: FsView, b: FsView, o: Key, p: Key) -> bool {
    &&& b.file(o) is Some ==> b.file(o) == a.file(o)
    &&& a.file(o) is Some ==> b.file(o) == a.file(o) || b.file(p) == a.file(o)
}

/// A file at `p` is as it was, or came from `o`, where it is no more.
pub open spec fn kept_or_replaced(a: FsView, b: FsView, o: Key, p: Key) -> bool {
    b.file(p) == a.file(p) || (a.file(o) is Some && b.file(p) == a.file(o) && b.file(o) is None)
}

/// A directory at `o` is still there, or where it is to go. A link that is there
/// hides it.
pub open spec fn dir_kept_or_placed(a: FsView, b: FsView, o: Key, p: Key) -> bool {
    a.dirs.contains(o) ==> b.dirs.contains(o) || b.dirs.contains(p) || a.links.contains_key(p)
}

/// What merging does to the entry at `o`, below `src`, and to the one at the
/// place where that goes: no file is lost but one in `dst` that one from `src`
/// replaces, no directory and no link of `src` is lost, and no other link appears.
/// Of what lies behind a link nothing is said.
pub open spec fn merged_at(a: FsView, b: FsView, src: Key, dst: Key, o: Key) -> bool {
    let p = place(o, src, dst);
    &&& !is_behind(a, src, o) ==> kept_or_placed(a, b, o, p) && kept_or_replaced(a, b, o, p)
    &&& !is_behind(a, src, o) && o != src ==> dir_kept_or_placed(a, b, o, p)
    &&& a.links.contains_key(o) && !is_hidden(a, src, o) ==> same_link(a, o, b, o) || same_link(
        a,
        o,
        b,
        p,
    )
    &&& b.links.contains_key(o) ==> same_link(a, o, b, o)
    &&& b.links.contains_key(p) ==> same_link(a, p, b, p) || same_link(a, o, b, p)
}

/// No file, link or directory is left at `k` or below it.
pub open spec fn emptied(v: FsView, k: Key) -> bool {
    &&& forall|q: Key| under(q, k) ==> #[trigger] v.file(q) is None
    &&& forall|q: Key| under(q, k) ==> !#[trigger] v.links.contains_key(q)
    &&& forall|q: Key| under(q, k) ==> !#[trigger] v.dirs.contains(q)
}

/// A directory lies `n` levels below `src`, or something behind a link does.
pub open spec fn is_deep(v: FsView, src: Key, n: nat) -> bool {
    exists|k: Key| #[trigger]
        under(k, src) && k.len() == src.len() + n && (v.dirs.contains(k) || is_behind(v, src, k))
}

/// What merging `src` into `dst` does to the file system, and what comes of it,
/// where at most `depth` levels of directories are merged. Of directories one
/// below the other no more is said than that nothing else is touched.
pub open spec fn merge_outcome(
    a: FsView,
    b: FsView,
    src: Key,
    dst: Key,
    depth: nat,
    r: Result<(), Error>,
) -> bool {
    &&& same_books(a, b)
    &&& same_outside(a, b, src, dst)
    &&& apart(src, dst) ==> {
        &&& same_entry(a, b, dst)
        &&& forall|o: Key| under(o, src) ==> #[trigger] merged_at(a, b, src, dst, o)
        &&& a.links.contains_key(src) ==> r is Err && same_link(a, src, b, src)
        &&& (r matches Err(e) && e is TooDeep) ==> is_deep(a, src, depth + 1)
    }
    &&& match r {
        Ok(_) => emptied(b, src),
        Err(e) => e is Fs || e is TooDeep,
    }
}

/// The name that an entry goes by, if it has one.
pub open spec fn entry_name(e: Seq<char>) -> Option<Seq<char>> {
    let k = components(e);
    if k.len() > 0 && is_name(k.last()) {
        Some(k.last())
    } else {
        None
    }
}

/// Entry `i` of the list goes by a name that one before it has.
pub open spec fn is_repeated(list: Seq<Seq<char>>, i: int) -> bool {
    exists|j: int| 0 <= j < i && entry_name(#[trigger] list[j]) == entry_name(list[i])
}

/// What went wrong, if anything did.
pub open spec fn fault_in(r: Result<(), Error>) -> Option<Error> {
    match r {
        Ok(_) => None,
        Err(e) => Some(e),
    }
}

/// What merging entry `i` of the listing does, and what comes of it. One without a
/// name is refused; a name that comes again is passed over; a directory on both sides
/// is merged, where there is a level left; anything else is moved, and that fails
/// only where the file system did not owe it.
pub open spec fn entry_ran(
    x: FsView,
    y: FsView,
    list: Seq<Seq<char>>,
    i: int,
    src: Seq<char>,
    dst: Seq<char>,
    depth: nat,
    r: Option<Error>,
) -> bool
    decreases depth, 0nat,
{
    match entry_name(list[i]) {
        None => y == x && (r matches Some(e) && e is Fs),
        Some(n) => {
            let from = join_text(src, n);
            let to = join_text(dst, n);
            if is_repeated(list, i) {
                y == x && r is None
            } else if x.dirs.contains(components(from)) && x.dirs.contains(components(to)) {
                if depth == 0 {
                    y == x && (r matches Some(Error::TooDeep(p)) && p@ == from)
                } else {
                    merge_ran(x, y, from, to, (depth - 1) as nat, r)
                }
            } else {
                match r {
                    None => moved(x, y, components(from), components(to)),
                    Some(e) => e is Fs && y == x && !rename_owed(
                        x,
                        components(from),
                        components(to),
                    ),
                }
            }
        },
    }
}

/// The states that merging the entries of the listing goes through, and how it ends:
/// at an entry that fails, or with the source removed, which fails only where the
/// file system did not owe it.
pub open spec fn merge_trace(
    vs: Seq<FsView>,
    b: FsView,
    list: Seq<Seq<char>>,
    src: Seq<char>,
    dst: Seq<char>,
    depth: nat,
    r: Option<Error>,
) -> bool
    decreases depth, 1nat,
{
    let n = vs.len() - 1;
    &&& 0 <= n <= list.len()
    &&& forall|i: int|
        #![trigger list[i]]
        0 <= i < n ==> entry_ran(vs[i], vs[i + 1], list, i, src, dst, depth, None)
    &&& if n < list.len() {
        r is Some && entry_ran(vs[n], b, list, n, src, dst, depth, r)
    } else {
        match r {
            None => removed_dir(vs[n], b, components(src)),
            Some(e) => e is Fs && b == vs[n] && !remove_owed(vs[n], components(src)),
        }
    }
}

/// How merging the directory `src` into `dst` goes: entry by entry, as the source is
/// listed.
pub open spec fn merge_ran(
    a: FsView,
    b: FsView,
    src: Seq<char>,
    dst: Seq<char>,
    depth: nat,
    r: Option<Error>,
) -> bool
    decreases depth, 2nat,
{
    if a.listing.contains_key(src) {
        exists|vs: Seq<FsView>|
            #![trigger vs[0]]
            vs[0] == a && merge_trace(vs, b, a.listing[src], src, dst, depth, r)
    } else {
        b == a && (r matches Some(e) && e is Fs)
    }
}

/// What merging `src` into `dst` does, as deep as a file system goes.
pub open spec fn merge_step(
    a: FsView,
    b: FsView,
    src: Seq<char>,
    dst: Seq<char>,
    r: Result<(), Error>,
) -> bool {
    &&& merge_ran(a, b, src, dst, MAX_DEPTH as nat, fault_in(r))
    &&& merge_outcome(a, b, components(src), components(dst), MAX_DEPTH as nat, r)
}

pub(crate) proof fn lemma_under_self(k: Key)
    ensures
        under(k, k),
{
    assert(k.subrange(0, k.len() as int) =~= k);
}

pub(crate) proof fn lemma_under_child(k: Key, c: Seq<char>, q: Key)
    requires
        under(q, k.push(c)),
    ensures
        under(q, k),
{
    let kc = k.push(c);
    assert(q.subrange(0, k.len() as int) =~= k) by {
        assert(q.subrange(0, kc.len() as int) == kc);
        assert forall|i: int| 0 <= i < k.len() implies q[i] == k[i] by {
            assert(q.subrange(0, kc.len() as int)[i] == kc[i]);
        }
    }
}

pub(crate) proof fn lemma_apart_below(src: Key, dst: Key, q: Key)
    requires
        apart(src, dst),
        under(q, src),
    ensures
        !under(q, dst),
{
    if under(q, dst) {
        if src.len() <= dst.len() {
            assert(dst.subrange(0, src.len() as int) =~= src);
        } else {
            assert(src.subrange(0, dst.len() as int) =~= dst);
        }
    }
}

pub(crate) proof fn lemma_apart_children(src: Key, dst: Key, c: Seq<char>)
    requires
        apart(src, dst),
    ensures
        apart(src.push(c), dst.push(c)),
{
    let s = src.push(c);
    let d = dst.push(c);
    lemma_under_self(s);
    lemma_under_self(d);
    if under(s, d) {
        lemma_under_child(dst, c, s);
        lemma_under_child(src, c, s);
        lemma_apart_below(src, dst, s);
    }
    if under(d, s) {
        lemma_under_child(dst, c, d);
        lemma_under_child(src, c, d);
        lemma_apart_below(src, dst, d);
    }
}

/// From a child's point of view a file goes to the same place.
proof fn lemma_child_place(src: Key, dst: Key, n: Seq<char>, o: Key)
    requires
        under(o, src.push(n)),
    ensures
        place(o, src.push(n), dst.push(n)) == place(o, src, dst),
        origin(place(o, src, dst), src.push(n), dst.push(n)) == o,
        under(place(o, src, dst), dst.push(n)),
{
    let s = src.push(n);
    let d = dst.push(n);
    assert(o.subrange(0, s.len() as int) == s);
    assert(o[src.len() as int] == n) by {
        assert(o.subrange(0, s.len() as int)[src.len() as int] == s[src.len() as int]);
    }
    let rest = o.skip(s.len() as int);
    assert(o.skip(src.len() as int) =~= seq![n] + rest);
    assert(d + rest =~= dst + (seq![n] + rest));
    let p = place(o, src, dst);
    assert(p.skip(d.len() as int) =~= rest);
    assert(s + rest =~= o);
    assert(p.subrange(0, d.len() as int) =~= d);
}

/// From a child's point of view a file comes from the same place.
proof fn lemma_child_origin(src: Key, dst: Key, n: Seq<char>, q: Key)
    requires
        under(q, dst.push(n)),
    ensures
        origin(q, src.push(n), dst.push(n)) == origin(q, src, dst),
        under(origin(q, src, dst), src.push(n)),
{
    lemma_child_place(dst, src, n, q);
}

/// Moving an entry merges it.
proof fn lemma_moved_merges(a: FsView, b: FsView, src: Key, dst: Key, o: Key)
    requires
        moved(a, b, src, dst),
        apart(src, dst),
        under(o, src),
    ensures
        merged_at(a, b, src, dst, o),
{
    lemma_under_self(src);
    lemma_under_self(dst);
    let p = place(o, src, dst);
    assert(origin(p, src, dst) =~= o) by {
        assert(p.skip(dst.len() as int) =~= o.skip(src.len() as int));
        assert(o =~= src + o.skip(src.len() as int));
    }
    assert(under(p, dst)) by {
        assert(p.subrange(0, dst.len() as int) =~= dst);
    }
    assert(p == origin(o, dst, src));
    lemma_apart_below(src, dst, o);
    assert(!under(p, src)) by {
        if under(p, src) {
            lemma_apart_below(src, dst, p);
        }
    }
    if o == src {
        assert(p =~= dst);
    }
    if a.links.contains_key(src) {
        if o != src {
            assert(is_hidden(a, src, o));
        }
    } else {
        assert(!arrives(a, src, dst, o));
        if a.file(o) is Some && leaves(a, src, o) {
            assert(arrives(a, src, dst, p));
        }
        if arrives(a, src, dst, p) && p == dst {
            assert(o =~= src);
        }
        assert(b.file(o) == b.file(o) && b.file(p) == b.file(p));
    }
}

/// `b` is on the way from `a` to having `src` merged into `dst`: the entries with
/// the names in `done` are merged, and nothing else is touched.
spec fn merging(a: FsView, b: FsView, src: Key, dst: Key, done: Set<Seq<char>>) -> bool {
    &&& same_books(a, b)
    &&& forall|q: Key| untouched(q, src, dst, done) ==> #[trigger] same_entry(a, b, q)
    &&& apart(src, dst) ==> forall|o: Key|
        under(o, src) ==> #[trigger] merged_at(a, b, src, dst, o)
}

/// `q` lies in no entry with one of the names.
spec fn untouched(q: Key, src: Key, dst: Key, done: Set<Seq<char>>) -> bool {
    forall|n: Seq<char>| #[trigger]
        done.contains(n) ==> !under(q, src.push(n)) && !under(q, dst.push(n))
}

proof fn lemma_merging_start(a: FsView, src: Key, dst: Key)
    ensures
        merging(a, a, src, dst, Set::empty()),
{
}

/// An entry lies below one name only.
proof fn lemma_one_name(k: Key, m: Seq<char>, n: Seq<char>, q: Key)
    requires
        under(q, k.push(m)),
        under(q, k.push(n)),
    ensures
        m == n,
{
    let i = k.len() as int;
    assert(q.subrange(0, i + 1)[i] == k.push(m)[i]);
    assert(q.subrange(0, i + 1)[i] == k.push(n)[i]);
}

/// The entry `n` and its place are as they were while it waits.
proof fn lemma_waiting(a: FsView, b: FsView, src: Key, dst: Key, done: Set<Seq<char>>, n: Seq<char>, q: Key)
    requires
        merging(a, b, src, dst, done),
        apart(src, dst),
        !done.contains(n),
        under(q, src.push(n)) || under(q, dst.push(n)),
    ensures
        same_entry(a, b, q),
{
    assert(untouched(q, src, dst, done)) by {
        assert forall|m: Seq<char>| #[trigger] done.contains(m) implies !under(q, src.push(m))
            && !under(q, dst.push(m)) by {
            if under(q, src.push(n)) {
                lemma_under_child(src, n, q);
                lemma_apart_below(src, dst, q);
                if under(q, src.push(m)) {
                    lemma_one_name(src, m, n, q);
                }
                if under(q, dst.push(m)) {
                    lemma_under_child(dst, m, q);
                }
            } else {
                lemma_under_child(dst, n, q);
                if under(q, dst.push(m)) {
                    lemma_one_name(dst, m, n, q);
                }
                if under(q, src.push(m)) {
                    lemma_under_child(src, m, q);
                    lemma_apart_below(src, dst, q);
                }
            }
        }
    }
}

/// What lies behind no link from the whole directory's point of view lies behind
/// none from that of an entry which waits.
proof fn lemma_waiting_behind(
    a: FsView,
    b: FsView,
    src: Key,
    dst: Key,
    done: Set<Seq<char>>,
    n: Seq<char>,
    o: Key,
)
    requires
        merging(a, b, src, dst, done),
        apart(src, dst),
        !done.contains(n),
        under(o, src.push(n)),
    ensures
        is_hidden(b, src.push(n), o) ==> is_hidden(a, src, o),
        is_behind(b, src.push(n), o) ==> is_behind(a, src, o),
{
    lemma_waiting(a, b, src, dst, done, n, o);
    if is_hidden(b, src.push(n), o) {
        let q = choose|q: Key| #[trigger]
            b.links.contains_key(q) && under(q, src.push(n)) && under(o, q) && q != o;
        lemma_waiting(a, b, src, dst, done, n, q);
        lemma_under_child(src, n, q);
        assert(a.links.contains_key(q));
    }
}

/// Merging an entry that waits goes on merging.
proof fn lemma_merging_child(
    a: FsView,
    b: FsView,
    c: FsView,
    src: Key,
    dst: Key,
    done: Set<Seq<char>>,
    n: Seq<char>,
)
    requires
        merging(a, b, src, dst, done),
        !done.contains(n),
        same_books(b, c),
        same_outside(b, c, src.push(n), dst.push(n)),
        apart(src, dst) ==> forall|o: Key|
            under(o, src.push(n)) ==> #[trigger] merged_at(b, c, src.push(n), dst.push(n), o),
        apart(src, dst) && !b.links.contains_key(src.push(n)) ==> dir_kept_or_placed(
            b,
            c,
            src.push(n),
            dst.push(n),
        ),
    ensures
        merging(a, c, src, dst, done.insert(n)),
{
    let s = src.push(n);
    let d = dst.push(n);
    let now = done.insert(n);
    assert forall|q: Key| untouched(q, src, dst, now) implies #[trigger] same_entry(a, c, q) by {
        assert(now.contains(n));
        assert(untouched(q, src, dst, done)) by {
            assert forall|m: Seq<char>| #[trigger] done.contains(m) implies !under(q, src.push(m))
                && !under(q, dst.push(m)) by {
                assert(now.contains(m));
            }
        }
        assert(same_entry(a, b, q));
        assert(same_entry(b, c, q));
    }
    if apart(src, dst) {
        assert forall|o: Key| under(o, src) implies #[trigger] merged_at(a, c, src, dst, o) by {
            let p = place(o, src, dst);
            lemma_apart_below(src, dst, o);
            assert(under(p, dst)) by {
                assert(p.subrange(0, dst.len() as int) =~= dst);
            }
            if under(o, s) {
                lemma_child_place(src, dst, n, o);
                assert(merged_at(b, c, s, d, o));
                lemma_waiting(a, b, src, dst, done, n, o);
                lemma_waiting(a, b, src, dst, done, n, p);
                lemma_waiting_behind(a, b, src, dst, done, n, o);
                if o == s {
                    assert(p =~= d);
                }
            } else {
                assert(merged_at(a, b, src, dst, o));
                if under(o, d) {
                    lemma_under_child(dst, n, o);
                }
                assert(same_entry(b, c, o));
                if under(p, s) {
                    lemma_under_child(src, n, p);
                    lemma_apart_below(src, dst, p);
                }
                if under(p, d) {
                    lemma_child_origin(src, dst, n, p);
                    assert(origin(p, src, dst) =~= o) by {
                        assert(p.skip(dst.len() as int) =~= o.skip(src.len() as int));
                        assert(o =~= src + o.skip(src.len() as int));
                    }
                }
                assert(same_entry(b, c, p));
            }
        }
    }
}

/// What is merged on the way is outside of nothing else.
proof fn lemma_merging_outside(a: FsView, b: FsView, src: Key, dst: Key, done: Set<Seq<char>>)
    requires
        merging(a, b, src, dst, done),
    ensures
        same_outside(a, b, src, dst),
        apart(src, dst) ==> same_entry(a, b, src) && same_entry(a, b, dst),
{
    assert forall|q: Key| !under(q, src) && !under(q, dst) implies #[trigger] same_entry(a, b, q) by {
        assert(untouched(q, src, dst, done)) by {
            assert forall|m: Seq<char>| #[trigger] done.contains(m) implies !under(q, src.push(m))
                && !under(q, dst.push(m)) by {
                if under(q, src.push(m)) {
                    lemma_under_child(src, m, q);
                }
                if under(q, dst.push(m)) {
                    lemma_under_child(dst, m, q);
                }
            }
        }
    }
    if apart(src, dst) {
        lemma_under_self(src);
        assert(untouched(src, src, dst, done)) by {
            assert forall|m: Seq<char>| #[trigger] done.contains(m) implies !under(
                src,
                src.push(m),
            ) && !under(src, dst.push(m)) by {
                if under(src, dst.push(m)) {
                    lemma_under_child(dst, m, src);
                }
            }
        }
        assert(untouched(dst, src, dst, done)) by {
            assert forall|m: Seq<char>| #[trigger] done.contains(m) implies !under(
                dst,
                src.push(m),
            ) && !under(dst, dst.push(m)) by {
                if under(dst, src.push(m)) {
                    lemma_under_child(src, m, dst);
                }
            }
        }
    }
}

/// Once nothing is left in `src`, the merge is done: `dst` holds what `src`
/// held, and behind that what it held itself. Links and directories are moved like
/// files, empty ones too, and what lies behind a link is left out.
pub proof fn law_merge_loses_nothing(a: FsView, b: FsView, src: Key, dst: Key)
    requires
        apart(src, dst),
        merge_outcome(a, b, src, dst, MAX_DEPTH as nat, Ok(())),
    ensures
        forall|o: Key|
            under(o, src) && !is_behind(a, src, o) && a.file(o) is Some ==> #[trigger] b.file(
                place(o, src, dst),
            ) == a.file(o),
        forall|o: Key|
            under(o, src) && !is_hidden(a, src, o) && #[trigger] a.links.contains_key(o)
                ==> same_link(a, o, b, place(o, src, dst)),
        forall|o: Key|
            under(o, src) && o != src && !is_behind(a, src, o) && #[trigger] a.dirs.contains(o)
                ==> b.dirs.contains(place(o, src, dst)) || a.links.contains_key(
                place(o, src, dst),
            ),
        forall|q: Key|
            under(q, dst) && !is_behind(a, src, origin(q, src, dst)) && a.file(
                origin(q, src, dst),
            ) is None ==> #[trigger] b.file(q) == a.file(q),
        emptied(b, src),
        forall|q: Key| !under(q, src) && !under(q, dst) ==> #[trigger] same_entry(a, b, q),
{
    assert forall|o: Key|
        under(o, src) && !is_behind(a, src, o) && a.file(o) is Some implies #[trigger] b.file(
        place(o, src, dst),
    ) == a.file(o) by {
        assert(merged_at(a, b, src, dst, o));
        assert(b.file(o) is None);
    }
    assert forall|o: Key|
        under(o, src) && !is_hidden(a, src, o) && #[trigger] a.links.contains_key(o) implies
        same_link(a, o, b, place(o, src, dst)) by {
        assert(merged_at(a, b, src, dst, o));
        assert(!b.links.contains_key(o));
    }
    assert forall|o: Key|
        under(o, src) && o != src && !is_behind(a, src, o) && #[trigger] a.dirs.contains(o) implies
        b.dirs.contains(place(o, src, dst)) || a.links.contains_key(place(o, src, dst)) by {
        assert(merged_at(a, b, src, dst, o));
        assert(!b.dirs.contains(o));
    }
    assert forall|q: Key|
        under(q, dst) && !is_behind(a, src, origin(q, src, dst)) && a.file(
            origin(q, src, dst),
        ) is None implies #[trigger] b.file(q) == a.file(q) by {
        let o = origin(q, src, dst);
        assert(under(o, src)) by {
            assert(o.subrange(0, src.len() as int) =~= src);
        }
        assert(place(o, src, dst) =~= q) by {
            assert(o.skip(src.len() as int) =~= q.skip(dst.len() as int));
            assert(q =~= dst + q.skip(dst.len() as int));
        }
        assert(merged_at(a, b, src, dst, o));
    }
}

/// The names that were seen.
spec fn seen(names: Seq<String>) -> Set<Seq<char>> {
    Set::new(|n: Seq<char>| exists|i: int| 0 <= i < names.len() && (#[trigger] names[i])@ == n)
}

fn was_seen(names: &Vec<String>, name: &str) -> (r: bool)
    ensures
        r == seen(names@).contains(name@),
{
    let mut i: usize = 0;
    while i < names.len()
        invariant
            i <= names@.len(),
            forall|x: int| 0 <= x < i ==> (#[trigger] names@[x])@ != name@,
        decreases names@.len() - i,
    {
        if same_text(names[i].as_str(), name) {
            assert(names@[i as int]@ == name@);
            return true;
        }
        i = i + 1;
    }
    false
}

/// The next entry was merged.
proof fn lemma_next_entry(
    vs: Seq<FsView>,
    y: FsView,
    list: Seq<Seq<char>>,
    src: Seq<char>,
    dst: Seq<char>,
    depth: nat,
)
    requires
        0 < vs.len() <= list.len(),
        forall|i: int|
            #![trigger list[i]]
            0 <= i < vs.len() - 1 ==> entry_ran(
                vs[i],
                vs[i + 1],
                list,
                i,
                src,
                dst,
                depth,
                None,
            ),
        entry_ran(vs.last(), y, list, vs.len() - 1, src, dst, depth, None),
    ensures
        forall|i: int|
            #![trigger list[i]]
            0 <= i < vs.len() ==> entry_ran(
                vs.push(y)[i],
                vs.push(y)[i + 1],
                list,
                i,
                src,
                dst,
                depth,
                None,
            ),
{
    let all = vs.push(y);
    assert forall|i: int|
        #![trigger list[i]]
        0 <= i < vs.len() implies entry_ran(all[i], all[i + 1], list, i, src, dst, depth, None) by {
        assert(all[i] == vs[i]);
        if i < vs.len() - 1 {
            assert(all[i + 1] == vs[i + 1]);
        } else {
            assert(all[i + 1] == y);
        }
    }
}

/// The names of the first `n` entries.
spec fn names_before(list: Seq<Seq<char>>, n: int) -> Set<Seq<char>> {
    Set::new(
        |m: Seq<char>| exists|j: int| 0 <= j < n && entry_name(#[trigger] list[j]) == Some(m),
    )
}

/// Merges the directory `src` into `dst`. A file or a link in `src` replaces one
/// of the same name in `dst`, any other file in `dst` stays, and `src` is
/// removed. At most `depth` levels of directories below `src` are merged; an
/// entry that is listed twice is merged once.
pub fn merge_dirs<F: Fs>(fs: &mut F, src: &FilePath, dst: &FilePath, depth: usize) -> (r: Result<
    (),
    Error,
>)
    ensures
        merge_ran(old(fs).view(), final(fs).view(), src@, dst@, depth as nat, fault_in(r)),
        merge_outcome(
            old(fs).view(),
            final(fs).view(),
            src.key(),
            dst.key(),
            depth as nat,
            r,
        ),
    decreases depth,
{
    let ghost a = fs.view();
    let ghost s = src.key();
    let ghost d = dst.key();
    let mut names: Vec<String> = Vec::new();
    let ghost mut done: Set<Seq<char>> = Set::empty();
    proof {
        lemma_merging_start(a, s, d);
        lemma_merging_outside(a, a, s, d, done);
        assert(seen(names@) =~= done);
    }
    let entries = match fs.list_dir(src) {
        Ok(entries) => entries,
        Err(e) => {
            return Err(Error::Fs(e));
        },
    };
    let ghost list = a.listing[src@];
    let ghost mut vs: Seq<FsView> = seq![a];
    let mut i: usize = 0;
    assert(done =~= names_before(list, 0));
    while i < entries.len()
        invariant
            a == old(fs).view(),
            s == src.key(),
            d == dst.key(),
            a.listing.contains_key(src@),
            list == a.listing[src@],
            list == texts(entries@),
            list.len() == entries@.len(),
            i <= entries@.len(),
            seen(names@) == done,
            done == names_before(list, i as int),
            merging(a, fs.view(), s, d, done),
            vs.len() == i + 1,
            vs[0] == a,
            vs.last() == fs.view(),
            forall|x: int|
                #![trigger list[x]]
                0 <= x < i ==> entry_ran(
                    vs[x],
                    vs[x + 1],
                    list,
                    x,
                    src@,
                    dst@,
                    depth as nat,
                    None,
                ),
        decreases entries@.len() - i,
    {
        let ghost b = fs.view();
        proof {
            lemma_merging_outside(a, b, s, d, done);
            assert(list[i as int] == entries@[i as int]@);
        }
        let name = match entries[i].file_name() {
            Some(name) => name,
            None => {
                let e = Error::Fs(FsError::about("entry without a name: ", &entries[i]));
                assert(merge_trace(vs, b, list, src@, dst@, depth as nat, Some(e)));
                return Err(e);
            },
        };
        let from = src.join(name.as_str());
        let to = dst.join(name.as_str());
        let ghost n = name@;
        proof {
            let k = entries@[i as int].key();
            lemma_components_plain(entries@[i as int]@, k.len() - 1);
            assert(is_plain(n));
            lemma_components_join_name(src@, n);
            lemma_components_join_name(dst@, n);
            lemma_under_self(s.push(n));
            if apart(s, d) {
                lemma_apart_children(s, d, n);
            }
            assert(entry_name(list[i as int]) == Some(n));
            assert(done.contains(n) == is_repeated(list, i as int));
        }
        if was_seen(&names, name.as_str()) {
            proof {
                lemma_next_entry(vs, b, list, src@, dst@, depth as nat);
            }
        } else {
            if fs.is_dir(&from) && fs.is_dir(&to) {
                if depth == 0 {
                    proof {
                        if apart(s, d) {
                            lemma_waiting(a, b, s, d, done, n, s.push(n));
                            lemma_under_child(s, n, s.push(n));
                        }
                    }
                    let e = Error::TooDeep(from);
                    assert(merge_trace(vs, b, list, src@, dst@, depth as nat, Some(e)));
                    return Err(e);
                }
                let merged = merge_dirs(fs, &from, &to, depth - 1);
                let ghost c = fs.view();
                let ghost outcome = merged;
                proof {
                    lemma_merging_child(a, b, c, s, d, done, n);
                    lemma_merging_outside(a, c, s, d, done.insert(n));
                    if apart(s, d) && merged is Err && merged->Err_0 is TooDeep {
                        let k = choose|k: Key| #[trigger]
                            under(k, s.push(n)) && k.len() == s.push(n).len() + depth && (
                            b.dirs.contains(k) || is_behind(b, s.push(n), k));
                        lemma_under_child(s, n, k);
                        lemma_waiting(a, b, s, d, done, n, k);
                        lemma_waiting_behind(a, b, s, d, done, n, k);
                    }
                }
                match merged {
                    Ok(_) => {
                        proof {
                            assert(fault_in(outcome) is None);
                            lemma_next_entry(vs, c, list, src@, dst@, depth as nat);
                        }
                    },
                    Err(e) => {
                        assert(merge_trace(vs, c, list, src@, dst@, depth as nat, Some(e)));
                        return Err(e);
                    },
                }
            } else {
                match fs.rename(&from, &to) {
                    Ok(_) => {
                        proof {
                            let c = fs.view();
                            if apart(s, d) {
                                assert forall|o: Key| under(o, s.push(n)) implies #[trigger] merged_at(
                                    b,
                                    c,
                                    s.push(n),
                                    d.push(n),
                                    o,
                                ) by {
                                    lemma_moved_merges(b, c, s.push(n), d.push(n), o);
                                }
                                lemma_moved_merges(b, c, s.push(n), d.push(n), s.push(n));
                            }
                            lemma_merging_child(a, b, c, s, d, done, n);
                            lemma_next_entry(vs, c, list, src@, dst@, depth as nat);
                        }
                    },
                    Err(e) => {
                        let e = Error::Fs(e);
                        assert(merge_trace(vs, b, list, src@, dst@, depth as nat, Some(e)));
                        return Err(e);
                    },
                }
            }
            let ghost before = names@;
            names.push(name);
            proof {
                assert(seen(names@) =~= done.insert(n)) by {
                    assert forall|m: Seq<char>| #[trigger]
                        seen(names@).contains(m) == done.insert(n).contains(m) by {
                        if seen(before).contains(m) {
                            let x = choose|x: int| 0 <= x < before.len() && (#[trigger] before[x])@ == m;
                            assert(names@[x] == before[x]);
                        }
                        assert(names@[before.len() as int]@ == n);
                        if seen(names@).contains(m) && m != n {
                            let x = choose|x: int| 0 <= x < names@.len() && (#[trigger] names@[x])@ == m;
                            assert(before[x]@ == m);
                        }
                    }
                }
                done = done.insert(n);
            }
        }
        proof {
            vs = vs.push(fs.view());
            assert(done =~= names_before(list, i + 1)) by {
                assert forall|m: Seq<char>| #[trigger]
                    names_before(list, i + 1).contains(m) == done.contains(m) by {
                    if names_before(list, i + 1).contains(m) {
                        let j = choose|j: int|
                            0 <= j < i + 1 && entry_name(#[trigger] list[j]) == Some(m);
                    }
                    assert(entry_name(list[i as int]) == Some(n));
                }
            }
        }
        i = i + 1;
    }
    let ghost b = fs.view();
    proof {
        lemma_merging_outside(a, b, s, d, done);
        lemma_under_self(s);
    }
    match fs.remove_dir(src) {
        Ok(_) => {
            proof {
                let c = fs.view();
                assert forall|q: Key| #[trigger] c.file(q) == b.file(q) by {}
                assert forall|q: Key| under(q, s) implies #[trigger] c.file(q) is None by {
                    assert(b.file(q) is None);
                }
                assert forall|q: Key| under(q, s) implies !#[trigger] c.links.contains_key(q) by {
                    assert(b.file(q) is None);
                }
                assert forall|q: Key| !under(q, s) && !under(q, d) implies #[trigger] same_entry(
                    a,
                    c,
                    q,
                ) by {
                    assert(same_entry(a, b, q));
                    assert(same_entry(b, c, q));
                }
                if apart(s, d) {
                    assert forall|o: Key| under(o, s) implies #[trigger] merged_at(a, c, s, d, o) by {
                        assert(merged_at(a, b, s, d, o));
                        assert(b.file(o) is None);
                        let p = place(o, s, d);
                        assert(under(p, d)) by {
                            assert(p.subrange(0, d.len() as int) =~= d);
                        }
                        if under(p, s) {
                            lemma_apart_below(s, d, p);
                        }
                        assert(same_entry(b, c, p));
                    }
                    assert(same_entry(b, c, d));
                    assert(same_entry(a, c, d));
                }
                assert(merge_trace(vs, c, list, src@, dst@, depth as nat, None));
            }
            Ok(())
        },
        Err(e) => {
            let e = Error::Fs(e);
            assert(merge_trace(vs, b, list, src@, dst@, depth as nat, Some(e)));
            Err(e)
        },
    }
}

/// The session entries of an index.
pub open spec fn entries_in(v: serde_json::Value) -> Seq<serde_json::Value> {
    if members(v) is Some && members(v)->0.contains_key("entries"@) && items(
        members(v)->0["entries"@],
    ) is Some {
        items(members(v)->0["entries"@])->0
    } else {
        Seq::empty()
    }
}

/// Whether session entries can be put into an index: it is an object, or
/// `null`.
pub open spec fn takes_entries(v: serde_json::Value) -> bool {
    members(v) is Some || null(v)
}

/// `w` is the index `dst` with the entries of `src` behind its own. Whatever
/// else the index says is taken from `dst`.
pub open spec fn is_merged_index(
    src: serde_json::Value,
    dst: serde_json::Value,
    w: serde_json::Value,
) -> bool {
    let base = match members(dst) {
        Some(m) => m,
        None => Map::empty(),
    };
    &&& members(w) is Some
    &&& members(w)->0.dom() == base.dom().insert("entries"@)
    &&& forall|k: Seq<char>|
        base.contains_key(k) && k != "entries"@ ==> #[trigger] members(w)->0[k] == base[k]
    &&& items(members(w)->0["entries"@]) == Some(entries_in(dst) + entries_in(src))
}

fn read_entries(v: &serde_json::Value) -> (r: Vec<serde_json::Value>)
    ensures
        r@ == entries_in(*v),
{
    if let Some(entries) = member(v, "entries") {
        if let Some(list) = array_items(entries) {
            return list;
        }
    }
    Vec::new()
}

/// Merges two session indexes: no session of either is dropped.
pub fn merge_index(src: &serde_json::Value, dst: serde_json::Value) -> (w: serde_json::Value)
    requires
        takes_entries(dst),
    ensures
        is_merged_index(*src, dst, w),
{
    let mut list = read_entries(&dst);
    let mut more = read_entries(src);
    list.append(&mut more);
    let mut w = if is_null(&dst) {
        empty_object()
    } else {
        dst
    };
    insert_member(&mut w, "entries".to_owned(), array_of(list));
    proof {
        let base = match members(dst) {
            Some(m) => m,
            None => Map::empty(),
        };
        assert(members(w)->0.dom() =~= base.dom().insert("entries"@));
    }
    w
}

/// The session index of the global directory `dir`.
pub open spec fn index_path(dir: Seq<char>) -> Seq<char> {
    join_text(dir, "sessions-index.json"@)
}

/// Whether both directories have a session index.
pub open spec fn both_indexed(v: FsView, src: Seq<char>, dst: Seq<char>) -> bool {
    v.present.contains(components(index_path(src))) && v.present.contains(
        components(index_path(dst)),
    )
}

/// The index of a directory, read.
pub open spec fn index_value(v: FsView, dir: Seq<char>) -> Option<serde_json::Value> {
    match v.text(components(index_path(dir))) {
        Some(text) => parsed(text),
        None => None,
    }
}

/// Whether the two indexes can be merged.
pub open spec fn indexes_mergeable(v: FsView, src: Seq<char>, dst: Seq<char>) -> bool {
    index_value(v, src) is Some && index_value(v, dst) is Some && takes_entries(
        index_value(v, dst)->0,
    )
}

/// What merging the session index of `src` into that of `dst` does to the file
/// system, and what comes of it.
pub open spec fn index_step(
    a: FsView,
    b: FsView,
    src: Seq<char>,
    dst: Seq<char>,
    r: Result<(), Error>,
) -> bool {
    let from = components(index_path(src));
    let to = components(index_path(dst));
    if !both_indexed(a, src, dst) {
        b == a && r is Ok
    } else {
        match r {
            Ok(_) => {
                &&& indexes_mergeable(a, src, dst)
                &&& exists|mid: FsView, w: serde_json::Value| #[trigger]
                    is_merged_index(index_value(a, src)->0, index_value(a, dst)->0, w)
                        && #[trigger] wrote(a, mid, to, encode_utf8(compact(w)))
                        && b.file(from) is None && !b.links.contains_key(from) && same_books(a, b)
                        && forall|q: Key| !under(q, from) ==> #[trigger] same_entry(mid, b, q)
            },
            Err(e) => index_fault(a, b, src, dst, e),
        }
    }
}

/// `e` reports why the two indexes are not merged: one is unreadable, one is not
/// JSON, or that of the target cannot hold entries. In each of these cases nothing
/// changes. Else the file system refused to write the one or to remove the other.
pub open spec fn index_fault(
    a: FsView,
    b: FsView,
    src: Seq<char>,
    dst: Seq<char>,
    e: Error,
) -> bool {
    let from = components(index_path(src));
    let to = components(index_path(dst));
    if a.text(from) is None || a.text(to) is None {
        b == a && e is Fs
    } else if index_value(a, src) is None || index_value(a, dst) is None {
        b == a && e is Json
    } else if !takes_entries(index_value(a, dst)->0) {
        b == a && (e matches Error::IndexShape(p) && p@ == index_path(dst))
    } else {
        &&& e is Fs
        &&& !(a.accepts.contains(from) && a.accepts.contains(to))
        &&& spoiled(a, b, to) && same_books(a, b)
    }
}

/// Merges the session index of `src_dir` into that of `dst_dir`, where both
/// have one. Moving the one over the other would drop the sessions of the
/// target from the index.
pub fn merge_sessions_index<F: Fs>(fs: &mut F, src_dir: &FilePath, dst_dir: &FilePath) -> (r: Result<
    (),
    Error,
>)
    ensures
        index_step(old(fs).view(), final(fs).view(), src_dir@, dst_dir@, r),
{
    let src = src_dir.join("sessions-index.json");
    let dst = dst_dir.join("sessions-index.json");
    if !fs.path_exists(&src) || !fs.path_exists(&dst) {
        return Ok(());
    }
    let src_text = match fs.read_to_string(&src) {
        Ok(text) => text,
        Err(e) => {
            return Err(Error::Fs(e));
        },
    };
    let dst_text = match fs.read_to_string(&dst) {
        Ok(text) => text,
        Err(e) => {
            return Err(Error::Fs(e));
        },
    };
    let src_value = match parse_json(src_text.as_str()) {
        Ok(v) => v,
        Err(message) => {
            return Err(Error::Json(message));
        },
    };
    let dst_value = match parse_json(dst_text.as_str()) {
        Ok(v) => v,
        Err(message) => {
            return Err(Error::Json(message));
        },
    };
    if !is_null(&dst_value) && object_keys(&dst_value).is_none() {
        return Err(Error::IndexShape(dst));
    }
    let w = merge_index(&src_value, dst_value);
    assert(is_merged_index(index_value(fs.view(), src_dir@)->0, index_value(
        fs.view(),
        dst_dir@,
    )->0, w));
    let text = match print_compact(&w) {
        Ok(text) => text,
        Err(message) => {
            return Err(Error::Json(message));
        },
    };
    let ghost a = fs.view();
    let bytes = text.as_str().as_bytes_vec();
    if let Err(e) = fs.write_bytes(&dst, &bytes) {
        return Err(Error::Fs(e));
    }
    let ghost mid = fs.view();
    assert(is_merged_index(index_value(a, src_dir@)->0, index_value(a, dst_dir@)->0, w) && wrote(
        a,
        mid,
        components(index_path(dst_dir@)),
        encode_utf8(compact(w)),
    ));
    match fs.remove_file(&src) {
        Ok(_) => Ok(()),
        Err(e) => Err(Error::Fs(e)),
    }
}

/// Two indexes are merged where both can be read, the one of the target can hold
/// entries and nothing is refused. The one of the target then holds the entries of
/// both, and the other is gone.
pub proof fn law_index_merge_goes_through(
    a: FsView,
    b: FsView,
    src: Seq<char>,
    dst: Seq<char>,
    r: Result<(), Error>,
)
    requires
        index_step(a, b, src, dst, r),
        both_indexed(a, src, dst),
        indexes_mergeable(a, src, dst),
        a.accepts.contains(components(index_path(src))),
        a.accepts.contains(components(index_path(dst))),
        apart(components(index_path(src)), components(index_path(dst))),
    ensures
        r is Ok,
        b.file(components(index_path(src))) is None,
        exists|w: serde_json::Value| #[trigger]
            is_merged_index(index_value(a, src)->0, index_value(a, dst)->0, w) && b.file(
                components(index_path(dst)),
            ) == Some(encode_utf8(compact(w))),
{
    let from = components(index_path(src));
    let to = components(index_path(dst));
    let (mid, w) = choose|mid: FsView, w: serde_json::Value| #[trigger]
        is_merged_index(index_value(a, src)->0, index_value(a, dst)->0, w) && #[trigger] wrote(
            a,
            mid,
            to,
            encode_utf8(compact(w)),
        ) && b.file(from) is None && !b.links.contains_key(from) && same_books(a, b)
            && forall|q: Key| !under(q, from) ==> #[trigger] same_entry(mid, b, q);
    assert(same_entry(mid, b, to));
    assert(mid.file(to) == Some(encode_utf8(compact(w))));
}

} // verus!
