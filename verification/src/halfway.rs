//! What a run leaves that stops halfway.

use vstd::prelude::*;

use crate::along::is_single;
use crate::along::lemma_flat_follows;
use crate::along::lemma_turn_comes;
use crate::along::moves_whole;
use crate::along::recorded;
use crate::along::session_place;
use crate::apply::active;
use crate::apply::below_cut;
use crate::apply::dir_cut;
use crate::apply::dir_step;
use crate::apply::project_step;
use crate::apply::references_trace;
use crate::apply::sessions_fail;
use crate::apply::subprojects_cut;
use crate::apply::subprojects_trace;
use crate::apply::work_cut;
use crate::apply::work_fail;
use crate::apply::ChainTrace;
use crate::apply::Outcome;
use crate::apply::UnitTrace;
use crate::error::Error;
use crate::flat::flat_items;
use crate::flat::flat_trace;
use crate::flat::item_step;
use crate::flat::unit_items;
use crate::flat::FlatTrace;
use crate::flat::Item;
use crate::frame::lemma_dir_quiet;
use crate::fs::unchanged_at;
use crate::fs::FsView;
use crate::laws::lemma_stopped_at_quiet;
use crate::laws::lemma_stopped_backups_quiet;
use crate::migration::backups_fail;
use crate::migration::backups_step;
use crate::migration::check_stops;
use crate::migration::is_prepared;
use crate::migration::is_refused;
use crate::migration::ran;
use crate::migration::stops;
use crate::migration::work_stops;
use crate::migration::RunTrace;
use crate::path::components;
use crate::path::FilePath;
use crate::path::Key;
use crate::places::lemma_apart_from_backups;
use crate::plan::Migration;
use crate::routes::all_take;
use crate::routes::has_own_names;
use crate::routes::is_laid_out;
use crate::routes::is_rooted_path;
use crate::routes::lemma_item_quiet;
use crate::routes::lemma_reach_differs;
use crate::routes::lemma_reach_place;
use crate::routes::lemma_spares_reach;
use crate::routes::names_differ;
use crate::routes::reaches;
use crate::routes::routes;
use crate::routes::starts_in;
use crate::routes::takes_route;
use crate::substitution::replaced;
use crate::through::first_item;
use crate::through::lemma_flat_below;
use crate::through::lemma_moved_first;
use crate::unit::Unit;

verus! {

/// At `q` both states hold the same file and the same link, and where there is none
/// both or neither hold a directory.
pub open spec fn is_untouched(a: FsView, b: FsView, q: Key) -> bool {
    &&& b.file(q) == a.file(q)
    &&& b.links.contains_key(q) == a.links.contains_key(q)
    &&& !a.links.contains_key(q) ==> b.dirs.contains(q) == a.dirs.contains(q)
}

/// The sessions of project `k` have come along, with every reference in them replaced.
pub open spec fn has_followed(m: Migration, a: FsView, b: FsView, k: int) -> bool {
    let home = m.claude_home@;
    let r = routes(m, a)[k];
    let list = recorded(a, r.0, home);
    moves_whole(a, r, home) ==> forall|i: int|
        #[trigger] is_single(a, list, i, r, home) ==> b.text(session_place(r, home, list[i]))
            == Some(replaced(m.subs@, a.text(components(list[i]))->0))
}

/// The run has come to project `h`: those before it have been moved, and what belongs
/// to those behind it is as it was found.
pub open spec fn came_to(m: Migration, a: FsView, b: FsView, h: int) -> bool {
    let rs = routes(m, a);
    &&& -1 <= h <= rs.len()
    &&& forall|k: int| 0 <= k < h && k < rs.len() ==> #[trigger] has_followed(m, a, b, k)
    &&& forall|k: int, q: Key|
        h < k < rs.len() && #[trigger] reaches(rs[k], m.claude_home@, q) ==> is_untouched(a, b, q)
}

/// Every project of the run uses names of its own.
pub open spec fn have_own_names(m: Migration, v: FsView) -> bool {
    forall|k: int| 0 <= k < routes(m, v).len() ==> #[trigger] has_own_names(m, v, k)
}

/// What a step leaves alone that stops at project `h`.
spec fn stops_at(
    m: Migration,
    a: FsView,
    x: FsView,
    b: FsView,
    h: int,
) -> bool {
    forall|k: int, q: Key|
        0 <= k < routes(m, a).len() && k != h && #[trigger] reaches(
            routes(m, a)[k],
            m.claude_home@,
            q,
        ) ==> unchanged_at(x, b, q)
}

/// Where the first projects have been moved and the next one stops the run.
proof fn lemma_came_to(
    f: FlatTrace,
    m: Migration,
    n: Migration,
    items: Seq<Item>,
    backups: Seq<FilePath>,
    a: FsView,
    b: FsView,
    h: int,
)
    requires
        0 <= h < items.len(),
        flat_trace(f, n, items.take(h)),
        backups_step(a, f.xs[0], n, backups),
        n == (Migration { units: n.units, ..m }),
        !m.dry_run && m.subs@.len() > 0,
        all_take(items, routes(m, a), m, a),
        is_laid_out(m, a) && have_own_names(m, a),
        stops_at(m, a, f.xs[h], b, h),
    ensures
        came_to(m, a, b, h),
{
    let rs = routes(m, a);
    let home = m.claude_home@;
    let x = f.xs[h];
    assert forall|k: int| 0 <= k < h && k < rs.len() implies #[trigger] has_followed(
        m,
        a,
        b,
        k,
    ) by {
        let r = rs[k];
        let list = recorded(a, r.0, home);
        assert(has_own_names(m, a, k));
        if moves_whole(a, r, home) {
            assert forall|i: int| #[trigger] is_single(a, list, i, r, home) implies b.text(
                session_place(r, home, list[i]),
            ) == Some(replaced(m.subs@, a.text(components(list[i]))->0)) by {
                lemma_flat_follows(f, m, n, items, backups, a, h, k, i);
                let q = session_place(r, home, list[i]);
                assert(reaches(rs[k], home, q));
                assert(b.file(q) == x.file(q));
            }
        }
    }
    assert forall|k: int, q: Key|
        h < k < rs.len() && #[trigger] reaches(rs[k], home, q) implies is_untouched(a, b, q) by {
        assert(has_own_names(m, a, k));
        lemma_turn_comes(f, m, n, items, backups, a, h, k, q);
        assert(unchanged_at(x, b, q));
    }
}

/// A project that stops the run leaves what belongs to the others alone.
proof fn lemma_stop_spares(
    m: Migration,
    n: Migration,
    items: Seq<Item>,
    a: FsView,
    x: FsView,
    b: FsView,
    h: int,
    e: Error,
)
    requires
        0 <= h < items.len(),
        n == (Migration { units: n.units, ..m }),
        !m.dry_run,
        all_take(items, routes(m, a), m, a),
        is_laid_out(m, a) && have_own_names(m, a),
        sessions_fail(x, b, n, items[h].state, items[h].target, e),
    ensures
        stops_at(m, a, x, b, h),
{
    let rs = routes(m, a);
    let home = m.claude_home@;
    assert(takes_route(items[h], rs[h], m, a));
    assert forall|k: int, q: Key|
        0 <= k < rs.len() && k != h && #[trigger] reaches(rs[k], home, q) implies unchanged_at(
        x,
        b,
        q,
    ) by {
        assert(has_own_names(m, a, k));
        assert(names_differ(rs[h], rs[k]));
        assert(is_rooted_path(rs[k].0) && is_rooted_path(rs[k].1));
        assert(is_rooted_path(rs[h].0) && is_rooted_path(rs[h].1));
        lemma_reach_differs(rs[h].0, rs[k], home, q);
        lemma_reach_differs(rs[h].1, rs[k], home, q);
        lemma_stopped_at_quiet(x, b, n, items[h].state, items[h].target, e, a, rs[h].0, q);
    }
}

/// A project that moves, and a directory that then does not, leave what belongs to the
/// other projects alone.
proof fn lemma_last_spares(
    m: Migration,
    n: Migration,
    items: Seq<Item>,
    a: FsView,
    x: FsView,
    z: FsView,
    b: FsView,
    h: int,
    out: Outcome,
    u: Unit,
    e: Error,
)
    requires
        0 <= h < items.len(),
        n == (Migration { units: n.units, ..m }),
        !m.dry_run,
        all_take(items, routes(m, a), m, a),
        is_laid_out(m, a) && have_own_names(m, a),
        item_step(x, z, n, items[h], out),
        items[h].ends == Some(u),
        dir_step(z, b, n.dry_run, u, Err(e)),
    ensures
        stops_at(m, a, x, b, h),
{
    let rs = routes(m, a);
    let home = m.claude_home@;
    assert(takes_route(items[h], rs[h], m, a) && starts_in(rs[h], m));
    assert forall|k: int, q: Key|
        0 <= k < rs.len() && k != h && #[trigger] reaches(rs[k], home, q) implies unchanged_at(
        x,
        b,
        q,
    ) by {
        assert(has_own_names(m, a, k));
        assert(names_differ(rs[h], rs[k]));
        assert(is_rooted_path(rs[k].0) && is_rooted_path(rs[k].1));
        assert(is_rooted_path(rs[h].0) && is_rooted_path(rs[h].1));
        lemma_spares_reach(m, a, items[h], rs[h], rs[k], q);
        lemma_item_quiet(x, z, n, items[h], rs[h], out, a, q);
        lemma_dir_quiet(z, b, n.dry_run, u, Err(e), q);
    }
}

/// A run that stops at the directory of a unit has come to the last project of it.
proof fn lemma_dir_stops(
    f: FlatTrace,
    t: UnitTrace,
    m: Migration,
    n: Migration,
    items: Seq<Item>,
    backups: Seq<FilePath>,
    a: FsView,
    b: FsView,
    h: int,
    u: Unit,
    out: Outcome,
    e: Error,
)
    requires
        !n.session_only,
        0 <= h,
        h + u.subprojects@.len() < items.len(),
        flat_trace(f, n, items.take(h)),
        backups_step(a, f.xs[0], n, backups),
        forall|i: int|
            0 <= i < unit_items(u, false).len() ==> items[h + i] == #[trigger] unit_items(
                u,
                false,
            )[i],
        n == (Migration { units: n.units, ..m }),
        !m.dry_run && m.subs@.len() > 0,
        all_take(items, routes(m, a), m, a),
        is_laid_out(m, a) && have_own_names(m, a),
        dir_cut(t, f.xs[h], b, n, u, out, e),
    ensures
        came_to(m, a, b, h + u.subprojects@.len()),
{
    let own = unit_items(u, false);
    let s = u.subprojects@.len() as int;
    let last = h + s;
    assert(references_trace(t, f.xs[h], n, u, out));
    let step = (out.0, t.reports);
    assert(items[h + s] == own[s]);
    if s == 0 {
        assert(item_step(f.xs[h], t.project, n, items[h], step));
        lemma_last_spares(m, n, items, a, f.xs[h], t.subprojects, b, h, step, u, e);
        lemma_came_to(f, m, n, items, backups, a, b, h);
    } else {
        let c = ChainTrace { vs: t.chain.vs.drop_last(), outs: t.chain.outs.drop_last() };
        assert(subprojects_trace(c, n, u.subprojects@)) by {
            assert forall|i: int|
                #![trigger c.outs[i]]
                0 <= i < c.outs.len() implies project_step(
                c.vs[i],
                c.vs[i + 1],
                n,
                u.subprojects@[i].0,
                u.subprojects@[i].1@,
                c.outs[i],
            ) by {
                assert(c.outs[i] == t.chain.outs[i]);
            }
        }
        let g = lemma_flat_below(f, c, n, items, u, h, step);
        assert(g.xs[last] == t.chain.vs[s - 1]);
        let o = t.chain.outs[s - 1];
        assert(project_step(
            t.chain.vs[s - 1],
            t.chain.vs[s - 1 + 1],
            n,
            u.subprojects@[s - 1].0,
            u.subprojects@[s - 1].1@,
            o,
        ));
        assert(item_step(g.xs[last], t.subprojects, n, items[last], o));
        lemma_last_spares(m, n, items, a, g.xs[last], t.subprojects, b, last, o, u, e);
        lemma_came_to(g, m, n, items, backups, a, b, last);
    }
}

/// A run that stops at a project below a unit has come to it.
proof fn lemma_below_stops(
    f: FlatTrace,
    t: ChainTrace,
    m: Migration,
    n: Migration,
    items: Seq<Item>,
    backups: Seq<FilePath>,
    a: FsView,
    b: FsView,
    h: int,
    u: Unit,
    out: Outcome,
    e: Error,
)
    requires
        !n.session_only,
        0 <= h,
        h + u.subprojects@.len() < items.len(),
        flat_trace(f, n, items.take(h)),
        backups_step(a, f.xs[0], n, backups),
        forall|i: int|
            0 <= i < unit_items(u, false).len() ==> items[h + i] == #[trigger] unit_items(
                u,
                false,
            )[i],
        n == (Migration { units: n.units, ..m }),
        !m.dry_run && m.subs@.len() > 0,
        all_take(items, routes(m, a), m, a),
        is_laid_out(m, a) && have_own_names(m, a),
        project_step(f.xs[h], t.vs[0], n, u.state, u.target@, out),
        subprojects_cut(t, b, n, u.subprojects@, e),
    ensures
        came_to(m, a, b, h + 1 + t.outs.len()),
{
    let own = unit_items(u, false);
    let i = t.outs.len() as int;
    let g = lemma_flat_below(f, t, n, items, u, h, out);
    assert(items[h + (1 + i)] == own[1 + i]);
    lemma_stop_spares(m, n, items, a, t.vs.last(), b, h + 1 + i, e);
    lemma_came_to(g, m, n, items, backups, a, b, h + 1 + i);
}

/// How far a run has come that stops at a unit.
proof fn lemma_work_stopped(
    w: ChainTrace,
    m: Migration,
    n: Migration,
    marked: Seq<Unit>,
    backups: Seq<FilePath>,
    a: FsView,
    b: FsView,
    e: Error,
)
    requires
        is_prepared(m, n, marked, a),
        !m.dry_run && m.subs@.len() > 0,
        is_laid_out(m, a) && have_own_names(m, a),
        backups_step(a, w.vs[0], n, backups),
        work_cut(w, b, n, e),
    ensures
        exists|h: int| #[trigger] came_to(m, a, b, h),
{
    let k = w.outs.len() as int;
    let u = active(n.units@)[k];
    let x = w.vs.last();
    let items = flat_items(active(n.units@), n.session_only);
    let own = unit_items(u, n.session_only);
    let h = first_item(n, k);
    let f = lemma_moved_first(w, m, n, marked, a, k);
    assert(items[h + 0] == own[0]);
    if sessions_fail(x, b, n, u.state, u.target@, e) {
        lemma_stop_spares(m, n, items, a, x, b, h, e);
        lemma_came_to(f, m, n, items, backups, a, b, h);
    } else if exists|mid: FsView, out: Outcome| #[trigger] below_cut(x, mid, b, n, u, out, e) {
        let (mid, out) = choose|mid: FsView, out: Outcome| #[trigger]
            below_cut(x, mid, b, n, u, out, e);
        let t = choose|t: ChainTrace| #[trigger]
            subprojects_cut(t, b, n, u.subprojects@, e) && t.vs[0] == mid;
        lemma_below_stops(f, t, m, n, items, backups, a, b, h, u, out, e);
    } else {
        let (t, out) = choose|t: UnitTrace, out: Outcome| #[trigger] dir_cut(t, x, b, n, u, out, e);
        lemma_dir_stops(f, t, m, n, items, backups, a, b, h, u, out, e);
    }
}

/// A run that stops halfway can be picked up: it was refused and nothing is different,
/// or it has come to one of its projects, with those before it moved and those behind
/// it as they were found, or all its work is done and does not verify. No two projects
/// use global directories of one name.
pub proof fn law_stopped_run_can_go_on(m: Migration, a: FsView, b: FsView, e: Error)
    requires
        ran(m, a, b, Err(e)),
        !m.dry_run && m.subs@.len() > 0,
        is_laid_out(m, a) && have_own_names(m, a),
    ensures
        ({
            ||| b == a && is_refused(e, m, a)
            ||| exists|h: int| #[trigger] came_to(m, a, b, h)
            ||| exists|n: Migration, marked: Seq<Unit>, t: RunTrace| #[trigger]
                is_prepared(m, n, marked, a) && #[trigger] check_stops(t, a, b, n, e)
        }),
{
    if !(b == a && is_refused(e, m, a)) {
        let (n, marked) = choose|n: Migration, marked: Seq<Unit>| #[trigger]
            is_prepared(m, n, marked, a) && stops(n, a, b, e);
        if backups_fail(a, b, n, e) {
            lemma_backups_stopped(m, n, a, b, e);
        } else if exists|mid: FsView, paths: Seq<FilePath>| #[trigger]
            work_stops(a, mid, b, n, paths, e) {
            let (mid, paths) = choose|mid: FsView, paths: Seq<FilePath>| #[trigger]
                work_stops(a, mid, b, n, paths, e);
            assert(work_fail(mid, b, n, e));
            let w = choose|w: ChainTrace| #[trigger] work_cut(w, b, n, e) && w.vs[0] == mid;
            lemma_work_stopped(w, m, n, marked, paths, a, b, e);
        } else {
            let t = choose|t: RunTrace| #[trigger] check_stops(t, a, b, n, e);
            assert(is_prepared(m, n, marked, a) && check_stops(t, a, b, n, e));
        }
    }
}

/// A run that stops at a backup has come to none of its projects.
proof fn lemma_backups_stopped(m: Migration, n: Migration, a: FsView, b: FsView, e: Error)
    requires
        n == (Migration { units: n.units, ..m }),
        is_laid_out(m, a),
        backups_fail(a, b, n, e),
    ensures
        came_to(m, a, b, -1),
{
    let rs = routes(m, a);
    let home = m.claude_home@;
    assert forall|k: int, q: Key|
        -1 < k < rs.len() && #[trigger] reaches(rs[k], home, q) implies is_untouched(a, b, q) by {
        assert(is_rooted_path(rs[k].0) && is_rooted_path(rs[k].1));
        lemma_reach_place(m, rs[k], q);
        lemma_apart_from_backups(home.path, q);
        lemma_stopped_backups_quiet(a, b, n, e, q);
    }
}

} // verus!
