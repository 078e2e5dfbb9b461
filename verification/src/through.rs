//! When a run goes through.

use vstd::prelude::*;

use crate::along::is_single;
use crate::along::lemma_place_reached;
use crate::along::lemma_recorded;
use crate::along::moves_whole;
use crate::along::recorded;
use crate::along::session_place;
use crate::apply::active;
use crate::apply::below_cut;
use crate::apply::dir_cut;
use crate::apply::files_at_step;
use crate::apply::followed;
use crate::apply::project_step;
use crate::apply::references_trace;
use crate::apply::rename_for;
use crate::apply::session_list;
use crate::apply::session_places;
use crate::apply::session_step;
use crate::apply::sessions_cut;
use crate::apply::sessions_fail;
use crate::apply::sessions_inside;
use crate::apply::subprojects_cut;
use crate::apply::subprojects_trace;
use crate::apply::units_trace;
use crate::apply::work_cut;
use crate::apply::work_fail;
use crate::apply::ChainTrace;
use crate::apply::Outcome;
use crate::apply::UnitTrace;
use crate::arrive::lemma_active_from;
use crate::arrive::lemma_names_apart;
use crate::config::are_of_unit;
use crate::config::is_config;
use crate::config::is_left_to;
use crate::config::lemma_active_once;
use crate::config::lemma_config_places;
use crate::config::lemma_no_other;
use crate::config::lemma_others_away;
use crate::config::lemma_own_items;
use crate::config::lemma_units_pass;
use crate::encoder::encoded;
use crate::error::Error;
use crate::flat::flat_items;
use crate::flat::flat_trace;
use crate::flat::gap_step;
use crate::flat::item_step;
use crate::flat::lemma_flatten;
use crate::flat::unit_items;
use crate::flat::FlatTrace;
use crate::flat::Item;
use crate::frame::unit_away;
use crate::frame::units_found;
use crate::fs::apart;
use crate::fs::law_moved_directory_keeps_files;
use crate::fs::moved;
use crate::fs::renamable;
use crate::fs::rename_owed;
use crate::fs::same_device;
use crate::fs::texts;
use crate::fs::unchanged_at;
use crate::fs::FsView;
use crate::home::HomeView;
use crate::laws::lemma_global_under;
use crate::laws::lemma_off_global;
use crate::laws::lemma_under_under;
use crate::laws::off_data;
use crate::migration::check_stops;
use crate::migration::is_prepared;
use crate::migration::is_refused;
use crate::migration::ran;
use crate::migration::stops;
use crate::migration::work_stops;
use crate::migration::MigrationReport;
use crate::migration::RunTrace;
use crate::path::components;
use crate::path::has_parent;
use crate::path::is_plain;
use crate::path::lemma_components_join;
use crate::path::lemma_strip_components;
use crate::path::slash;
use crate::path::strip_text;
use crate::path::under;
use crate::path::FilePath;
use crate::path::Key;
use crate::places::lemma_global_place;
use crate::places::projects_dir;
use crate::plan::all_absolute;
use crate::plan::moves_directory;
use crate::plan::preflight_ok;
use crate::plan::same_move;
use crate::plan::Migration;
use crate::routes::all_take;
use crate::routes::goes;
use crate::routes::has_own_names;
use crate::routes::is_laid_out;
use crate::routes::is_rooted_path;
use crate::routes::lemma_flat_quiet;
use crate::routes::lemma_item_quiet;
use crate::routes::lemma_own_spared;
use crate::routes::lemma_spares_reach;
use crate::routes::lemma_sub_under;
use crate::routes::lemma_takes_routes;
use crate::routes::reaches;
use crate::routes::routes;
use crate::routes::spares;
use crate::routes::starts_in;
use crate::routes::takes_route;
use crate::routes::unit_routes;
use crate::routes::Route;
use crate::scanner::describes;
use crate::scanner::global_dir;
use crate::scanner::has_global;
use crate::scanner::ProjectState;
use crate::substitution::Pairs;
use crate::unit::is_absolute;
use crate::unit::is_subproject;
use crate::unit::keys_of_file;
use crate::unit::subproject_keys;
use crate::unit::Unit;
use crate::updater::file_step;
use crate::updater::file_steps;
use crate::updater::UpdateReport;

verus! {

/// Session `i` of the project that takes the route lies in its global directory, is a
/// text by itself, and may be written where it goes.
pub open spec fn session_free(v: FsView, r: Route, home: HomeView, i: int) -> bool {
    let list = recorded(v, r.0, home);
    &&& is_single(v, list, i, r, home)
    &&& under(components(list[i]), components(global_dir(r.0, home)))
    &&& v.accepts.contains(session_place(r, home, list[i]))
}

/// Nothing stands in the way of the sessions on the route: the global directory goes
/// as a whole where nothing is, on the same device, and nothing is refused.
pub open spec fn route_free(v: FsView, r: Route, home: HomeView) -> bool {
    let from = components(global_dir(r.0, home));
    let to = components(global_dir(r.1, home));
    has_global(v, r.0, home) ==> {
        &&& moves_whole(v, r, home)
        &&& !v.present.contains(to)
        &&& v.accepts.contains(from) && v.accepts.contains(to)
        &&& same_device(v, from, projects_dir(home.path))
        &&& forall|i: int|
            0 <= i < recorded(v, r.0, home).len() ==> #[trigger] session_free(v, r, home, i)
    }
}

/// No other unit than unit `j` works at `q`, and no link is there.
pub open spec fn is_own_place(m: Migration, v: FsView, j: int, q: Key) -> bool {
    &&& !v.links.contains_key(q)
    &&& off_data(q, m.claude_home@.path)
    &&& is_left_to(q, m.units@, j)
}

/// Nothing stands in the way of the directory of unit `j`, if it has one to move: it
/// goes where nothing is, and nothing is refused.
pub open spec fn dir_free(m: Migration, v: FsView, j: int) -> bool {
    let src = m.units@[j].source.key();
    let dst = m.units@[j].target.key();
    src != dst ==> {
        &&& apart(src, dst)
        &&& is_own_place(m, v, j, src) && is_own_place(m, v, j, dst)
        &&& dst.len() > 0 ==> is_own_place(m, v, j, dst.drop_last())
        &&& v.dirs.contains(src) ==> {
            &&& v.accepts.contains(src) && v.accepts.contains(dst)
            &&& !v.present.contains(dst) && !v.dirs.contains(dst)
        }
    }
}

/// Nothing stands in the way of a run: the global directories can take entries, and
/// every project and every directory can go.
pub open spec fn is_run_free(m: Migration, v: FsView) -> bool {
    let data = projects_dir(m.claude_home@.path);
    &&& is_laid_out(m, v) && all_absolute(m.units@)
    &&& v.dirs.contains(data) && !v.links.contains_key(data) && v.writable.contains(data)
    &&& forall|k: int|
        0 <= k < routes(m, v).len() ==> has_own_names(m, v, k) && route_free(
            v,
            #[trigger] routes(m, v)[k],
            m.claude_home@,
        )
    &&& !m.session_only ==> forall|j: int| 0 <= j < m.units@.len() ==> #[trigger] dir_free(m, v, j)
}

/// The projects before `k` leave alone what its route reaches, and the directory that
/// holds the global ones.
proof fn lemma_before(
    f: FlatTrace,
    m: Migration,
    n: Migration,
    items: Seq<Item>,
    a: FsView,
    k: int,
    q: Key,
)
    requires
        n == (Migration { units: n.units, ..m }),
        !m.dry_run,
        all_take(items, routes(m, a), m, a),
        is_run_free(m, a),
        0 <= k < items.len(),
        flat_trace(f, n, items.take(k)),
        f.xs[0] == a,
        reaches(routes(m, a)[k], m.claude_home@, q) || q == projects_dir(m.claude_home@.path),
    ensures
        unchanged_at(a, f.xs[k], q),
{
    let rs = routes(m, a);
    let home = m.claude_home@;
    let first = items.take(k);
    let way = rs.take(k);
    let r = rs[k];
    assert(has_own_names(m, a, k)) by {
        assert(route_free(a, rs[k], home));
    }
    assert(is_rooted_path(r.0) && is_rooted_path(r.1));
    assert forall|i: int| 0 <= i < k implies goes(#[trigger] first[i], way[i], n.claude_home@, a)
        && spares(first[i], way[i], n.claude_home@, n.session_only, q) by {
        assert(first[i] == items[i] && way[i] == rs[i]);
        assert(takes_route(items[i], rs[i], m, a) && starts_in(rs[i], m));
        assert(is_rooted_path(rs[i].0) && is_rooted_path(rs[i].1));
        if reaches(r, home, q) {
            lemma_spares_reach(m, a, items[i], rs[i], r, q);
        } else {
            lemma_global_place(rs[i].0, home.path);
            lemma_global_place(rs[i].1, home.path);
            assert forall|x: int| 0 <= x < m.units@.len() implies !under(
                q,
                (#[trigger] m.units@[x]).source.key(),
            ) && !under(q, m.units@[x].target.key()) by {
                assert(apart(q, m.units@[x].source.key()));
            }
            lemma_own_spared(m, a, items[i], rs[i], q);
        }
    }
    lemma_flat_quiet(f, n, first, way, a, q, 0, k);
}

/// Files that are updated before leave another one alone.
proof fn lemma_update_waits(
    vs: Seq<FsView>,
    files: Seq<FilePath>,
    subs: Pairs,
    reports: Seq<UpdateReport>,
    q: Key,
    n: int,
)
    requires
        file_steps(vs, files, subs, false, reports),
        0 <= n <= reports.len(),
        forall|j: int| 0 <= j < reports.len() ==> (#[trigger] files[j]).key() != q,
    ensures
        vs[n].file(q) == vs[0].file(q),
        vs[n].accepts == vs[0].accepts,
    decreases n,
{
    if n > 0 {
        lemma_update_waits(vs, files, subs, reports, q, n - 1);
        assert(file_step(
            vs[n - 1],
            vs[n - 1 + 1],
            files[n - 1],
            subs,
            false,
            Ok(reports[n - 1]),
        ));
        assert(files[n - 1].key() != q);
    }
}

/// Updating the sessions that came along does not fail.
proof fn lemma_sessions_update(
    x: FsView,
    y: FsView,
    b: FsView,
    m: Migration,
    state: ProjectState,
    r: Route,
    a: FsView,
    e: Error,
)
    requires
        !m.dry_run && m.claude_home@.path.len() > 0,
        describes(state, a, r.0, m.claude_home@),
        has_global(a, r.0, m.claude_home@),
        is_rooted_path(r.0) && is_rooted_path(r.1),
        moves_whole(x, r, m.claude_home@),
        moved(
            x,
            y,
            components(global_dir(r.0, m.claude_home@)),
            components(global_dir(r.1, m.claude_home@)),
        ),
        forall|i: int|
            0 <= i < session_list(state).len() ==> {
                let f = #[trigger] session_list(state)[i];
                &&& is_single(x, session_list(state), i, r, m.claude_home@)
                &&& under(components(f), components(global_dir(r.0, m.claude_home@)))
                &&& x.accepts.contains(session_place(r, m.claude_home@, f))
            },
    ensures
        !session_step(
            y,
            b,
            m,
            state,
            Some((global_dir(r.0, m.claude_home@), global_dir(r.1, m.claude_home@))),
            Err(e),
        ),
{
    let home = m.claude_home@;
    let old = global_dir(r.0, home);
    let new = global_dir(r.1, home);
    let list = session_list(state);
    let from = components(old);
    let to = components(new);
    let none: Result<Vec<UpdateReport>, Error> = Err(e);
    lemma_names_apart(r.0, r.1, home);
    lemma_global_under(r.1, home);
    if session_step(y, b, m, state, Some((old, new)), none) {
        assert(state.global_project_dir->0@ == old);
        assert(sessions_inside(state, old));
        let places = session_places(state, old, new, false);
        let files = choose|files: Seq<FilePath>| #[trigger]
            files_at_step(y, b, files, places, m.subs@, false, none);
        assert(texts(files).len() == files.len());
        let (vs, reports) = choose|vs: Seq<FsView>, reports: Seq<UpdateReport>|
            #[trigger] file_steps(vs, files, m.subs@, false, reports) && vs[0] == y && vs.last()
                == b && reports.len() < files.len() && file_step(
                b,
                b,
                files[reports.len() as int],
                m.subs@,
                false,
                Err(e),
            );
        let i = reports.len() as int;
        assert forall|j: int| 0 <= j < files.len() implies (#[trigger] files[j]).key() == to
            + components(list[j]).skip(from.len() as int) && under(components(list[j]), from) by {
            assert(texts(files)[j] == files[j]@);
            assert(places[j] == followed(list[j], old, new));
            assert(under(components(list[j]), from));
            lemma_strip_components(list[j], from.len() as int);
            lemma_components_join(new, strip_text(list[j], from.len() as int));
        }
        let q = files[i].key();
        let below = components(list[i]).skip(from.len() as int);
        assert(is_single(x, list, i, r, home));
        assert(from + below =~= components(list[i]));
        law_moved_directory_keeps_files(x, y, from, to, below);
        assert(y.file(q) == x.file(components(list[i])));
        assert forall|j: int| 0 <= j < reports.len() implies (#[trigger] files[j]).key() != q by {
            if files[j].key() == q {
                let other = components(list[j]).skip(from.len() as int);
                assert((to + other).skip(to.len() as int) =~= other);
                assert((to + below).skip(to.len() as int) =~= below);
                assert(from + other =~= components(list[j]));
                assert(components(list[j]) != components(list[i]));
            }
        }
        lemma_update_waits(vs, files, m.subs@, reports, q, i);
        assert(texts(files)[i] == files[i]@);
        assert(places[i] == followed(list[i], old, new));
        assert(q == session_place(r, home, list[i]));
        assert(b.text(q) is Some && b.accepts.contains(q));
    }
}

/// The sessions of project `k` do not stop the run.
proof fn lemma_sessions_free(
    f: FlatTrace,
    m: Migration,
    n: Migration,
    items: Seq<Item>,
    a: FsView,
    b: FsView,
    k: int,
    e: Error,
)
    requires
        n == (Migration { units: n.units, ..m }),
        !m.dry_run,
        all_take(items, routes(m, a), m, a),
        is_run_free(m, a),
        0 <= k < items.len(),
        flat_trace(f, n, items.take(k)),
        f.xs[0] == a,
    ensures
        !sessions_fail(f.xs[k], b, n, items[k].state, items[k].target, e),
{
    let home = m.claude_home@;
    let r = routes(m, a)[k];
    let item = items[k];
    let x = f.xs[k];
    let from = components(global_dir(r.0, home));
    let to = components(global_dir(r.1, home));
    let data = projects_dir(home.path);
    assert(takes_route(item, r, m, a));
    assert(route_free(a, r, home));
    assert(is_rooted_path(r.0) && is_rooted_path(r.1));
    lemma_recorded(item.state, a, r.0, home);
    if has_global(a, r.0, home) {
        let list = session_list(item.state);
        assert(under(from, from) && under(to, to)) by {
            assert(from.is_prefix_of(from));
            assert(to.is_prefix_of(to));
        }
        lemma_before(f, m, n, items, a, k, from);
        lemma_before(f, m, n, items, a, k, to);
        lemma_before(f, m, n, items, a, k, data);
        lemma_names_apart(r.0, r.1, home);
        lemma_global_place(r.0, home.path);
        lemma_global_place(r.1, home.path);
        assert(rename_for(item.state, item.target, home) == Some(
            (global_dir(r.0, home), global_dir(r.1, home)),
        ));
        assert(to.drop_last() =~= data);
        assert(has_parent(to)) by {
            lemma_last_names(r.1);
        }
        assert(rename_owed(x, from, to));
        assert forall|i: int| 0 <= i < list.len() implies {
            let s = #[trigger] list[i];
            &&& is_single(x, list, i, r, home)
            &&& under(components(s), from)
            &&& x.accepts.contains(session_place(r, home, s))
        } by {
            assert(session_free(a, r, home, i));
            lemma_place_reached(r, home, list[i]);
            lemma_before(f, m, n, items, a, k, components(list[i]));
            lemma_before(f, m, n, items, a, k, session_place(r, home, list[i]));
            assert(x.file(components(list[i])) == a.file(components(list[i])));
        }
        assert(moves_whole(x, r, home));
        if exists|mid: FsView| #[trigger]
            sessions_cut(x, mid, b, n, item.state, item.target, e) {
            let mid = choose|mid: FsView| #[trigger]
                sessions_cut(x, mid, b, n, item.state, item.target, e);
            lemma_sessions_update(x, mid, b, n, item.state, r, a, e);
        }
    } else {
        assert(item.state.global_project_dir is None);
    }
}

/// The name of a global directory is no root.
proof fn lemma_last_names(p: Seq<char>)
    requires
        is_rooted_path(p),
    ensures
        encoded(p) != slash(),
{
    let e = encoded(p);
    assert(e[0] == '-');
    assert(slash()[0] == '/');
}

/// The projects of the first units come first, then those of the next unit.
pub(crate) proof fn lemma_flat_split(units: Seq<Unit>, session_only: bool, k: int, n: int)
    requires
        0 <= k < n <= units.len(),
    ensures
        ({
            let all = flat_items(units.take(n), session_only);
            let first = flat_items(units.take(k), session_only);
            let own = unit_items(units[k], session_only);
            &&& first.len() + own.len() <= all.len()
            &&& all.take(first.len() as int) == first
            &&& forall|i: int| 0 <= i < own.len() ==> all[first.len() + i] == #[trigger] own[i]
        }),
    decreases n,
{
    let all = flat_items(units.take(n), session_only);
    let first = flat_items(units.take(k), session_only);
    let own = unit_items(units[k], session_only);
    assert(units.take(n).drop_last() =~= units.take(n - 1));
    assert(units.take(n).last() == units[n - 1]);
    let before = flat_items(units.take(n - 1), session_only);
    assert(all == before + unit_items(units[n - 1], session_only));
    if n == k + 1 {
        assert(all.take(first.len() as int) =~= first);
    } else {
        lemma_flat_split(units, session_only, k, n - 1);
        assert(all.take(first.len() as int) =~= before.take(first.len() as int));
        assert forall|i: int| 0 <= i < own.len() implies all[first.len() + i]
            == #[trigger] own[i] by {
            assert(before[first.len() + i] == own[i]);
        }
    }
}

/// The units that were moved, then the project of the next one and some of those below
/// it.
pub(crate) proof fn lemma_flat_below(
    f: FlatTrace,
    t: ChainTrace,
    n: Migration,
    items: Seq<Item>,
    u: Unit,
    h: int,
    out: Outcome,
) -> (g: FlatTrace)
    requires
        !n.session_only,
        0 <= h,
        h + u.subprojects@.len() < items.len(),
        flat_trace(f, n, items.take(h)),
        forall|i: int|
            0 <= i < unit_items(u, false).len() ==> items[h + i] == #[trigger] unit_items(
                u,
                false,
            )[i],
        project_step(f.xs[h], t.vs[0], n, u.state, u.target@, out),
        subprojects_trace(t, n, u.subprojects@),
        t.outs.len() < u.subprojects@.len(),
    ensures
        flat_trace(g, n, items.take(h + 1 + t.outs.len())),
        g.xs[0] == f.xs[0],
        g.xs[h + 1 + t.outs.len()] == t.vs.last(),
{
    let own = unit_items(u, false);
    let last = h + 1 + t.outs.len();
    let g = FlatTrace {
        xs: f.xs + t.vs,
        mids: f.mids + t.vs,
        outs: f.outs + seq![out] + t.outs,
    };
    let all = items.take(last);
    assert(f.xs.len() == h + 1);
    assert forall|i: int|
        #![trigger g.outs[i]]
        0 <= i < all.len() implies item_step(g.xs[i], g.mids[i], n, all[i], g.outs[i]) && gap_step(
        g.mids[i],
        g.xs[i + 1],
        n,
        all[i],
    ) by {
        if i < h {
            assert(g.outs[i] == f.outs[i]);
            assert(g.xs[i] == f.xs[i] && g.mids[i] == f.mids[i] && g.xs[i + 1] == f.xs[i + 1]);
            assert(all[i] == items.take(h)[i]);
        } else if i == h {
            assert(all[i] == own[0]);
            assert(g.outs[i] == out);
            assert(g.mids[i] == t.vs[0] && g.xs[i + 1] == t.vs[0]);
        } else {
            let j = i - h - 1;
            assert(all[i] == own[j + 1]);
            assert(g.outs[i] == t.outs[j]);
            assert(project_step(
                t.vs[j],
                t.vs[j + 1],
                n,
                u.subprojects@[j].0,
                u.subprojects@[j].1@,
                t.outs[j],
            ));
            assert(g.xs[i] == t.vs[j] && g.mids[i] == t.vs[j + 1] && g.xs[i + 1] == t.vs[j + 1]);
        }
    }
    g
}

/// The projects of a unit leave alone what is no settings file of theirs.
proof fn lemma_refs_pass(
    t: UnitTrace,
    x: FsView,
    n: Migration,
    u: Unit,
    out: Outcome,
    rs: Seq<Route>,
    a: FsView,
    q: Key,
    k: int,
)
    requires
        references_trace(t, x, n, u, out),
        !n.session_only && !n.dry_run && n.claude_home@.path.len() > 0,
        are_of_unit(unit_items(u, false), rs, u, n, a),
        off_data(q, n.claude_home@.path),
        forall|i: int| 0 <= i < rs.len() ==> !is_config(q, (#[trigger] rs[i]).0, n.claude_home@),
        0 <= k <= u.subprojects@.len(),
    ensures
        unchanged_at(x, t.chain.vs[k], q),
    decreases k,
{
    let items = unit_items(u, false);
    let home = n.claude_home@;
    assert(goes(items[k], rs[k], home, a));
    assert(!is_config(q, rs[k].0, home));
    lemma_off_global(rs[k].0, home, q);
    lemma_off_global(rs[k].1, home, q);
    if k == 0 {
        let step = (out.0, t.reports);
        assert(item_step(x, t.project, n, items[0], step));
        lemma_item_quiet(x, t.project, n, items[0], rs[0], step, a, q);
    } else {
        lemma_refs_pass(t, x, n, u, out, rs, a, q, k - 1);
        let o = t.chain.outs[k - 1];
        assert(project_step(
            t.chain.vs[k - 1],
            t.chain.vs[k - 1 + 1],
            n,
            u.subprojects@[k - 1].0,
            u.subprojects@[k - 1].1@,
            o,
        ));
        assert(item_step(t.chain.vs[k - 1], t.chain.vs[k], n, items[k], o));
        lemma_item_quiet(t.chain.vs[k - 1], t.chain.vs[k], n, items[k], rs[k], o, a, q);
    }
}

/// What lies outside of a unit's source is no settings file of its projects, nor is the
/// source itself.
proof fn lemma_no_config(m: Migration, a: FsView, j: int, i: int, q: Key)
    requires
        !m.session_only && is_plain(m.claude_home@.local_dir),
        0 <= j < m.units@.len(),
        m.units@[j].source@.len() > 0 && m.units@[j].target@.len() > 0,
        units_found(m, a),
        0 <= i < unit_routes(m, a, m.units@[j]).len(),
        q == m.units@[j].source.key() || !under(q, m.units@[j].source.key()),
        q == m.units@[j].target.key() || !under(q, m.units@[j].target.key()),
        apart(m.units@[j].source.key(), m.units@[j].target.key()),
    ensures
        !is_config(q, unit_routes(m, a, m.units@[j])[i].0, m.claude_home@),
{
    let u = m.units@[j];
    let home = m.claude_home@;
    let rs = unit_routes(m, a, u);
    let p = rs[i].0;
    let src = u.source.key();
    let dst = u.target.key();
    assert(under(src, src) && under(dst, dst)) by {
        assert(src.is_prefix_of(src));
        assert(dst.is_prefix_of(dst));
    }
    assert(p.len() > 0 && (under(components(p), src) || under(components(p), dst))) by {
        if i > 0 {
            let keys = keys_of_file(a, m.claude_json)->0;
            let list = subproject_keys(keys, u.source@);
            let f = |k: Seq<char>| is_subproject(k, u.source@);
            assert(list.contains(list[i - 1]));
            keys.lemma_filter_contains_rev(f, list[i - 1]);
            lemma_sub_under(list[i - 1], u.source@);
        } else {
            assert(describes(u.state, a, u.source@, home) || describes(
                u.state,
                a,
                u.target@,
                home,
            ));
        }
    }
    lemma_config_places(p, home);
    if is_config(q, p, home) {
        if under(components(p), src) {
            lemma_under_under(q, components(p), src);
        } else {
            lemma_under_under(q, components(p), dst);
        }
    }
}

/// What is unit `j`'s own is, when its directory is to move, as it was found.
proof fn lemma_own_place_waits(
    w: ChainTrace,
    t: UnitTrace,
    m: Migration,
    n: Migration,
    marked: Seq<Unit>,
    a: FsView,
    out: Outcome,
    j: int,
    k: int,
    q: Key,
)
    requires
        is_prepared(m, n, marked, a),
        !m.dry_run && !m.session_only,
        is_laid_out(m, a) && all_absolute(m.units@),
        0 <= j < m.units@.len(),
        0 <= k < active(n.units@).len(),
        active(n.units@)[k] == n.units@[j],
        units_trace(w, n, active(n.units@).take(k)),
        w.vs[0] == a,
        references_trace(t, w.vs.last(), n, n.units@[j], out),
        apart(m.units@[j].source.key(), m.units@[j].target.key()),
        is_own_place(m, a, j, m.units@[j].source.key()),
        is_own_place(m, a, j, q),
        q == m.units@[j].source.key() || !under(q, m.units@[j].source.key()),
        q == m.units@[j].target.key() || !under(q, m.units@[j].target.key()),
    ensures
        unchanged_at(a, t.subprojects, q),
        same_move(m.units@[j], n.units@[j]),
{
    let home = m.claude_home@;
    let src = m.units@[j].source.key();
    let u = n.units@[j];
    let act = active(n.units@);
    let first = act.take(k);
    assert(under(src, src)) by {
        assert(src.is_prefix_of(src));
    }
    lemma_no_other(m, n, marked, a, j, src);
    assert(!u.nothing_to_do) by {
        n.units@.lemma_filter_pred(|u: Unit| !u.nothing_to_do, k);
    }
    let h = lemma_active_once(n.units@, j);
    assert(same_move(u, u));
    assert(h == k);
    assert forall|y: int| 0 <= y < k implies unit_away(#[trigger] first[y], a, home, q) by {
        assert(first[y] == act[y]);
        lemma_others_away(m, n, marked, a, j, y, q);
    }
    lemma_units_pass(w, n, first, a, q, 0, k);
    lemma_own_items(m, n, marked, a, j);
    let rs = unit_routes(m, a, m.units@[j]);
    assert(is_absolute(m.units@[j].source) && is_absolute(m.units@[j].target));
    assert forall|i: int| 0 <= i < rs.len() implies !is_config(q, (#[trigger] rs[i]).0, home) by {
        lemma_no_config(m, a, j, i, q);
    }
    lemma_refs_pass(t, w.vs.last(), n, u, out, rs, a, q, u.subprojects@.len() as int);
}

/// The directory of a unit does not stop the run.
proof fn lemma_dir_goes(
    w: ChainTrace,
    t: UnitTrace,
    m: Migration,
    n: Migration,
    marked: Seq<Unit>,
    a: FsView,
    b: FsView,
    out: Outcome,
    j: int,
    k: int,
    e: Error,
)
    requires
        is_prepared(m, n, marked, a),
        !m.dry_run && !m.session_only,
        is_run_free(m, a),
        preflight_ok(a, n),
        0 <= j < m.units@.len(),
        0 <= k < active(n.units@).len(),
        active(n.units@)[k] == n.units@[j],
        units_trace(w, n, active(n.units@).take(k)),
        w.vs[0] == a,
    ensures
        !dir_cut(t, w.vs.last(), b, n, n.units@[j], out, e),
{
    let u0 = m.units@[j];
    let u = n.units@[j];
    let src = u0.source.key();
    let dst = u0.target.key();
    assert(same_move(u0, marked[j]));
    assert(same_move(marked[j], u));
    if dir_cut(t, w.vs.last(), b, n, u, out, e) && src != dst {
        assert(dir_free(m, a, j));
        let z = t.subprojects;
        assert(under(src, src) && under(dst, dst)) by {
            assert(src.is_prefix_of(src));
            assert(dst.is_prefix_of(dst));
        }
        lemma_own_place_waits(w, t, m, n, marked, a, out, j, k, src);
        lemma_own_place_waits(w, t, m, n, marked, a, out, j, k, dst);
        if z.dirs.contains(src) {
            assert(!u.nothing_to_do) by {
                n.units@.lemma_filter_pred(|u: Unit| !u.nothing_to_do, k);
            }
            assert(moves_directory(a, n.units@[j]));
            assert(renamable(a, src, dst));
            let up = dst.drop_last();
            assert(under(dst, up)) by {
                assert(dst.subrange(0, up.len() as int) =~= up);
            }
            assert(!under(up, src)) by {
                if under(up, src) {
                    lemma_under_under(dst, up, src);
                }
            }
            lemma_own_place_waits(w, t, m, n, marked, a, out, j, k, up);
            assert(rename_owed(z, src, dst));
        }
    }
}

/// How many projects come before those of unit `k` among the units with work left.
pub(crate) open spec fn first_item(n: Migration, k: int) -> int {
    flat_items(active(n.units@).take(k), n.session_only).len() as int
}

/// The projects of the units before unit `k` were moved one after the other, and its
/// own come next.
pub(crate) proof fn lemma_moved_first(
    w: ChainTrace,
    m: Migration,
    n: Migration,
    marked: Seq<Unit>,
    a: FsView,
    k: int,
) -> (f: FlatTrace)
    requires
        is_prepared(m, n, marked, a),
        is_laid_out(m, a),
        0 <= k < active(n.units@).len(),
        units_trace(w, n, active(n.units@).take(k)),
    ensures
        ({
            let items = flat_items(active(n.units@), n.session_only);
            let own = unit_items(active(n.units@)[k], n.session_only);
            let h = first_item(n, k);
            &&& flat_trace(f, n, items.take(h))
            &&& f.xs[0] == w.vs[0] && f.xs[h] == w.vs.last()
            &&& all_take(items, routes(m, a), m, a)
            &&& h + own.len() <= items.len()
            &&& forall|i: int| 0 <= i < own.len() ==> items[h + i] == #[trigger] own[i]
        }),
{
    let act = active(n.units@);
    lemma_flat_split(act, n.session_only, k, act.len() as int);
    assert(act.take(act.len() as int) =~= act);
    lemma_takes_routes(m, n, marked, a);
    lemma_flatten(w, n, act.take(k))
}

/// The sessions of a unit, and of those below it, do not stop the run.
proof fn lemma_references_go(
    w: ChainTrace,
    m: Migration,
    n: Migration,
    marked: Seq<Unit>,
    a: FsView,
    b: FsView,
    k: int,
    e: Error,
)
    requires
        is_prepared(m, n, marked, a),
        !m.dry_run,
        is_run_free(m, a),
        0 <= k < active(n.units@).len(),
        units_trace(w, n, active(n.units@).take(k)),
        w.vs[0] == a,
    ensures
        ({
            let u = active(n.units@)[k];
            !sessions_fail(w.vs.last(), b, n, u.state, u.target@, e)
        }),
        !n.session_only ==> forall|mid: FsView, out: Outcome|
            !#[trigger] below_cut(w.vs.last(), mid, b, n, active(n.units@)[k], out, e),
{
    let u = active(n.units@)[k];
    let items = flat_items(active(n.units@), n.session_only);
    let own = unit_items(u, n.session_only);
    let h = first_item(n, k);
    let f = lemma_moved_first(w, m, n, marked, a, k);
    assert(items[h + 0] == own[0]);
    lemma_sessions_free(f, m, n, items, a, b, h, e);
    if !n.session_only {
        assert forall|mid: FsView, out: Outcome|
            !#[trigger] below_cut(w.vs.last(), mid, b, n, u, out, e) by {
            if below_cut(w.vs.last(), mid, b, n, u, out, e) {
                let t = choose|t: ChainTrace| #[trigger]
                    subprojects_cut(t, b, n, u.subprojects@, e) && t.vs[0] == mid;
                let g = lemma_flat_below(f, t, n, items, u, h, out);
                let i = t.outs.len() as int;
                assert(items[h + (1 + i)] == own[1 + i]);
                lemma_sessions_free(g, m, n, items, a, b, h + 1 + i, e);
            }
        }
    }
}

/// No unit stops the run.
proof fn lemma_unit_goes(
    w: ChainTrace,
    m: Migration,
    n: Migration,
    marked: Seq<Unit>,
    a: FsView,
    b: FsView,
    e: Error,
)
    requires
        is_prepared(m, n, marked, a),
        !m.dry_run,
        is_run_free(m, a),
        preflight_ok(a, n),
        w.vs[0] == a,
    ensures
        !work_cut(w, b, n, e),
{
    if work_cut(w, b, n, e) {
        let k = w.outs.len() as int;
        let u = active(n.units@)[k];
        let x = w.vs.last();
        lemma_references_go(w, m, n, marked, a, b, k, e);
        let (t, out) = choose|t: UnitTrace, out: Outcome| #[trigger]
            dir_cut(t, x, b, n, u, out, e);
        let j = lemma_active_from(n.units@, k);
        lemma_dir_goes(w, t, m, n, marked, a, b, out, j, k, e);
    }
}

/// A run that passes its checks goes through where nothing stands in its way: it then
/// fails at nothing but its own verification of what it did. No backup is made, every
/// global directory and every project directory goes where nothing is, on the same
/// device and past no link, the sessions are texts by themselves, and nothing is
/// refused.
pub proof fn law_run_goes_through(
    m: Migration,
    a: FsView,
    b: FsView,
    r: Result<MigrationReport, Error>,
)
    requires
        ran(m, a, b, r),
        !m.dry_run && m.no_backup,
        is_run_free(m, a),
    ensures
        r matches Err(e) ==> (b == a && is_refused(e, m, a)) || exists|
            n: Migration,
            marked: Seq<Unit>,
            t: RunTrace,
        | #[trigger]
            is_prepared(m, n, marked, a) && #[trigger] check_stops(t, a, b, n, e),
{
    if r is Err && !(b == a && is_refused(r->Err_0, m, a)) {
        let e = r->Err_0;
        let (n, marked) = choose|n: Migration, marked: Seq<Unit>| #[trigger]
            is_prepared(m, n, marked, a) && stops(n, a, b, e);
        if exists|mid: FsView, paths: Seq<FilePath>| #[trigger] work_stops(a, mid, b, n, paths, e) {
            let (mid, paths) = choose|mid: FsView, paths: Seq<FilePath>| #[trigger]
                work_stops(a, mid, b, n, paths, e);
            assert(work_fail(a, b, n, e));
            let w = choose|w: ChainTrace| #[trigger] work_cut(w, b, n, e) && w.vs[0] == a;
            lemma_unit_goes(w, m, n, marked, a, b, e);
        } else {
            let t = choose|t: RunTrace| #[trigger] check_stops(t, a, b, n, e);
            assert(is_prepared(m, n, marked, a) && check_stops(t, a, b, n, e));
        }
    }
}

} // verus!
