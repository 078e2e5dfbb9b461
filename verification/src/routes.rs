//! Where the projects of a run come from and go, and what each leaves alone.

use vstd::prelude::*;
use vstd::string::*;

use crate::apply::active;
use crate::apply::project_trace;
use crate::apply::sessions_step;
use crate::apply::sessions_trace;
use crate::apply::Outcome;
use crate::apply::ProjectTrace;
use crate::arrive::lemma_names_apart;
use crate::encoder::encoded;
use crate::flat::flat_items;
use crate::flat::flat_trace;
use crate::flat::gap_step;
use crate::flat::item_step;
use crate::flat::unit_items;
use crate::flat::FlatTrace;
use crate::flat::Item;
use crate::frame::lemma_dir_quiet;
use crate::frame::lemma_one_above;
use crate::frame::lemma_optional_quiet;
use crate::frame::units_found;
use crate::fs::apart;
use crate::fs::unchanged_at;
use crate::fs::FsView;
use crate::home::HomeView;
use crate::laws::lemma_all_backups_quiet;
use crate::laws::lemma_joined_under;
use crate::laws::lemma_project_sessions_quiet;
use crate::laws::lemma_under_under;
use crate::migration::all_fresh;
use crate::migration::backups_step;
use crate::migration::is_prepared;
use crate::path::components;
use crate::path::is_plain;
use crate::path::join_text;
use crate::path::lemma_components_concat;
use crate::path::under;
use crate::path::FilePath;
use crate::path::Key;
use crate::places::lemma_apart_from_backups;
use crate::places::lemma_global_place;
use crate::places::projects_dir;
use crate::plan::is_settled;
use crate::plan::same_move;
use crate::plan::Migration;
use crate::scanner::describes;
use crate::scanner::global_dir;
use crate::scanner::ProjectState;
use crate::unit::is_subproject;
use crate::unit::keys_of_file;
use crate::unit::sub_target;
use crate::unit::subproject_keys;
use crate::unit::Unit;
use crate::updater::UpdateReport;

verus! {

/// Where a project comes from and where it goes.
pub type Route = (Seq<char>, Seq<char>);

/// The routes of a unit: its own, from where it was found, and those of the projects
/// that are registered below it. A unit that is where it belongs has none, and in a
/// session-only run nothing below it moves.
pub open spec fn unit_routes(m: Migration, v: FsView, u: Unit) -> Seq<Route> {
    if is_settled(u, m.session_only) {
        Seq::empty()
    } else if m.session_only {
        seq![(u.state.project_path@, u.target@)]
    } else {
        seq![(u.state.project_path@, u.target@)] + subproject_keys(
            keys_of_file(v, m.claude_json)->0,
            u.source@,
        ).map_values(|k: Seq<char>| (k, sub_target(k, u.source@, u.target@)))
    }
}

/// The routes of all units, in the order in which the projects move.
pub open spec fn routes_of(m: Migration, v: FsView, units: Seq<Unit>) -> Seq<Route>
    decreases units.len(),
{
    if units.len() == 0 {
        Seq::empty()
    } else {
        routes_of(m, v, units.drop_last()) + unit_routes(m, v, units.last())
    }
}

/// The routes of a run.
pub open spec fn routes(m: Migration, v: FsView) -> Seq<Route> {
    routes_of(m, v, m.units@)
}

/// The project was found at the start of the route and goes to its end.
pub(crate) open spec fn goes(item: Item, r: Route, home: HomeView, v: FsView) -> bool {
    describes(item.state, v, r.0, home) && item.target == r.1
}

/// The project of a run that takes the route, as the run knows it.
pub(crate) open spec fn takes_route(item: Item, r: Route, m: Migration, v: FsView) -> bool {
    &&& goes(item, r, m.claude_home@, v)
    &&& item.ends matches Some(u) ==> exists|j: int|
        0 <= j < m.units@.len() && same_move(#[trigger] m.units@[j], u)
}

/// The route starts in the directory of one of the units.
pub(crate) open spec fn starts_in(r: Route, m: Migration) -> bool {
    exists|j: int|
        0 <= j < m.units@.len() && (under(components(r.0), (#[trigger] m.units@[j]).source.key())
            || under(components(r.0), m.units@[j].target.key()))
}

/// The projects take the routes, in this order.
pub(crate) open spec fn all_take(
    items: Seq<Item>,
    rs: Seq<Route>,
    m: Migration,
    v: FsView,
) -> bool {
    &&& items.len() == rs.len()
    &&& forall|i: int|
        0 <= i < items.len() ==> takes_route(#[trigger] items[i], rs[i], m, v) && starts_in(
            rs[i],
            m,
        )
}

/// A project that is registered below another lies below it.
pub(crate) proof fn lemma_sub_under(k: Seq<char>, source: Seq<char>)
    requires
        is_subproject(k, source),
    ensures
        under(components(k), components(source)),
{
    let rest = k.skip(source.len() as int + 1);
    assert(k =~= source.push('/') + rest);
    lemma_components_concat(source, rest);
    assert(components(k).subrange(0, components(source).len() as int) =~= components(source));
}

/// The projects of one unit take its routes.
pub(crate) proof fn lemma_unit_takes(
    m: Migration,
    n: Migration,
    marked: Seq<Unit>,
    a: FsView,
    j: int,
)
    requires
        is_prepared(m, n, marked, a),
        all_fresh(m.units@),
        units_found(m, a),
        0 <= j < m.units@.len(),
        !is_settled(m.units@[j], m.session_only),
    ensures
        all_take(
            unit_items(n.units@[j], m.session_only),
            unit_routes(m, a, m.units@[j]),
            m,
            a,
        ),
{
    let u0 = m.units@[j];
    let u = n.units@[j];
    let items = unit_items(u, m.session_only);
    let rs = unit_routes(m, a, u0);
    assert(same_move(u0, marked[j]));
    assert(same_move(marked[j], u));
    assert(!marked[j].nothing_to_do);
    assert(u0.subprojects@.len() == 0);
    assert(describes(u0.state, a, u0.state.project_path@, m.claude_home@));
    assert(under(u0.source.key(), u0.source.key()) && under(u0.target.key(), u0.target.key())) by {
        assert(u0.source.key().is_prefix_of(u0.source.key()));
        assert(u0.target.key().is_prefix_of(u0.target.key()));
    }
    assert forall|i: int| 0 <= i < items.len() implies takes_route(#[trigger] items[i], rs[i], m, a)
        && starts_in(rs[i], m) by {
        if i > 0 {
            let keys = keys_of_file(a, m.claude_json)->0;
            let list = subproject_keys(keys, u0.source@);
            let f = |k: Seq<char>| is_subproject(k, u0.source@);
            assert(describes(u.subprojects@[i - 1].0, a, list[i - 1], m.claude_home@));
            assert(list.contains(list[i - 1]));
            keys.lemma_filter_contains_rev(f, list[i - 1]);
            lemma_sub_under(list[i - 1], u0.source@);
        }
        assert(same_move(m.units@[j], u));
    }
}

proof fn lemma_take_add(
    items: Seq<Item>,
    rs: Seq<Route>,
    more: Seq<Item>,
    rest: Seq<Route>,
    m: Migration,
    v: FsView,
)
    requires
        all_take(items, rs, m, v),
        all_take(more, rest, m, v),
    ensures
        all_take(items + more, rs + rest, m, v),
{
    let all = items + more;
    let way = rs + rest;
    assert forall|i: int| 0 <= i < all.len() implies takes_route(#[trigger] all[i], way[i], m, v)
        && starts_in(way[i], m) by {
        if i < items.len() {
            assert(all[i] == items[i] && way[i] == rs[i]);
        } else {
            assert(all[i] == more[i - items.len()] && way[i] == rest[i - items.len()]);
        }
    }
}

/// The projects of the first units take their routes.
proof fn lemma_items_take(m: Migration, n: Migration, marked: Seq<Unit>, a: FsView, k: int)
    requires
        is_prepared(m, n, marked, a),
        all_fresh(m.units@),
        units_found(m, a),
        0 <= k <= m.units@.len(),
    ensures
        all_take(
            flat_items(active(n.units@.take(k)), m.session_only),
            routes_of(m, a, m.units@.take(k)),
            m,
            a,
        ),
    decreases k,
{
    reveal(Seq::filter);
    if k > 0 {
        let j = k - 1;
        lemma_items_take(m, n, marked, a, j);
        assert(n.units@.take(k).drop_last() =~= n.units@.take(j));
        assert(m.units@.take(k).drop_last() =~= m.units@.take(j));
        assert(same_move(m.units@[j], marked[j]));
        assert(same_move(marked[j], n.units@[j]));
        let act = active(n.units@.take(k));
        let had = active(n.units@.take(j));
        if is_settled(m.units@[j], m.session_only) {
            assert(act == had);
            assert(routes_of(m, a, m.units@.take(k)) =~= routes_of(m, a, m.units@.take(j)));
        } else {
            lemma_unit_takes(m, n, marked, a, j);
            assert(act == had.push(n.units@[j]));
            assert(act.drop_last() =~= had);
            lemma_take_add(
                flat_items(had, m.session_only),
                routes_of(m, a, m.units@.take(j)),
                unit_items(n.units@[j], m.session_only),
                unit_routes(m, a, m.units@[j]),
                m,
                a,
            );
        }
    } else {
        assert(active(n.units@.take(0)) =~= Seq::empty());
    }
}

/// The projects of a prepared run take its routes.
pub(crate) proof fn lemma_takes_routes(m: Migration, n: Migration, marked: Seq<Unit>, a: FsView)
    requires
        is_prepared(m, n, marked, a),
        all_fresh(m.units@),
        units_found(m, a),
    ensures
        all_take(flat_items(active(n.units@), m.session_only), routes(m, a), m, a),
{
    lemma_items_take(m, n, marked, a, m.units@.len() as int);
    assert(m.units@.take(m.units@.len() as int) =~= m.units@);
    assert(n.units@.take(n.units@.len() as int) =~= n.units@);
}

/// A run with a route is not done yet.
pub(crate) proof fn lemma_routes_left(m: Migration, v: FsView, units: Seq<Unit>)
    requires
        forall|i: int| 0 <= i < units.len() ==> is_settled(#[trigger] units[i], m.session_only),
    ensures
        routes_of(m, v, units).len() == 0,
    decreases units.len(),
{
    if units.len() > 0 {
        assert(is_settled(units[units.len() - 1], m.session_only));
        assert forall|i: int| 0 <= i < units.drop_last().len() implies is_settled(
            #[trigger] units.drop_last()[i],
            m.session_only,
        ) by {
            assert(is_settled(units[i], m.session_only));
        }
        lemma_routes_left(m, v, units.drop_last());
    }
}

/// The project is none that works on `q`: neither of its global directories holds
/// it, it is none of the files in the project that are rewritten, and it lies in no
/// directory that moves along.
pub(crate) open spec fn spares(
    item: Item,
    r: Route,
    home: HomeView,
    session_only: bool,
    q: Key,
) -> bool {
    &&& !under(q, components(global_dir(r.0, home)))
    &&& !under(q, components(global_dir(r.1, home)))
    &&& (session_only || not_rewritten(item.state, q))
    &&& item.ends matches Some(u) ==> !under(q, u.source.key()) && !under(q, u.target.key())
}

/// The path `q` is neither of the files in the project that are rewritten.
pub(crate) open spec fn not_rewritten(state: ProjectState, q: Key) -> bool {
    &&& state.settings_json matches Some(p) ==> p.key() != q
    &&& state.mcp_json matches Some(p) ==> p.key() != q
}

/// Moving a project leaves alone what lies outside of its global directories and is
/// not rewritten.
pub(crate) proof fn lemma_item_quiet(
    x: FsView,
    y: FsView,
    m: Migration,
    item: Item,
    r: Route,
    out: Outcome,
    v: FsView,
    q: Key,
)
    requires
        item_step(x, y, m, item, out),
        !m.dry_run && m.claude_home@.path.len() > 0,
        goes(item, r, m.claude_home@, v),
        !under(q, components(global_dir(r.0, m.claude_home@))),
        !under(q, components(global_dir(r.1, m.claude_home@))),
        m.session_only || not_rewritten(item.state, q),
    ensures
        unchanged_at(x, y, q),
{
    if m.session_only {
        let reports = choose|reports: Vec<UpdateReport>| #[trigger]
            sessions_step(x, y, m, item.state, item.target, out.0, reports) && out.1 == reports@;
        let t = choose|t: ProjectTrace| #[trigger]
            sessions_trace(t, x, m, item.state, item.target, out.0) && t.sessions == y
                && t.session_reports == reports;
        lemma_project_sessions_quiet(t, x, m, item.state, item.target, out.0, v, r.0, q);
    } else {
        let t = choose|t: ProjectTrace| #[trigger]
            project_trace(t, x, y, m, item.state, item.target, out);
        lemma_project_sessions_quiet(t, x, m, item.state, item.target, out.0, v, r.0, q);
        lemma_optional_quiet(
            t.sessions,
            t.settings,
            item.state.settings_json,
            m,
            t.settings_reports,
            q,
        );
        lemma_optional_quiet(t.settings, y, item.state.mcp_json, m, t.mcp_reports, q);
    }
}

/// What comes behind a project leaves alone what lies in no directory that moves.
pub(crate) proof fn lemma_gap_quiet(x: FsView, y: FsView, m: Migration, item: Item, q: Key)
    requires
        gap_step(x, y, m, item),
        item.ends matches Some(u) ==> !under(q, u.source.key()) && !under(q, u.target.key()),
    ensures
        unchanged_at(x, y, q),
{
    if let Some(u) = item.ends {
        lemma_dir_quiet(x, y, m.dry_run, u, Ok(()), q);
    }
}

/// Projects that spare `q` leave it alone, one after the other.
pub(crate) proof fn lemma_flat_quiet(
    t: FlatTrace,
    m: Migration,
    items: Seq<Item>,
    rs: Seq<Route>,
    v: FsView,
    q: Key,
    from: int,
    to: int,
)
    requires
        flat_trace(t, m, items),
        !m.dry_run && m.claude_home@.path.len() > 0,
        rs.len() == items.len(),
        0 <= from <= to <= items.len(),
        forall|i: int|
            from <= i < to ==> goes(#[trigger] items[i], rs[i], m.claude_home@, v) && spares(
                items[i],
                rs[i],
                m.claude_home@,
                m.session_only,
                q,
            ),
    ensures
        unchanged_at(t.xs[from], t.xs[to], q),
    decreases to - from,
{
    if from < to {
        let i = to - 1;
        lemma_flat_quiet(t, m, items, rs, v, q, from, i);
        let out = t.outs[i];
        assert(goes(items[i], rs[i], m.claude_home@, v));
        assert(spares(items[i], rs[i], m.claude_home@, m.session_only, q));
        lemma_item_quiet(t.xs[i], t.mids[i], m, items[i], rs[i], out, v, q);
        lemma_gap_quiet(t.mids[i], t.xs[i + 1], m, items[i], q);
    }
}

/// The path `q` lies in one of the two global directories of the route.
pub open spec fn reaches(r: Route, home: HomeView, q: Key) -> bool {
    ||| under(q, components(global_dir(r.0, home)))
    ||| under(q, components(global_dir(r.1, home)))
}

/// Whether the text is an absolute path.
pub open spec fn is_rooted_path(p: Seq<char>) -> bool {
    p.len() > 0 && p[0] == '/'
}

/// The global directories of the two routes have four different names.
pub open spec fn names_differ(r: Route, s: Route) -> bool {
    &&& encoded(r.0) != encoded(s.0) && encoded(r.0) != encoded(s.1)
    &&& encoded(r.1) != encoded(s.0) && encoded(r.1) != encoded(s.1)
}

/// No project that moves holds the global directories or lies among them.
pub open spec fn data_apart(m: Migration) -> bool {
    forall|x: int|
        0 <= x < m.units@.len() ==> apart(
            projects_dir(m.claude_home@.path),
            (#[trigger] m.units@[x]).source.key(),
        ) && apart(projects_dir(m.claude_home@.path), m.units@[x].target.key())
}

/// The routes of a run are laid out in order: every unit was found at its source or
/// its target, all paths are absolute, and no directory that moves holds the global
/// directories or lies among them.
pub open spec fn is_laid_out(m: Migration, v: FsView) -> bool {
    let rs = routes(m, v);
    &&& m.claude_home@.path.len() > 0 && is_plain(m.claude_home@.local_dir)
    &&& all_fresh(m.units@) && units_found(m, v)
    &&& data_apart(m)
    &&& forall|i: int|
        0 <= i < rs.len() ==> is_rooted_path((#[trigger] rs[i]).0) && is_rooted_path(rs[i].1)
}

/// No other route has global directories of the names that route `k` leads between.
pub open spec fn has_own_names(m: Migration, v: FsView, k: int) -> bool {
    let rs = routes(m, v);
    forall|i: int| 0 <= i < rs.len() && i != k ==> names_differ(#[trigger] rs[i], rs[k])
}

/// Global directories with different names hold nothing in common.
pub(crate) proof fn lemma_reach_differs(p: Seq<char>, r: Route, home: HomeView, q: Key)
    requires
        is_rooted_path(p) && is_rooted_path(r.0) && is_rooted_path(r.1),
        encoded(p) != encoded(r.0) && encoded(p) != encoded(r.1),
        reaches(r, home, q),
    ensures
        !under(q, components(global_dir(p, home))),
{
    lemma_names_apart(p, r.0, home);
    lemma_names_apart(p, r.1, home);
    let k = components(global_dir(p, home));
    if under(q, k) {
        if under(q, components(global_dir(r.0, home))) {
            lemma_one_above(q, k, components(global_dir(r.0, home)));
        } else {
            lemma_one_above(q, k, components(global_dir(r.1, home)));
        }
    }
}

/// What a route reaches lies among the global directories, and in no project that
/// moves.
pub(crate) proof fn lemma_reach_place(m: Migration, r: Route, q: Key)
    requires
        data_apart(m),
        is_rooted_path(r.0) && is_rooted_path(r.1),
        reaches(r, m.claude_home@, q),
    ensures
        under(q, projects_dir(m.claude_home@.path)),
        forall|x: int|
            0 <= x < m.units@.len() ==> !under(q, (#[trigger] m.units@[x]).source.key()) && !under(
                q,
                m.units@[x].target.key(),
            ),
{
    let home = m.claude_home@;
    let dir = projects_dir(home.path);
    lemma_global_place(r.0, home.path);
    lemma_global_place(r.1, home.path);
    let from = components(global_dir(r.0, home));
    let to = components(global_dir(r.1, home));
    assert(from.subrange(0, dir.len() as int) =~= dir);
    assert(to.subrange(0, dir.len() as int) =~= dir);
    assert(under(q, dir)) by {
        if under(q, from) {
            lemma_under_under(q, from, dir);
        } else {
            lemma_under_under(q, to, dir);
        }
    }
    assert forall|x: int| 0 <= x < m.units@.len() implies !under(
        q,
        (#[trigger] m.units@[x]).source.key(),
    ) && !under(q, m.units@[x].target.key()) by {
        assert(apart(dir, m.units@[x].source.key()));
        if under(q, m.units@[x].source.key()) {
            lemma_one_above(q, dir, m.units@[x].source.key());
        }
        if under(q, m.units@[x].target.key()) {
            lemma_one_above(q, dir, m.units@[x].target.key());
        }
    }
}

/// The files of a project that are rewritten lie in it.
pub(crate) proof fn lemma_rewritten_under(
    state: ProjectState,
    v: FsView,
    p: Seq<char>,
    home: HomeView,
)
    requires
        describes(state, v, p, home),
        p.len() > 0,
        is_plain(home.local_dir),
    ensures
        state.settings_json matches Some(f) ==> under(f.key(), components(p)),
        state.mcp_json matches Some(f) ==> under(f.key(), components(p)),
{
    let local = join_text(p, home.local_dir);
    reveal_strlit("settings.json");
    reveal_strlit(".mcp.json");
    assert(home.local_dir.contains(home.local_dir[0]));
    lemma_joined_under(p, home.local_dir);
    lemma_joined_under(local, "settings.json"@);
    lemma_joined_under(p, ".mcp.json"@);
    lemma_under_under(
        components(join_text(local, "settings.json"@)),
        components(local),
        components(p),
    );
}

/// A project spares what another one's route reaches.
pub(crate) proof fn lemma_spares_reach(
    m: Migration,
    v: FsView,
    item: Item,
    s: Route,
    r: Route,
    q: Key,
)
    requires
        data_apart(m),
        is_plain(m.claude_home@.local_dir),
        takes_route(item, s, m, v) && starts_in(s, m),
        is_rooted_path(r.0) && is_rooted_path(r.1),
        is_rooted_path(s.0) && is_rooted_path(s.1),
        names_differ(s, r),
        reaches(r, m.claude_home@, q),
    ensures
        spares(item, s, m.claude_home@, m.session_only, q),
{
    lemma_reach_differs(s.0, r, m.claude_home@, q);
    lemma_reach_differs(s.1, r, m.claude_home@, q);
    lemma_reach_place(m, r, q);
    lemma_own_spared(m, v, item, s, q);
}

/// What lies in no unit's directory is not rewritten by a project, and moves along
/// with none.
pub(crate) proof fn lemma_own_spared(m: Migration, v: FsView, item: Item, s: Route, q: Key)
    requires
        is_plain(m.claude_home@.local_dir),
        takes_route(item, s, m, v) && starts_in(s, m),
        is_rooted_path(s.0),
        forall|x: int|
            0 <= x < m.units@.len() ==> !under(q, (#[trigger] m.units@[x]).source.key()) && !under(
                q,
                m.units@[x].target.key(),
            ),
    ensures
        not_rewritten(item.state, q),
        item.ends matches Some(u) ==> !under(q, u.source.key()) && !under(q, u.target.key()),
{
    lemma_rewritten_under(item.state, v, s.0, m.claude_home@);
    let j = choose|j: int|
        0 <= j < m.units@.len() && (under(components(s.0), (#[trigger] m.units@[j]).source.key())
            || under(components(s.0), m.units@[j].target.key()));
    if under(q, components(s.0)) {
        if under(components(s.0), m.units@[j].source.key()) {
            lemma_under_under(q, components(s.0), m.units@[j].source.key());
        } else {
            lemma_under_under(q, components(s.0), m.units@[j].target.key());
        }
    }
    if let Some(u) = item.ends {
        let x = choose|x: int| 0 <= x < m.units@.len() && same_move(#[trigger] m.units@[x], u);
        assert(!under(q, m.units@[x].source.key()));
    }
}

/// Backups change nothing about the global directories.
pub(crate) proof fn lemma_backups_spare(
    a: FsView,
    b: FsView,
    m: Migration,
    paths: Seq<FilePath>,
    q: Key,
)
    requires
        backups_step(a, b, m, paths),
        m.claude_home@.path.len() > 0,
        under(q, projects_dir(m.claude_home@.path)),
    ensures
        b.file(q) == a.file(q),
        b.links.contains_key(q) == a.links.contains_key(q),
        !a.links.contains_key(q) ==> b.dirs.contains(q) == a.dirs.contains(q),
        !a.links.contains_key(q) && a.present.contains(q) ==> b.present.contains(q),
        b.accepts.contains(q) == a.accepts.contains(q),
{
    lemma_apart_from_backups(m.claude_home@.path, q);
    lemma_all_backups_quiet(a, b, m, paths, q);
}

} // verus!
