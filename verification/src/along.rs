//! What moves along with the projects of a run.

use vstd::prelude::*;
use vstd::string::*;

use crate::apply::active;
use crate::apply::all_reports;
use crate::apply::followed;
use crate::apply::project_trace;
use crate::apply::rename_view;
use crate::apply::session_list;
use crate::apply::sessions_inside;
use crate::apply::sessions_step;
use crate::apply::sessions_trace;
use crate::apply::units_trace;
use crate::apply::ChainTrace;
use crate::apply::Outcome;
use crate::apply::ProjectTrace;
use crate::arrive::lemma_names_apart;
use crate::encoder::encoded;
use crate::flat::flat_items;
use crate::flat::flat_trace;
use crate::flat::gap_step;
use crate::flat::item_step;
use crate::flat::lemma_flatten;
use crate::flat::FlatTrace;
use crate::flat::Item;
use crate::frame::behind_no_link;
use crate::frame::lemma_log_quiet;
use crate::frame::lemma_optional_quiet;
use crate::frame::lemma_repoint_quiet;
use crate::frame::units_found;
use crate::fs::texts;
use crate::fs::unchanged_at;
use crate::fs::FsView;
use crate::home::HomeView;
use crate::laws::law_session_file_follows;
use crate::laws::lemma_global_under;
use crate::laws::lemma_joined_under;
use crate::laws::lemma_shared_quiet;
use crate::migration::all_fresh;
use crate::migration::all_settled;
use crate::migration::backups_step;
use crate::migration::goes_through;
use crate::migration::is_prepared;
use crate::migration::ran;
use crate::migration::run_trace;
use crate::migration::run_work;
use crate::migration::MigrationReport;
use crate::migration::RunTrace;
use crate::path::components;
use crate::path::lemma_strip_components;
use crate::path::strip_text;
use crate::path::under;
use crate::path::FilePath;
use crate::path::Key;
use crate::places::lemma_apart_from_backups;
use crate::places::projects_dir;
use crate::plan::if_some;
use crate::plan::reference_views;
use crate::plan::Migration;
use crate::relink::refs_report;
use crate::relink::relink_log;
use crate::relink::rows_of;
use crate::routes::all_take;
use crate::routes::goes;
use crate::routes::has_own_names;
use crate::routes::is_laid_out;
use crate::routes::is_rooted_path;
use crate::routes::lemma_backups_spare;
use crate::routes::lemma_flat_quiet;
use crate::routes::lemma_gap_quiet;
use crate::routes::lemma_own_spared;
use crate::routes::lemma_reach_place;
use crate::routes::lemma_routes_left;
use crate::routes::lemma_spares_reach;
use crate::routes::lemma_takes_routes;
use crate::routes::not_rewritten;
use crate::routes::reaches;
use crate::routes::routes;
use crate::routes::spares;
use crate::routes::takes_route;
use crate::routes::Route;
use crate::scanner::describes;
use crate::scanner::global_dir;
use crate::scanner::global_entries;
use crate::scanner::has_global;
use crate::scanner::index_of;
use crate::scanner::sessions_of;
use crate::scanner::ProjectState;
use crate::substitution::replaced;
use crate::unit::Unit;
use crate::updater::UpdateReport;

verus! {

/// The sessions that are recorded for the project `p`, with their index at the end.
pub open spec fn recorded(v: FsView, p: Seq<char>, home: HomeView) -> Seq<Seq<char>> {
    let entries = global_entries(v, p, home);
    sessions_of(v, entries) + match index_of(entries) {
        Some(index) => seq![index],
        None => Seq::empty(),
    }
}

/// What is found of a project names its sessions.
pub(crate) proof fn lemma_recorded(state: ProjectState, v: FsView, p: Seq<char>, home: HomeView)
    requires
        describes(state, v, p, home),
    ensures
        session_list(state) == recorded(v, p, home),
{
    assert(if_some(state.sessions_index) =~= match index_of(global_entries(v, p, home)) {
        Some(index) => seq![index],
        None => Seq::empty(),
    });
}

/// Where the session at `f` is to be found once its project has taken the route.
pub open spec fn session_place(r: Route, home: HomeView, f: Seq<char>) -> Key {
    components(followed(f, global_dir(r.0, home), global_dir(r.1, home)))
}

/// The global directory of the route moves as a whole: nothing is in its place yet,
/// and no link is on the way.
pub open spec fn moves_whole(v: FsView, r: Route, home: HomeView) -> bool {
    let from = components(global_dir(r.0, home));
    let to = components(global_dir(r.1, home));
    &&& encoded(r.0) != encoded(r.1)
    &&& v.dirs.contains(from) && !v.links.contains_key(from)
    &&& !v.dirs.contains(to) && !v.links.contains_key(to)
}

/// Session `i` among those listed can be read and rewritten by itself: it is a text,
/// no link leads to it or away from where it goes, and it is listed once.
pub open spec fn is_single(
    v: FsView,
    list: Seq<Seq<char>>,
    i: int,
    r: Route,
    home: HomeView,
) -> bool {
    &&& 0 <= i < list.len()
    &&& v.text(components(list[i])) is Some
    &&& !v.links.contains_key(components(list[i]))
    &&& !v.links.contains_key(session_place(r, home, list[i]))
    &&& forall|j: int|
        0 <= j < list.len() && j != i ==> components(#[trigger] list[j]) != components(list[i])
}

/// The sessions of a project that moves lie in its global directory.
proof fn lemma_inside(
    t: ProjectTrace,
    x: FsView,
    m: Migration,
    item: Item,
    r: Route,
    out: Outcome,
    v: FsView,
    i: int,
)
    requires
        sessions_trace(t, x, m, item.state, item.target, out.0),
        !m.dry_run,
        goes(item, r, m.claude_home@, v),
        has_global(v, r.0, m.claude_home@),
        0 <= i < session_list(item.state).len(),
    ensures
        under(
            components(session_list(item.state)[i]),
            components(global_dir(r.0, m.claude_home@)),
        ),
{
    assert(sessions_inside(item.state, item.state.global_project_dir->0@));
}

/// Of a project that moves there is a trace of its sessions.
pub(crate) proof fn lemma_sessions_of_item(
    x: FsView,
    y: FsView,
    m: Migration,
    item: Item,
    out: Outcome,
) -> (t: ProjectTrace)
    requires
        item_step(x, y, m, item, out),
    ensures
        sessions_trace(t, x, m, item.state, item.target, out.0),
        m.session_only ==> t.sessions == y && out.1 == t.session_reports@,
        !m.session_only ==> project_trace(t, x, y, m, item.state, item.target, out),
{
    if m.session_only {
        let reports = choose|reports: Vec<UpdateReport>| #[trigger]
            sessions_step(x, y, m, item.state, item.target, out.0, reports) && out.1 == reports@;
        choose|t: ProjectTrace| #[trigger]
            sessions_trace(t, x, m, item.state, item.target, out.0) && t.sessions == y
                && t.session_reports == reports
    } else {
        choose|t: ProjectTrace| #[trigger]
            project_trace(t, x, y, m, item.state, item.target, out)
    }
}

/// A session arrives in the global directory of the target.
pub(crate) proof fn lemma_place_reached(r: Route, home: HomeView, f: Seq<char>)
    requires
        home.path.len() > 0,
        under(components(f), components(global_dir(r.0, home))),
    ensures
        reaches(r, home, components(f)),
        reaches(r, home, session_place(r, home, f)),
        under(session_place(r, home, f), components(global_dir(r.1, home))),
{
    let n = components(global_dir(r.0, home)).len() as int;
    lemma_strip_components(f, n);
    lemma_global_under(r.1, home);
    lemma_joined_under(global_dir(r.1, home), strip_text(f, n));
}

/// A project brings a session along.
proof fn lemma_item_follows(
    x: FsView,
    y: FsView,
    m: Migration,
    item: Item,
    r: Route,
    out: Outcome,
    v: FsView,
    i: int,
)
    requires
        item_step(x, y, m, item, out),
        !m.dry_run && m.subs@.len() > 0 && m.claude_home@.path.len() > 0,
        goes(item, r, m.claude_home@, v),
        has_global(v, r.0, m.claude_home@),
        is_rooted_path(r.0) && is_rooted_path(r.1),
        moves_whole(x, r, m.claude_home@),
        is_single(x, session_list(item.state), i, r, m.claude_home@),
        m.session_only || not_rewritten(
            item.state,
            session_place(r, m.claude_home@, session_list(item.state)[i]),
        ),
    ensures
        y.text(session_place(r, m.claude_home@, session_list(item.state)[i])) == Some(
            replaced(m.subs@, x.text(components(session_list(item.state)[i]))->0),
        ),
{
    let home = m.claude_home@;
    let q = session_place(r, home, session_list(item.state)[i]);
    lemma_names_apart(r.0, r.1, home);
    let t = lemma_sessions_of_item(x, y, m, item, out);
    assert(rename_view(out.0) == Some((global_dir(r.0, home), global_dir(r.1, home))));
    law_session_file_follows(t, x, m, item.state, item.target, out.0, i);
    if !m.session_only {
        lemma_optional_quiet(
            t.sessions,
            t.settings,
            item.state.settings_json,
            m,
            t.settings_reports,
            q,
        );
        lemma_optional_quiet(t.settings, y, item.state.mcp_json, m, t.mcp_reports, q);
    }
}

/// What the projects of a run do, one after the other, and the routes that they take.
pub(crate) proof fn lemma_flat_run(
    m: Migration,
    n: Migration,
    marked: Seq<Unit>,
    t: RunTrace,
    a: FsView,
    b: FsView,
) -> (f: FlatTrace)
    requires
        is_prepared(m, n, marked, a),
        all_fresh(m.units@),
        units_found(m, a),
        run_work(t, n, a, b),
    ensures
        flat_trace(f, n, flat_items(active(n.units@), n.session_only)),
        f.xs[0] == t.backed_up,
        f.xs.last() == t.moved,
        all_reports(f.outs) == t.reports,
        all_take(flat_items(active(n.units@), n.session_only), routes(m, a), m, a),
{
    let w = choose|w: ChainTrace| #[trigger]
        units_trace(w, n, active(n.units@)) && w.vs[0] == t.backed_up && w.vs.last() == t.moved
            && t.renames == w.outs.map_values(|o: Outcome| o.0) && t.reports == all_reports(w.outs);
    lemma_takes_routes(m, n, marked, a);
    lemma_flatten(w, n, active(n.units@))
}

/// Of the first `h` projects, those before `k` and those behind it leave alone what its
/// route reaches.
pub(crate) proof fn lemma_reach_kept(
    f: FlatTrace,
    m: Migration,
    n: Migration,
    items: Seq<Item>,
    a: FsView,
    h: int,
    k: int,
    q: Key,
    from: int,
    to: int,
)
    requires
        0 <= h <= items.len(),
        flat_trace(f, n, items.take(h)),
        n == (Migration { units: n.units, ..m }),
        !m.dry_run,
        all_take(items, routes(m, a), m, a),
        is_laid_out(m, a) && has_own_names(m, a, k),
        0 <= k < items.len(),
        reaches(routes(m, a)[k], m.claude_home@, q),
        0 <= from <= to <= h,
        to <= k || k < from,
    ensures
        unchanged_at(f.xs[from], f.xs[to], q),
{
    let rs = routes(m, a);
    let r = rs[k];
    let first = items.take(h);
    let way = rs.take(h);
    assert(is_rooted_path(r.0) && is_rooted_path(r.1));
    assert forall|i: int| from <= i < to implies goes(
        #[trigger] first[i],
        way[i],
        n.claude_home@,
        a,
    ) && spares(first[i], way[i], n.claude_home@, n.session_only, q) by {
        assert(first[i] == items[i] && way[i] == rs[i]);
        assert(takes_route(items[i], rs[i], m, a));
        assert(is_rooted_path(rs[i].0) && is_rooted_path(rs[i].1));
        lemma_spares_reach(m, a, items[i], rs[i], r, q);
    }
    lemma_flat_quiet(f, n, first, way, a, q, from, to);
}

/// What is found in a global directory behind the units is still there at the end.
pub(crate) proof fn lemma_session_stays(t: RunTrace, m: Migration, a: FsView, b: FsView, q: Key)
    requires
        run_work(t, m, a, b),
        m.claude_home@.path.len() > 0,
        under(q, projects_dir(m.claude_home@.path)),
        behind_no_link(q, m, a),
        m.history_jsonl matches Some(p) ==> p.key() != q,
        m.claude_json matches Some(p) ==> p.key() != q,
    ensures
        b.text(q) == t.moved.text(q),
{
    lemma_repoint_quiet(
        t.moved,
        t.repointed,
        m,
        t.outcome.relink_candidates@,
        t.entries,
        t.failures,
        a,
        q,
    );
    lemma_apart_from_backups(m.claude_home@.path, q);
    lemma_log_quiet(
        t.repointed,
        t.logged,
        t.entries.len() > 0,
        m,
        texts(t.backups),
        "relink.tsv"@,
        relink_log(rows_of(t.entries)),
        t.log,
        q,
    );
    let refs = t.outcome.text_reference_findings@;
    lemma_log_quiet(
        t.logged,
        t.reported,
        !m.dry_run && refs.len() > 0,
        m,
        texts(t.backups),
        "textrefs.tsv"@,
        refs_report(reference_views(refs)),
        t.text_log,
        q,
    );
    lemma_shared_quiet(t.reported, t.history, b, m, t.history_reports, t.json_reports, q);
    assert(b.file(q) == t.moved.file(q));
}

/// What the route of a project reaches is as it was found until its turn comes.
pub(crate) proof fn lemma_turn_comes(
    f: FlatTrace,
    m: Migration,
    n: Migration,
    items: Seq<Item>,
    backups: Seq<FilePath>,
    a: FsView,
    h: int,
    k: int,
    q: Key,
)
    requires
        0 <= h <= items.len(),
        flat_trace(f, n, items.take(h)),
        backups_step(a, f.xs[0], n, backups),
        n == (Migration { units: n.units, ..m }),
        !m.dry_run,
        all_take(items, routes(m, a), m, a),
        is_laid_out(m, a) && has_own_names(m, a, k),
        h <= k < items.len(),
        reaches(routes(m, a)[k], m.claude_home@, q),
    ensures
        f.xs[h].file(q) == a.file(q),
        f.xs[h].links.contains_key(q) == a.links.contains_key(q),
        !a.links.contains_key(q) ==> f.xs[h].dirs.contains(q) == a.dirs.contains(q),
        !a.links.contains_key(q) && a.present.contains(q) ==> f.xs[h].present.contains(q),
{
    let r = routes(m, a)[k];
    assert(is_rooted_path(r.0) && is_rooted_path(r.1));
    lemma_reach_place(m, r, q);
    lemma_backups_spare(a, f.xs[0], n, backups, q);
    lemma_reach_kept(f, m, n, items, a, h, k, q, 0, h);
}

/// The first projects of a trace.
pub(crate) proof fn lemma_trace_start(
    f: FlatTrace,
    n: Migration,
    items: Seq<Item>,
    k: int,
) -> (g: FlatTrace)
    requires
        flat_trace(f, n, items),
        0 <= k <= items.len(),
    ensures
        flat_trace(g, n, items.take(k)),
        forall|i: int| 0 <= i <= k ==> #[trigger] g.xs[i] == f.xs[i],
{
    let g = FlatTrace { xs: f.xs.take(k + 1), mids: f.mids.take(k), outs: f.outs.take(k) };
    assert forall|i: int|
        #![trigger g.outs[i]]
        0 <= i < k implies item_step(g.xs[i], g.mids[i], n, items.take(k)[i], g.outs[i])
        && gap_step(g.mids[i], g.xs[i + 1], n, items.take(k)[i]) by {
        assert(g.outs[i] == f.outs[i]);
    }
    g
}

/// A session can still move when the turn of its project comes.
pub(crate) proof fn lemma_still_single(
    f: FlatTrace,
    m: Migration,
    n: Migration,
    items: Seq<Item>,
    backups: Seq<FilePath>,
    a: FsView,
    h: int,
    k: int,
    i: int,
)
    requires
        0 <= h <= items.len(),
        flat_trace(f, n, items.take(h)),
        backups_step(a, f.xs[0], n, backups),
        n == (Migration { units: n.units, ..m }),
        !m.dry_run,
        all_take(items, routes(m, a), m, a),
        is_laid_out(m, a) && has_own_names(m, a, k),
        0 <= k < h,
        moves_whole(a, routes(m, a)[k], m.claude_home@),
        is_single(
            a,
            recorded(a, routes(m, a)[k].0, m.claude_home@),
            i,
            routes(m, a)[k],
            m.claude_home@,
        ),
    ensures
        ({
            let r = routes(m, a)[k];
            let list = session_list(items[k].state);
            let home = m.claude_home@;
            &&& list == recorded(a, r.0, home)
            &&& moves_whole(f.xs[k], r, home)
            &&& is_single(f.xs[k], list, i, r, home)
            &&& f.xs[k].text(components(list[i])) == a.text(components(list[i]))
            &&& reaches(r, home, components(list[i]))
            &&& reaches(r, home, session_place(r, home, list[i]))
            &&& under(session_place(r, home, list[i]), components(global_dir(r.1, home)))
            &&& a.present.contains(components(list[i])) ==> f.xs[k].present.contains(
                components(list[i]),
            )
        }),
{
    let r = routes(m, a)[k];
    let home = m.claude_home@;
    let item = items[k];
    let list = session_list(item.state);
    let x = f.xs[k];
    assert(takes_route(item, r, m, a));
    assert(is_rooted_path(r.0) && is_rooted_path(r.1));
    lemma_recorded(item.state, a, r.0, home);
    let out = f.outs[k];
    assert(items.take(h)[k] == item);
    let s = lemma_sessions_of_item(f.xs[k], f.mids[k], n, item, out);
    lemma_inside(s, x, n, item, r, out, a, i);
    lemma_place_reached(r, home, list[i]);
    let from = components(global_dir(r.0, home));
    let to = components(global_dir(r.1, home));
    assert(under(from, from) && under(to, to)) by {
        assert(from.is_prefix_of(from));
        assert(to.is_prefix_of(to));
    }
    let g = lemma_trace_start(f, n, items.take(h), k);
    assert(items.take(h).take(k) =~= items.take(k));
    assert(g.xs[0] == f.xs[0] && g.xs[k] == x);
    lemma_turn_comes(g, m, n, items, backups, a, k, k, from);
    lemma_turn_comes(g, m, n, items, backups, a, k, k, to);
    lemma_turn_comes(g, m, n, items, backups, a, k, k, components(list[i]));
    lemma_turn_comes(g, m, n, items, backups, a, k, k, session_place(r, home, list[i]));
}

/// Of the first `h` projects, project `k` has brought its session `i` along.
pub(crate) proof fn lemma_flat_follows(
    f: FlatTrace,
    m: Migration,
    n: Migration,
    items: Seq<Item>,
    backups: Seq<FilePath>,
    a: FsView,
    h: int,
    k: int,
    i: int,
)
    requires
        0 <= h <= items.len(),
        flat_trace(f, n, items.take(h)),
        backups_step(a, f.xs[0], n, backups),
        n == (Migration { units: n.units, ..m }),
        !m.dry_run && m.subs@.len() > 0,
        all_take(items, routes(m, a), m, a),
        is_laid_out(m, a) && has_own_names(m, a, k),
        0 <= k < h,
        moves_whole(a, routes(m, a)[k], m.claude_home@),
        is_single(
            a,
            recorded(a, routes(m, a)[k].0, m.claude_home@),
            i,
            routes(m, a)[k],
            m.claude_home@,
        ),
    ensures
        ({
            let r = routes(m, a)[k];
            let session = recorded(a, r.0, m.claude_home@)[i];
            let place = session_place(r, m.claude_home@, session);
            &&& reaches(r, m.claude_home@, place)
            &&& under(place, components(global_dir(r.1, m.claude_home@)))
            &&& f.xs[h].text(place) == Some(replaced(m.subs@, a.text(components(session))->0))
        }),
{
    let home = m.claude_home@;
    let r = routes(m, a)[k];
    let item = items[k];
    let list = session_list(item.state);
    let q = session_place(r, home, list[i]);
    assert(items.take(h)[k] == item);
    assert(takes_route(item, r, m, a));
    assert(is_rooted_path(r.0) && is_rooted_path(r.1));
    lemma_still_single(f, m, n, items, backups, a, h, k, i);
    lemma_reach_place(m, r, q);
    lemma_own_spared(m, a, item, r, q);
    let out = f.outs[k];
    lemma_item_follows(f.xs[k], f.mids[k], n, item, r, out, a, i);
    lemma_gap_quiet(f.mids[k], f.xs[k + 1], n, item, q);
    lemma_reach_kept(f, m, n, items, a, h, k, q, k + 1, h);
}

/// The work of a run brings session `i` of project `k` along.
proof fn lemma_work_follows(
    m: Migration,
    n: Migration,
    marked: Seq<Unit>,
    t: RunTrace,
    a: FsView,
    b: FsView,
    k: int,
    i: int,
)
    requires
        is_prepared(m, n, marked, a),
        run_work(t, n, a, b),
        !m.dry_run && m.subs@.len() > 0,
        is_laid_out(m, a),
        0 <= k < routes(m, a).len(),
        has_own_names(m, a, k),
        moves_whole(a, routes(m, a)[k], m.claude_home@),
        is_single(
            a,
            recorded(a, routes(m, a)[k].0, m.claude_home@),
            i,
            routes(m, a)[k],
            m.claude_home@,
        ),
    ensures
        ({
            let r = routes(m, a)[k];
            let session = recorded(a, r.0, m.claude_home@)[i];
            let place = session_place(r, m.claude_home@, session);
            &&& under(place, components(global_dir(r.1, m.claude_home@)))
            &&& under(place, projects_dir(m.claude_home@.path))
            &&& t.moved.text(place) == Some(replaced(m.subs@, a.text(components(session))->0))
        }),
{
    let f = lemma_flat_run(m, n, marked, t, a, b);
    let items = flat_items(active(n.units@), n.session_only);
    let r = routes(m, a)[k];
    let last = items.len() as int;
    assert(items.take(last) =~= items);
    lemma_flat_follows(f, m, n, items, t.backups, a, last, k, i);
    assert(is_rooted_path(r.0) && is_rooted_path(r.1));
    lemma_reach_place(
        m,
        r,
        session_place(r, m.claude_home@, recorded(a, r.0, m.claude_home@)[i]),
    );
}

/// After a run that goes through, each session that was recorded for one of its
/// projects is found under the project's new name, with every reference in it
/// replaced. That holds of the projects that were named as of those registered below
/// them, however many move. The global directory moves as a whole, and no other
/// project uses the names that it moves between.
pub proof fn law_moved_sessions_read_anew(
    m: Migration,
    a: FsView,
    b: FsView,
    report: MigrationReport,
    k: int,
    i: int,
)
    requires
        ran(m, a, b, Ok(report)),
        !m.dry_run && m.subs@.len() > 0,
        is_laid_out(m, a),
        0 <= k < routes(m, a).len(),
        has_own_names(m, a, k),
        moves_whole(a, routes(m, a)[k], m.claude_home@),
        ({
            let r = routes(m, a)[k];
            let list = recorded(a, r.0, m.claude_home@);
            let place = session_place(r, m.claude_home@, list[i]);
            &&& is_single(a, list, i, r, m.claude_home@)
            &&& m.history_jsonl matches Some(p) ==> p.key() != place
            &&& m.claude_json matches Some(p) ==> p.key() != place
            &&& behind_no_link(place, m, a)
        }),
    ensures
        ({
            let r = routes(m, a)[k];
            let session = recorded(a, r.0, m.claude_home@)[i];
            let place = session_place(r, m.claude_home@, session);
            &&& under(place, components(global_dir(r.1, m.claude_home@)))
            &&& b.text(place) == Some(replaced(m.subs@, a.text(components(session))->0))
        }),
{
    if all_settled(m) {
        lemma_routes_left(m, a, m.units@);
    }
    let (n, marked) = choose|n: Migration, marked: Seq<Unit>| #[trigger]
        is_prepared(m, n, marked, a) && goes_through(n, a, b, report);
    let t = choose|t: RunTrace| #[trigger] run_trace(t, n, a, b, report);
    let r = routes(m, a)[k];
    let q = session_place(r, m.claude_home@, recorded(a, r.0, m.claude_home@)[i]);
    lemma_work_follows(m, n, marked, t, a, b, k, i);
    lemma_session_stays(t, n, a, b, q);
}

} // verus!
