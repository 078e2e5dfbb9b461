//! How a dry run and the real one count.

use vstd::prelude::*;

use crate::along::is_single;
use crate::along::lemma_flat_run;
use crate::along::lemma_recorded;
use crate::along::lemma_sessions_of_item;
use crate::along::lemma_still_single;
use crate::along::moves_whole;
use crate::along::recorded;
use crate::apply::active;
use crate::apply::all_reports;
use crate::apply::files_at_step;
use crate::apply::new_dir;
use crate::apply::ok_reports;
use crate::apply::optional_step;
use crate::apply::rename_view;
use crate::apply::session_list;
use crate::apply::session_places;
use crate::apply::sessions_trace;
use crate::apply::Outcome;
use crate::apply::ProjectTrace;
use crate::arrive::lemma_names_apart;
use crate::config::is_config;
use crate::config::lemma_config_places;
use crate::config::servers_of;
use crate::config::settings_of;
use crate::error::Error;
use crate::flat::flat_items;
use crate::flat::flat_trace;
use crate::flat::gap_step;
use crate::flat::item_step;
use crate::flat::unit_items;
use crate::flat::FlatTrace;
use crate::flat::Item;
use crate::foretell::lemma_dry_states;
use crate::frame::behind_no_link;
use crate::frame::lemma_optional_quiet;
use crate::frame::lemma_prepared_away;
use crate::frame::lemma_units_done_quiet;
use crate::frame::lies_apart;
use crate::frame::units_found;
use crate::fs::texts;
use crate::fs::FsView;
use crate::json::parsed;
use crate::laws::law_session_file_follows;
use crate::laws::lemma_all_backups_quiet;
use crate::laws::lemma_dry_optional;
use crate::laws::lemma_dry_sessions_trace;
use crate::laws::lemma_global_under;
use crate::laws::lemma_off_global;
use crate::laws::lemma_project_sessions_quiet;
use crate::laws::off_data;
use crate::migration::all_fresh;
use crate::migration::all_settled;
use crate::migration::goes_through;
use crate::migration::is_prepared;
use crate::migration::ran;
use crate::migration::run_trace;
use crate::migration::run_work;
use crate::migration::MigrationReport;
use crate::migration::RunTrace;
use crate::path::components;
use crate::path::is_plain;
use crate::path::opt_text;
use crate::path::under;
use crate::path::FilePath;
use crate::path::Key;
use crate::plan::all_absolute;
use crate::plan::is_settled;
use crate::plan::same_move;
use crate::plan::Migration;
use crate::routes::all_take;
use crate::routes::goes;
use crate::routes::has_own_names;
use crate::routes::is_laid_out;
use crate::routes::is_rooted_path;
use crate::routes::lemma_flat_quiet;
use crate::routes::lemma_unit_takes;
use crate::routes::routes;
use crate::routes::routes_of;
use crate::routes::spares;
use crate::routes::takes_route;
use crate::routes::unit_routes;
use crate::routes::Route;
use crate::scanner::describes;
use crate::scanner::global_dir;
use crate::scanner::has_global;
use crate::scanner::if_present;
use crate::substitution::matches_in;
use crate::substitution::Pairs;
use crate::unit::Unit;
use crate::updater::file_step;
use crate::updater::file_steps;
use crate::updater::key_replacements;
use crate::updater::keys_step;
use crate::updater::UpdateReport;

verus! {

/// What the reports count, one after the other.
pub open spec fn tally(reports: Seq<UpdateReport>) -> Seq<nat> {
    reports.map_values(|r: UpdateReport| r.replacements as nat)
}

/// How many references there are in the text at `q`.
pub open spec fn count_at(v: FsView, q: Key, subs: Pairs) -> nat {
    matches_in(subs, v.text(q)->0).len()
}

/// The count for a file that may not be there.
pub open spec fn count_if_present(v: FsView, q: Key, subs: Pairs) -> Seq<nat> {
    if v.present.contains(q) {
        seq![count_at(v, q, subs)]
    } else {
        Seq::empty()
    }
}

/// The counts for the sessions of the project `p`.
pub open spec fn session_counts(v: FsView, p: Seq<char>, m: Migration) -> Seq<nat> {
    let list = recorded(v, p, m.claude_home@);
    Seq::new(list.len(), |i: int| count_at(v, components(list[i]), m.subs@))
}

/// The counts for the project that takes the route: its sessions, and in a full run
/// its settings and its server list.
pub open spec fn route_counts(m: Migration, v: FsView, r: Route) -> Seq<nat> {
    let sessions = session_counts(v, r.0, m);
    if m.session_only {
        sessions
    } else {
        sessions + count_if_present(
            v,
            components(settings_of(r.0, m.claude_home@)),
            m.subs@,
        ) + count_if_present(v, components(servers_of(r.0, m.claude_home@)), m.subs@)
    }
}

/// The counts for several routes.
pub open spec fn all_counts(m: Migration, v: FsView, rs: Seq<Route>) -> Seq<nat>
    decreases rs.len(),
{
    if rs.len() == 0 {
        Seq::empty()
    } else {
        all_counts(m, v, rs.drop_last()) + route_counts(m, v, rs.last())
    }
}

proof fn lemma_tally_add(a: Seq<UpdateReport>, b: Seq<UpdateReport>)
    ensures
        tally(a + b) == tally(a) + tally(b),
{
    assert(tally(a + b) =~= tally(a) + tally(b));
}

/// What the projects count together.
proof fn lemma_all_counts(m: Migration, v: FsView, outs: Seq<Outcome>, rs: Seq<Route>)
    requires
        outs.len() == rs.len(),
        forall|k: int|
            0 <= k < outs.len() ==> tally((#[trigger] outs[k]).1) == route_counts(m, v, rs[k]),
    ensures
        tally(all_reports(outs)) == all_counts(m, v, rs),
    decreases outs.len(),
{
    if outs.len() > 0 {
        let last = outs.len() - 1;
        assert(tally(outs[last].1) == route_counts(m, v, rs[last]));
        assert forall|k: int| 0 <= k < outs.drop_last().len() implies tally(
            (#[trigger] outs.drop_last()[k]).1,
        ) == route_counts(m, v, rs.drop_last()[k]) by {
            assert(tally(outs[k].1) == route_counts(m, v, rs[k]));
        }
        lemma_all_counts(m, v, outs.drop_last(), rs.drop_last());
        lemma_tally_add(all_reports(outs.drop_last()), outs.last().1);
    } else {
        assert(tally(all_reports(outs)) =~= Seq::empty());
    }
}

/// The settings or the server list at `q`, of project `k`, can be read and written
/// when its turn comes: no other project has them, and no unit that moves before
/// works there.
pub open spec fn config_waits(m: Migration, v: FsView, k: int, q: Key) -> bool {
    let rs = routes(m, v);
    v.present.contains(q) ==> {
        &&& v.text(q) is Some && v.accepts.contains(q) && !v.links.contains_key(q)
        &&& off_data(q, m.claude_home@.path)
        &&& forall|i: int|
            0 <= i < rs.len() && i != k ==> !is_config(q, (#[trigger] rs[i]).0, m.claude_home@)
        &&& forall|x: int|
            0 <= x < m.units@.len() && routes_of(m, v, m.units@.take(x + 1)).len() <= k
                ==> !under(q, (#[trigger] m.units@[x]).source.key()) && !under(
                q,
                m.units@[x].target.key(),
            )
    }
}

/// Project `k` can be counted: nothing is where its global directory goes, each of
/// its sessions is a text by itself, and what is rewritten in it waits for its turn.
pub open spec fn is_countable(m: Migration, v: FsView, k: int) -> bool {
    let home = m.claude_home@;
    let r = routes(m, v)[k];
    let list = recorded(v, r.0, home);
    let from = components(global_dir(r.0, home));
    let to = components(global_dir(r.1, home));
    &&& has_own_names(m, v, k)
    &&& !v.links.contains_key(from) && !v.dirs.contains(to) && !v.links.contains_key(to)
    &&& forall|i: int|
        0 <= i < list.len() ==> #[trigger] is_single(v, list, i, r, home) && v.present.contains(
            components(list[i]),
        )
    &&& !m.session_only ==> config_waits(m, v, k, components(settings_of(r.0, home)))
        && config_waits(m, v, k, components(servers_of(r.0, home)))
}

/// A project without a global directory has no sessions.
proof fn lemma_nothing_recorded(v: FsView, p: Seq<char>, m: Migration)
    requires
        !has_global(v, p, m.claude_home@),
    ensures
        recorded(v, p, m.claude_home@).len() == 0,
        session_counts(v, p, m) == Seq::<nat>::empty(),
{
    assert(session_counts(v, p, m) =~= Seq::empty());
}

/// What a dry run counts in the sessions of a project.
proof fn lemma_dry_sessions_count(
    t: ProjectTrace,
    m: Migration,
    item: Item,
    r: Route,
    out: Outcome,
    a: FsView,
)
    requires
        sessions_trace(t, a, m, item.state, item.target, out.0),
        m.dry_run && m.subs@.len() > 0,
        goes(item, r, m.claude_home@, a),
        ({
            let list = recorded(a, r.0, m.claude_home@);
            forall|i: int|
                0 <= i < list.len() ==> #[trigger] is_single(a, list, i, r, m.claude_home@)
                    && a.present.contains(components(list[i]))
        }),
    ensures
        tally(t.session_reports@) == session_counts(a, r.0, m),
{
    let home = m.claude_home@;
    lemma_recorded(item.state, a, r.0, home);
    let list = session_list(item.state);
    if has_global(a, r.0, home) {
        let reports = t.session_reports;
        let files = choose|files: Seq<FilePath>| #[trigger]
            files_at_step(t.renamed, t.sessions, files, list, m.subs@, true, Ok(reports));
        assert(texts(files).len() == files.len());
        let vs = choose|vs: Seq<FsView>| #[trigger]
            file_steps(vs, files, m.subs@, true, reports@) && vs[0] == t.renamed && vs.last()
                == t.sessions;
        assert forall|i: int| 0 <= i < list.len() implies tally(reports@)[i] == session_counts(
            a,
            r.0,
            m,
        )[i] by {
            assert(is_single(a, list, i, r, home));
            assert(texts(files)[i] == files[i]@);
            lemma_dry_states(vs, files, m.subs@, reports@, i);
            assert(file_step(vs[i], vs[i + 1], files[i], m.subs@, true, Ok(reports@[i])));
        }
        assert(tally(reports@) =~= session_counts(a, r.0, m));
    } else {
        lemma_nothing_recorded(a, r.0, m);
        assert(tally(t.session_reports@) =~= Seq::empty());
    }
}

/// What is counted in a file that may not be there.
proof fn lemma_optional_count(
    x: FsView,
    y: FsView,
    path: Option<FilePath>,
    m: Migration,
    reports: Seq<UpdateReport>,
    a: FsView,
    f: Seq<char>,
)
    requires
        optional_step(x, y, path, m, reports),
        m.subs@.len() > 0,
        opt_text(path) == if_present(a, f),
        a.present.contains(components(f)) ==> {
            &&& a.text(components(f)) is Some
            &&& a.accepts.contains(components(f))
            &&& x.file(components(f)) == a.file(components(f))
            &&& x.present.contains(components(f)) && x.accepts.contains(components(f))
        },
    ensures
        tally(reports) == count_if_present(a, components(f), m.subs@),
{
    if let Some(p) = path {
        assert(p@ == f);
        let done = choose|done: Result<UpdateReport, Error>| #[trigger]
            file_step(x, y, p, m.subs@, m.dry_run, done) && reports == ok_reports(done);
        assert(x.text(components(f)) == a.text(components(f)));
        assert(done is Ok);
        assert(tally(reports) =~= seq![count_at(a, components(f), m.subs@)]);
    } else {
        assert(tally(reports) =~= Seq::empty());
    }
}

/// What a dry run counts in a project.
proof fn lemma_dry_counts(
    x: FsView,
    m: Migration,
    d: Migration,
    item: Item,
    out: Outcome,
    a: FsView,
    k: int,
)
    requires
        item_step(a, x, d, item, out),
        d.dry_run && d.subs == m.subs && d.claude_home == m.claude_home && d.session_only
            == m.session_only,
        m.subs@.len() > 0,
        goes(item, routes(m, a)[k], m.claude_home@, a),
        is_countable(m, a, k),
    ensures
        tally(out.1) == route_counts(m, a, routes(m, a)[k]),
        x == a,
{
    let r = routes(m, a)[k];
    let home = m.claude_home@;
    let t = lemma_sessions_of_item(a, x, d, item, out);
    lemma_dry_sessions_count(t, d, item, r, out, a);
    lemma_dry_sessions_trace(t, a, d, item.state, item.target, out.0);
    assert(session_counts(a, r.0, d) == session_counts(a, r.0, m));
    if !m.session_only {
        lemma_dry_optional(t.sessions, t.settings, item.state.settings_json, d, t.settings_reports);
        lemma_dry_optional(t.settings, x, item.state.mcp_json, d, t.mcp_reports);
        lemma_optional_count(
            t.sessions,
            t.settings,
            item.state.settings_json,
            d,
            t.settings_reports,
            a,
            settings_of(r.0, home),
        );
        lemma_optional_count(
            t.settings,
            x,
            item.state.mcp_json,
            d,
            t.mcp_reports,
            a,
            servers_of(r.0, home),
        );
        lemma_tally_add(t.session_reports@, t.settings_reports);
        lemma_tally_add(t.session_reports@ + t.settings_reports, t.mcp_reports);
    }
}

/// Dry projects leave the state as it is, and count what is there.
proof fn lemma_dry_flat(
    f: FlatTrace,
    m: Migration,
    d: Migration,
    items: Seq<Item>,
    a: FsView,
    k: int,
)
    requires
        flat_trace(f, d, items),
        f.xs[0] == a,
        d.dry_run && d.subs == m.subs && d.claude_home == m.claude_home && d.session_only
            == m.session_only,
        m.subs@.len() > 0,
        items.len() == routes(m, a).len(),
        forall|i: int|
            0 <= i < items.len() ==> goes(
                #[trigger] items[i],
                routes(m, a)[i],
                m.claude_home@,
                a,
            ),
        forall|i: int| 0 <= i < items.len() ==> #[trigger] is_countable(m, a, i),
        0 <= k <= items.len(),
    ensures
        f.xs[k] == a,
        forall|i: int|
            0 <= i < k ==> tally((#[trigger] f.outs[i]).1) == route_counts(m, a, routes(m, a)[i]),
    decreases k,
{
    if k > 0 {
        let i = k - 1;
        lemma_dry_flat(f, m, d, items, a, i);
        let out = f.outs[i];
        assert(goes(items[i], routes(m, a)[i], m.claude_home@, a));
        assert(is_countable(m, a, i));
        lemma_dry_counts(f.mids[i], m, d, items[i], out, a, i);
        assert(gap_step(f.mids[i], f.xs[i + 1], d, items[i]));
    }
}

/// The last project of a unit comes just before the routes of the next one.
spec fn ends_unit(m: Migration, v: FsView, item: Item, i: int) -> bool {
    item.ends matches Some(u) ==> exists|x: int|
        0 <= x < m.units@.len() && same_move(#[trigger] m.units@[x], u) && i + 1 == routes_of(
            m,
            v,
            m.units@.take(x + 1),
        ).len()
}

proof fn lemma_unit_ends(
    m: Migration,
    n: Migration,
    marked: Seq<Unit>,
    a: FsView,
    k: int,
)
    requires
        is_prepared(m, n, marked, a),
        all_fresh(m.units@),
        units_found(m, a),
        0 <= k <= m.units@.len(),
    ensures
        flat_items(active(n.units@.take(k)), m.session_only).len() == routes_of(
            m,
            a,
            m.units@.take(k),
        ).len(),
        forall|i: int|
            0 <= i < flat_items(active(n.units@.take(k)), m.session_only).len() ==> ends_unit(
                m,
                a,
                #[trigger] flat_items(active(n.units@.take(k)), m.session_only)[i],
                i,
            ),
    decreases k,
{
    reveal(Seq::filter);
    if k > 0 {
        let j = k - 1;
        lemma_unit_ends(m, n, marked, a, j);
        assert(n.units@.take(k).drop_last() =~= n.units@.take(j));
        assert(m.units@.take(k).drop_last() =~= m.units@.take(j));
        assert(same_move(m.units@[j], marked[j]));
        assert(same_move(marked[j], n.units@[j]));
        let act = active(n.units@.take(k));
        let had = active(n.units@.take(j));
        let before = flat_items(had, m.session_only);
        let all = flat_items(act, m.session_only);
        if is_settled(m.units@[j], m.session_only) {
            assert(act == had);
            assert(routes_of(m, a, m.units@.take(k)) =~= routes_of(m, a, m.units@.take(j)));
        } else {
            lemma_unit_takes(m, n, marked, a, j);
            assert(act == had.push(n.units@[j]));
            assert(act.drop_last() =~= had);
            let more = unit_items(n.units@[j], m.session_only);
            assert(all == before + more);
            assert forall|i: int| 0 <= i < all.len() implies ends_unit(
                m,
                a,
                #[trigger] all[i],
                i,
            ) by {
                if i < before.len() {
                    assert(all[i] == before[i]);
                } else {
                    assert(all[i] == more[i - before.len()]);
                    assert(same_move(m.units@[j], n.units@[j]));
                    assert(m.units@.take(j + 1) == m.units@.take(k));
                }
            }
        }
    } else {
        assert(active(n.units@.take(0)) =~= Seq::empty());
    }
}

/// When the turn of project `k` comes, the file at `q` in it is as it was found.
proof fn lemma_config_turn(
    f: FlatTrace,
    m: Migration,
    n: Migration,
    marked: Seq<Unit>,
    items: Seq<Item>,
    t: RunTrace,
    a: FsView,
    b: FsView,
    k: int,
    q: Key,
)
    requires
        is_prepared(m, n, marked, a),
        items == flat_items(active(n.units@), n.session_only),
        flat_trace(f, n, items),
        f.xs[0] == t.backed_up,
        run_work(t, n, a, b),
        !m.dry_run && !m.session_only,
        all_take(items, routes(m, a), m, a),
        is_laid_out(m, a),
        0 <= k < items.len(),
        a.present.contains(q),
        config_waits(m, a, k, q),
    ensures
        f.xs[k].file(q) == a.file(q),
        f.xs[k].present.contains(q) && f.xs[k].accepts.contains(q),
        !f.xs[k].links.contains_key(q),
{
    let rs = routes(m, a);
    let home = m.claude_home@;
    lemma_unit_ends(m, n, marked, a, m.units@.len() as int);
    assert(n.units@.take(m.units@.len() as int) =~= n.units@);
    assert forall|i: int| 0 <= i < k implies goes(#[trigger] items[i], rs[i], n.claude_home@, a)
        && spares(items[i], rs[i], n.claude_home@, n.session_only, q) by {
        assert(takes_route(items[i], rs[i], m, a));
        assert(ends_unit(m, a, items[i], i));
        assert(!is_config(q, rs[i].0, home));
        lemma_off_global(rs[i].0, home, q);
        lemma_off_global(rs[i].1, home, q);
    }
    lemma_flat_quiet(f, n, items, rs, a, q, 0, k);
    lemma_all_backups_quiet(a, t.backed_up, n, t.backups, q);
}

/// What the real run counts in the sessions of project `k`.
proof fn lemma_wet_sessions_count(
    f: FlatTrace,
    m: Migration,
    n: Migration,
    items: Seq<Item>,
    t: RunTrace,
    a: FsView,
    b: FsView,
    s: ProjectTrace,
    k: int,
)
    requires
        flat_trace(f, n, items),
        f.xs[0] == t.backed_up,
        run_work(t, n, a, b),
        n == (Migration { units: n.units, ..m }),
        !m.dry_run && m.subs@.len() > 0,
        all_take(items, routes(m, a), m, a),
        is_laid_out(m, a),
        0 <= k < items.len(),
        is_countable(m, a, k),
        sessions_trace(s, f.xs[k], n, items[k].state, items[k].target, f.outs[k].0),
    ensures
        tally(s.session_reports@) == session_counts(a, routes(m, a)[k].0, m),
{
    let r = routes(m, a)[k];
    let home = m.claude_home@;
    let item = items[k];
    assert(takes_route(item, r, m, a));
    assert(is_rooted_path(r.0) && is_rooted_path(r.1));
    lemma_recorded(item.state, a, r.0, home);
    let list = session_list(item.state);
    assert(items.take(items.len() as int) =~= items);
    if has_global(a, r.0, home) {
        if list.len() > 0 {
            let old = global_dir(r.0, home);
            let new = global_dir(r.1, home);
            assert(moves_whole(a, r, home));
            lemma_names_apart(r.0, r.1, home);
            lemma_global_under(r.0, home);
            lemma_global_under(r.1, home);
            assert(rename_view(f.outs[k].0) == Some((old, new)));
            assert forall|i: int| 0 <= i < list.len() implies s.session_reports@.len() == list.len()
                && #[trigger] tally(s.session_reports@)[i] == session_counts(a, r.0, m)[i] by {
                assert(is_single(a, list, i, r, home));
                lemma_still_single(f, m, n, items, t.backups, a, items.len() as int, k, i);
                law_session_file_follows(s, f.xs[k], n, item.state, item.target, f.outs[k].0, i);
            }
            assert(is_single(a, list, 0, r, home));
            lemma_still_single(f, m, n, items, t.backups, a, items.len() as int, k, 0);
            law_session_file_follows(s, f.xs[k], n, item.state, item.target, f.outs[k].0, 0);
            assert(tally(s.session_reports@) =~= session_counts(a, r.0, m));
        } else {
            let reports = s.session_reports;
            let dir = item.state.global_project_dir->0@;
            let places = session_places(
                item.state,
                dir,
                new_dir(rename_view(f.outs[k].0), dir),
                false,
            );
            let files = choose|files: Seq<FilePath>| #[trigger]
                files_at_step(s.renamed, s.sessions, files, places, m.subs@, false, Ok(reports));
            assert(texts(files).len() == files.len());
            assert(tally(s.session_reports@) =~= session_counts(a, r.0, m));
        }
    } else {
        lemma_nothing_recorded(a, r.0, m);
        assert(tally(s.session_reports@) =~= Seq::empty());
    }
}

/// What the real run counts in project `k`.
proof fn lemma_wet_counts(
    f: FlatTrace,
    m: Migration,
    n: Migration,
    marked: Seq<Unit>,
    items: Seq<Item>,
    t: RunTrace,
    a: FsView,
    b: FsView,
    k: int,
)
    requires
        is_prepared(m, n, marked, a),
        items == flat_items(active(n.units@), n.session_only),
        flat_trace(f, n, items),
        f.xs[0] == t.backed_up,
        run_work(t, n, a, b),
        !m.dry_run && m.subs@.len() > 0,
        all_take(items, routes(m, a), m, a),
        is_laid_out(m, a),
        0 <= k < items.len(),
        is_countable(m, a, k),
    ensures
        tally(f.outs[k].1) == route_counts(m, a, routes(m, a)[k]),
{
    let r = routes(m, a)[k];
    let home = m.claude_home@;
    let item = items[k];
    let out = f.outs[k];
    let x = f.xs[k];
    let y = f.mids[k];
    assert(takes_route(item, r, m, a));
    assert(is_rooted_path(r.0) && is_rooted_path(r.1));
    let s = lemma_sessions_of_item(x, y, n, item, out);
    lemma_wet_sessions_count(f, m, n, items, t, a, b, s, k);
    if !m.session_only {
        let settings = components(settings_of(r.0, home));
        let servers = components(servers_of(r.0, home));
        lemma_config_places(r.0, home);
        if a.present.contains(settings) {
            lemma_config_turn(f, m, n, marked, items, t, a, b, k, settings);
            lemma_off_global(r.0, home, settings);
            lemma_off_global(r.1, home, settings);
            lemma_project_sessions_quiet(s, x, n, item.state, item.target, out.0, a, r.0, settings);
        }
        lemma_optional_count(
            s.sessions,
            s.settings,
            item.state.settings_json,
            n,
            s.settings_reports,
            a,
            settings_of(r.0, home),
        );
        if a.present.contains(servers) {
            lemma_config_turn(f, m, n, marked, items, t, a, b, k, servers);
            lemma_off_global(r.0, home, servers);
            lemma_off_global(r.1, home, servers);
            lemma_project_sessions_quiet(s, x, n, item.state, item.target, out.0, a, r.0, servers);
            lemma_optional_quiet(
                s.sessions,
                s.settings,
                item.state.settings_json,
                n,
                s.settings_reports,
                servers,
            );
        }
        lemma_optional_count(
            s.settings,
            y,
            item.state.mcp_json,
            n,
            s.mcp_reports,
            a,
            servers_of(r.0, home),
        );
        lemma_tally_add(s.session_reports@, s.settings_reports);
        lemma_tally_add(s.session_reports@ + s.settings_reports, s.mcp_reports);
    }
}

/// The file that all projects share can be counted at any time: it is a text that may
/// be written, and the run works on it for nothing else.
pub open spec fn is_shared_text(m: Migration, v: FsView, f: FilePath) -> bool {
    &&& v.present.contains(f.key()) && !v.links.contains_key(f.key())
    &&& v.text(f.key()) is Some && v.accepts.contains(f.key())
    &&& lies_apart(f.key(), m, v)
}

/// The counts for the files that all projects share.
pub open spec fn shared_counts(m: Migration, v: FsView) -> Seq<nat> {
    let history = match m.history_jsonl {
        Some(f) => seq![count_at(v, f.key(), m.subs@)],
        None => Seq::<nat>::empty(),
    };
    let keys = match m.claude_json {
        Some(f) => if parsed(v.text(f.key())->0) is Some {
            seq![key_replacements(v, f, m.subs@)]
        } else {
            Seq::<nat>::empty()
        },
        None => Seq::<nat>::empty(),
    };
    history + keys
}

/// What a run counts in the files that all projects share.
proof fn lemma_shared_counts(
    t: RunTrace,
    m: Migration,
    n: Migration,
    marked: Seq<Unit>,
    a: FsView,
    b: FsView,
)
    requires
        is_prepared(m, n, marked, a),
        run_work(t, n, a, b),
        m.subs@.len() > 0,
        m.claude_home@.path.len() > 0 && is_plain(m.claude_home@.local_dir),
        all_absolute(m.units@) && all_fresh(m.units@) && units_found(m, a),
        m.dry_run ==> t.reported == a && t.history == a,
        m.history_jsonl matches Some(f) ==> is_shared_text(m, a, f),
        m.claude_json matches Some(f) ==> is_shared_text(m, a, f),
        m.history_jsonl matches Some(f) ==> (m.claude_json matches Some(g) ==> f.key() != g.key()),
    ensures
        tally(t.history_reports) + tally(t.json_reports) == shared_counts(m, a),
{
    if let Some(f) = m.history_jsonl {
        let q = f.key();
        if !m.dry_run {
            lemma_prepared_away(m, n, marked, a, q);
            lemma_units_done_quiet(t, n, a, b, q);
        }
        assert(t.reported.file(q) == a.file(q));
        let done = choose|done: Result<UpdateReport, Error>| #[trigger]
            file_step(t.reported, t.history, f, m.subs@, m.dry_run, done) && t.history_reports
                == ok_reports(done);
        assert(done is Ok);
        assert(tally(t.history_reports) =~= seq![count_at(a, q, m.subs@)]);
    } else {
        assert(tally(t.history_reports) =~= Seq::empty());
    }
    if let Some(f) = m.claude_json {
        let q = f.key();
        if !m.dry_run {
            lemma_prepared_away(m, n, marked, a, q);
            lemma_units_done_quiet(t, n, a, b, q);
            lemma_optional_quiet(
                t.reported,
                t.history,
                n.history_jsonl,
                n,
                t.history_reports,
                q,
            );
        }
        assert(t.history.file(q) == a.file(q));
        let done = choose|done: Result<UpdateReport, Error>| #[trigger]
            keys_step(t.history, b, f, m.subs@, m.dry_run, done) && t.json_reports == ok_reports(
                done,
            );
        if parsed(a.text(q)->0) is Some {
            assert(done is Ok);
            assert(tally(t.json_reports) =~= seq![
                key_replacements(a, f, m.subs@),
            ]);
        } else {
            assert(tally(t.json_reports) =~= Seq::empty());
        }
    } else {
        assert(tally(t.json_reports) =~= Seq::empty());
    }
}

/// Whether a run is dry has no part in its routes.
proof fn lemma_routes_alike(m: Migration, d: Migration, v: FsView, units: Seq<Unit>)
    requires
        d == (Migration { dry_run: true, ..m }),
    ensures
        routes_of(d, v, units) == routes_of(m, v, units),
    decreases units.len(),
{
    if units.len() > 0 {
        lemma_routes_alike(m, d, v, units.drop_last());
        assert(unit_routes(d, v, units.last()) =~= unit_routes(m, v, units.last()));
    }
}

/// What the real run counts.
proof fn lemma_wet_tally(m: Migration, a: FsView, b: FsView, wet: MigrationReport)
    requires
        ran(m, a, b, Ok(wet)) && !all_settled(m),
        !m.dry_run && m.subs@.len() > 0,
        all_absolute(m.units@),
        is_laid_out(m, a),
        forall|k: int| 0 <= k < routes(m, a).len() ==> #[trigger] is_countable(m, a, k),
        m.history_jsonl matches Some(f) ==> is_shared_text(m, a, f),
        m.claude_json matches Some(f) ==> is_shared_text(m, a, f),
        m.history_jsonl matches Some(f) ==> (m.claude_json matches Some(g) ==> f.key() != g.key()),
    ensures
        tally(wet.files_updated@) == all_counts(m, a, routes(m, a)) + shared_counts(m, a),
{
    let (n, marked) = choose|n: Migration, marked: Seq<Unit>| #[trigger]
        is_prepared(m, n, marked, a) && goes_through(n, a, b, wet);
    let t = choose|t: RunTrace| #[trigger] run_trace(t, n, a, b, wet);
    let f = lemma_flat_run(m, n, marked, t, a, b);
    let items = flat_items(active(n.units@), n.session_only);
    assert forall|k: int| 0 <= k < f.outs.len() implies tally((#[trigger] f.outs[k]).1)
        == route_counts(m, a, routes(m, a)[k]) by {
        assert(is_countable(m, a, k));
        lemma_wet_counts(f, m, n, marked, items, t, a, b, k);
    }
    lemma_all_counts(m, a, f.outs, routes(m, a));
    lemma_shared_counts(t, m, n, marked, a, b);
    lemma_tally_add(t.reports, t.history_reports);
    lemma_tally_add(t.reports + t.history_reports, t.json_reports);
    assert(tally(wet.files_updated@) =~= all_counts(m, a, routes(m, a)) + shared_counts(m, a));
}

/// A dry run shares the same files.
proof fn lemma_shared_alike(m: Migration, d: Migration, a: FsView, f: FilePath)
    requires
        d == (Migration { dry_run: true, ..m }),
        is_shared_text(m, a, f),
    ensures
        is_shared_text(d, a, f),
{
    let q = f.key();
    assert forall|i: int| 0 <= i < d.units@.len() implies !under(
        q,
        (#[trigger] d.units@[i]).source.key(),
    ) && !under(q, d.units@[i].target.key()) by {
        assert(!under(q, m.units@[i].source.key()));
    }
    assert(behind_no_link(q, d, a)) by {
        assert(behind_no_link(q, m, a));
    }
}

/// What the projects of a dry run count.
proof fn lemma_dry_moves(
    m: Migration,
    d: Migration,
    n: Migration,
    marked: Seq<Unit>,
    t: RunTrace,
    a: FsView,
    c: FsView,
)
    requires
        d == (Migration { dry_run: true, ..m }),
        is_prepared(d, n, marked, a),
        run_work(t, n, a, c),
        m.subs@.len() > 0,
        is_laid_out(m, a) && units_found(d, a),
        forall|k: int| 0 <= k < routes(m, a).len() ==> #[trigger] is_countable(m, a, k),
    ensures
        tally(t.reports) == all_counts(m, a, routes(m, a)),
        t.moved == a,
{
    let f = lemma_flat_run(d, n, marked, t, a, c);
    let items = flat_items(active(n.units@), n.session_only);
    lemma_routes_alike(m, d, a, m.units@);
    assert forall|i: int| 0 <= i < items.len() implies goes(
        #[trigger] items[i],
        routes(m, a)[i],
        m.claude_home@,
        a,
    ) by {
        assert(takes_route(items[i], routes(d, a)[i], d, a));
    }
    assert(t.backed_up == a);
    lemma_dry_flat(f, m, n, items, a, items.len() as int);
    lemma_all_counts(m, a, f.outs, routes(m, a));
}

/// What the dry run counts.
proof fn lemma_dry_tally(
    m: Migration,
    d: Migration,
    a: FsView,
    c: FsView,
    dry: MigrationReport,
)
    requires
        d == (Migration { dry_run: true, ..m }),
        ran(d, a, c, Ok(dry)) && !all_settled(d),
        m.subs@.len() > 0,
        all_absolute(m.units@),
        is_laid_out(m, a),
        forall|k: int| 0 <= k < routes(m, a).len() ==> #[trigger] is_countable(m, a, k),
        m.history_jsonl matches Some(f) ==> is_shared_text(m, a, f),
        m.claude_json matches Some(f) ==> is_shared_text(m, a, f),
        m.history_jsonl matches Some(f) ==> (m.claude_json matches Some(g) ==> f.key() != g.key()),
    ensures
        tally(dry.files_updated@) == all_counts(m, a, routes(m, a)) + shared_counts(m, a),
{
    let (n, marked) = choose|n: Migration, marked: Seq<Unit>| #[trigger]
        is_prepared(d, n, marked, a) && goes_through(n, a, c, dry);
    let t = choose|t: RunTrace| #[trigger] run_trace(t, n, a, c, dry);
    assert(units_found(d, a)) by {
        assert forall|i: int| 0 <= i < d.units@.len() implies describes(
            (#[trigger] d.units@[i]).state,
            a,
            d.units@[i].source@,
            d.claude_home@,
        ) || describes(d.units@[i].state, a, d.units@[i].target@, d.claude_home@) by {
            assert(m.units@[i] == d.units@[i]);
        }
    }
    lemma_dry_moves(m, d, n, marked, t, a, c);
    lemma_dry_optional(t.reported, t.history, n.history_jsonl, n, t.history_reports);
    if let Some(f) = m.history_jsonl {
        lemma_shared_alike(m, d, a, f);
    }
    if let Some(f) = m.claude_json {
        lemma_shared_alike(m, d, a, f);
    }
    lemma_shared_counts(t, d, n, marked, a, c);
    lemma_tally_add(t.reports, t.history_reports);
    lemma_tally_add(t.reports + t.history_reports, t.json_reports);
    assert(shared_counts(d, a) == shared_counts(m, a));
    assert(tally(dry.files_updated@) =~= all_counts(m, a, routes(m, a)) + shared_counts(m, a));
}

/// Of the same run on the same state, where both go through, the dry run and the real
/// one report on as many files and count the same in each. The projects can be
/// counted one by one, nothing is where their global directories go, and what the run
/// shares is used for nothing else.
pub proof fn law_dry_run_counts_alike(
    m: Migration,
    d: Migration,
    a: FsView,
    b: FsView,
    c: FsView,
    wet: MigrationReport,
    dry: MigrationReport,
)
    requires
        ran(m, a, b, Ok(wet)),
        !m.dry_run && m.subs@.len() > 0,
        d == (Migration { dry_run: true, ..m }),
        ran(d, a, c, Ok(dry)),
        all_absolute(m.units@),
        is_laid_out(m, a),
        forall|k: int| 0 <= k < routes(m, a).len() ==> #[trigger] is_countable(m, a, k),
        m.history_jsonl matches Some(f) ==> is_shared_text(m, a, f),
        m.claude_json matches Some(f) ==> is_shared_text(m, a, f),
        m.history_jsonl matches Some(f) ==> (m.claude_json matches Some(g) ==> f.key() != g.key()),
    ensures
        dry.files_updated@.len() == wet.files_updated@.len(),
        forall|i: int|
            0 <= i < dry.files_updated@.len() ==> (#[trigger] dry.files_updated@[i]).replacements
                == wet.files_updated@[i].replacements,
{
    assert(all_settled(d) == all_settled(m)) by {
        if all_settled(d) {
            assert forall|i: int| 0 <= i < m.units@.len() implies is_settled(
                #[trigger] m.units@[i],
                m.session_only,
            ) by {
                assert(is_settled(d.units@[i], d.session_only));
            }
        }
    }
    if !all_settled(m) {
        lemma_wet_tally(m, a, b, wet);
        lemma_dry_tally(m, d, a, c, dry);
    }
    assert(tally(dry.files_updated@) == tally(wet.files_updated@));
    assert forall|i: int| 0 <= i < dry.files_updated@.len() implies (
    #[trigger] dry.files_updated@[i]).replacements == wet.files_updated@[i].replacements by {
        assert(tally(dry.files_updated@)[i] == tally(wet.files_updated@)[i]);
    }
}

} // verus!
