//! What a run finds that is repeated.

use vstd::prelude::*;
use vstd::string::*;

use crate::along::is_single;
use crate::along::law_moved_sessions_read_anew;
use crate::along::lemma_flat_run;
use crate::along::lemma_reach_kept;
use crate::along::lemma_recorded;
use crate::along::lemma_sessions_of_item;
use crate::along::moves_whole;
use crate::along::recorded;
use crate::along::session_place;
use crate::apply::active;
use crate::apply::all_reports;
use crate::apply::dir_step;
use crate::apply::files_at_step;
use crate::apply::ok_reports;
use crate::apply::rename_view;
use crate::apply::session_list;
use crate::apply::session_places;
use crate::apply::sessions_inside;
use crate::apply::state_readable;
use crate::apply::unit_step;
use crate::apply::units_trace;
use crate::apply::ChainTrace;
use crate::apply::Outcome;
use crate::arrive::lemma_names_apart;
use crate::arrive::lemma_updates_keep_dirs;
use crate::command::executed;
use crate::command::Command;
use crate::config::config_goes;
use crate::config::is_config;
use crate::config::is_left_to;
use crate::config::law_project_settings_arrive;
use crate::config::lemma_active_once;
use crate::config::lemma_others_away;
use crate::config::lemma_own_items;
use crate::config::lemma_unit_shape;
use crate::config::lemma_units_pass;
use crate::config::servers_of;
use crate::config::settings_of;
use crate::error::Error;
use crate::flat::flat_items;
use crate::flat::flat_trace;
use crate::flat::item_step;
use crate::flat::lemma_flat_unit;
use crate::flat::unit_items;
use crate::flat::FlatTrace;
use crate::flat::Item;
use crate::frame::behind_no_link;
use crate::frame::lemma_optional_quiet;
use crate::frame::lemma_prepared_away;
use crate::frame::lemma_units_done_quiet;
use crate::frame::unit_away;
use crate::frame::units_found;
use crate::fs::apart;
use crate::fs::law_write_reads_back;
use crate::fs::origin;
use crate::fs::replaced_file;
use crate::fs::FsView;
use crate::home::HomeView;
use crate::json::has_projects;
use crate::json::is_key_list;
use crate::json::key_list;
use crate::json::members;
use crate::json::parsed;
use crate::json::pretty;
use crate::json::projects;
use crate::json::reads_alike;
use crate::json::same_keys;
use crate::laws::law_finished_run_is_consistent;
use crate::laws::lemma_all_backups_quiet;
use crate::laws::lemma_no_search;
use crate::laws::off_data;
use crate::merge::place;
use crate::migration::all_fresh;
use crate::migration::all_settled;
use crate::migration::goes_through;
use crate::migration::is_prepared;
use crate::migration::ran;
use crate::migration::run_trace;
use crate::migration::run_work;
use crate::migration::MigrationReport;
use crate::migration::RunTrace;
use crate::path::components;
use crate::path::dot;
use crate::path::is_plain;
use crate::path::join_text;
use crate::path::lemma_components_join_name;
use crate::path::opt_text;
use crate::path::under;
use crate::path::FilePath;
use crate::path::Key;
use crate::plan::all_absolute;
use crate::plan::are_units;
use crate::plan::is_set_up;
use crate::plan::is_settled;
use crate::plan::same_move;
use crate::plan::state_files;
use crate::plan::unit_pairs;
use crate::plan::Migration;
use crate::rerun::all_current;
use crate::rerun::all_quiet;
use crate::rerun::is_current;
use crate::rerun::is_well;
use crate::rerun::law_repeated_run_goes_through;
use crate::routes::all_take;
use crate::routes::goes;
use crate::routes::has_own_names;
use crate::routes::is_laid_out;
use crate::routes::is_rooted_path;
use crate::routes::lemma_gap_quiet;
use crate::routes::lemma_own_spared;
use crate::routes::lemma_reach_place;
use crate::routes::reaches;
use crate::routes::routes;
use crate::routes::routes_of;
use crate::routes::takes_route;
use crate::routes::unit_routes;
use crate::routes::Route;
use crate::scanner::claude_json_path;
use crate::scanner::describes;
use crate::scanner::global_dir;
use crate::scanner::has_global;
use crate::scanner::if_present;
use crate::scanner::ProjectState;
use crate::shared::law_history_is_written_once;
use crate::substitution::hits_path;
use crate::substitution::lemma_pick_exists;
use crate::substitution::match_path;
use crate::substitution::matches_in;
use crate::substitution::pick;
use crate::substitution::picks;
use crate::substitution::rebased;
use crate::substitution::replaced;
use crate::substitution::Pairs;
use crate::tally::is_shared_text;
use crate::unit::from_source;
use crate::unit::is_absolute;
use crate::unit::is_subproject;
use crate::unit::keys_of_file;
use crate::unit::subproject_keys;
use crate::unit::unit_possible;
use crate::unit::MigrateOpts;
use crate::unit::Unit;
use crate::updater::file_steps;
use crate::updater::is_renamed_document;
use crate::updater::key_replacements;
use crate::updater::keys_step;
use crate::updater::moved_keys;
use crate::updater::moves_to;
use crate::updater::UpdateReport;

verus! {

/// Replacing the references in the text leaves none that would be replaced again.
pub open spec fn settles(subs: Pairs, text: Seq<char>) -> bool {
    matches_in(subs, replaced(subs, text)).len() == 0
}

/// A registered path that moves does not move again from where it went.
pub open spec fn key_settles(subs: Pairs, k: Seq<char>) -> bool {
    rebased(subs, k) matches Some(q) ==> rebased(subs, q) is None
}

/// The paths that are registered in the file at `p`.
pub open spec fn registered(v: FsView, p: FilePath) -> Map<Seq<char>, serde_json::Value> {
    projects(parsed(v.text(p.key())->0)->0)->0
}

/// The registry can be read, and what is registered be listed.
pub open spec fn is_readable_registry(v: FsView, p: FilePath) -> bool {
    let root = parsed(v.text(p.key())->0);
    &&& v.text(p.key()) is Some && root is Some
    &&& projects(root->0) is Some
    &&& is_key_list(key_list(registered(v, p)), registered(v, p))
}

/// Where the own route of unit `j` stands.
pub open spec fn own_route(m: Migration, v: FsView, j: int) -> int {
    routes_of(m, v, m.units@.take(j)).len() as int
}

proof fn lemma_own_route(m: Migration, v: FsView, j: int, n: int)
    requires
        0 <= j < n <= m.units@.len(),
        !is_settled(m.units@[j], m.session_only),
    ensures
        own_route(m, v, j) < routes_of(m, v, m.units@.take(n)).len(),
        routes_of(m, v, m.units@.take(n))[own_route(m, v, j)] == (
            m.units@[j].state.project_path@,
            m.units@[j].target@,
        ),
    decreases n,
{
    let all = routes_of(m, v, m.units@.take(n));
    let before = routes_of(m, v, m.units@.take(n - 1));
    let last = unit_routes(m, v, m.units@[n - 1]);
    assert(m.units@.take(n).drop_last() =~= m.units@.take(n - 1));
    assert(m.units@.take(n).last() == m.units@[n - 1]);
    assert(all == before + last);
    let k = own_route(m, v, j);
    if n == j + 1 {
        assert(all[k] == last[0]);
    } else {
        lemma_own_route(m, v, j, n - 1);
        assert(all[k] == before[k]);
    }
}

/// Unit `j` has its directory and its target to itself, and the directory moves.
pub open spec fn dir_goes(m: Migration, v: FsView, j: int) -> bool {
    let u = m.units@[j];
    &&& apart(u.source.key(), u.target.key())
    &&& v.dirs.contains(u.source.key()) && !v.links.contains_key(u.source.key())
    &&& !v.links.contains_key(u.target.key())
    &&& off_data(u.source.key(), m.claude_home@.path)
    &&& off_data(u.target.key(), m.claude_home@.path)
    &&& is_left_to(u.source.key(), m.units@, j) && is_left_to(u.target.key(), m.units@, j)
}

/// The directory of a unit is gone from its source and found at its target.
proof fn lemma_dir_gone(x: FsView, y: FsView, u: Unit)
    requires
        dir_step(x, y, false, u, Ok(())),
        apart(u.source.key(), u.target.key()),
        x.dirs.contains(u.source.key()) && !x.links.contains_key(u.source.key()),
        !x.links.contains_key(u.target.key()),
    ensures
        !y.dirs.contains(u.source.key()) && !y.links.contains_key(u.source.key()),
        y.dirs.contains(u.target.key()) && !y.links.contains_key(u.target.key()),
{
    let src = u.source.key();
    let dst = u.target.key();
    assert(under(src, src) && under(dst, dst)) by {
        assert(src.is_prefix_of(src));
        assert(dst.is_prefix_of(dst));
    }
    assert(origin(src, dst, src) =~= dst);
    assert(origin(dst, src, dst) =~= src);
}

/// Behind its turn nothing is left of the directory of unit `j` at its source, and it
/// is found at its target.
proof fn lemma_source_gone(
    m: Migration,
    n: Migration,
    marked: Seq<Unit>,
    t: RunTrace,
    a: FsView,
    b: FsView,
    j: int,
)
    requires
        is_prepared(m, n, marked, a),
        run_work(t, n, a, b),
        !m.dry_run && !m.session_only && !m.relink,
        m.claude_home@.path.len() > 0 && is_plain(m.claude_home@.local_dir),
        all_absolute(m.units@) && all_fresh(m.units@) && units_found(m, a),
        0 <= j < m.units@.len(),
        !is_settled(m.units@[j], false),
        dir_goes(m, a, j),
    ensures
        !b.dirs.contains(m.units@[j].source.key()),
        b.dirs.contains(m.units@[j].target.key()),
{
    let home = m.claude_home@;
    let src = m.units@[j].source.key();
    let dst = m.units@[j].target.key();
    let u = n.units@[j];
    let units = active(n.units@);
    assert(under(src, src)) by {
        assert(src.is_prefix_of(src));
    }
    assert(same_move(m.units@[j], marked[j]));
    assert(same_move(marked[j], u));
    assert(!u.nothing_to_do);
    let w = choose|w: ChainTrace| #[trigger]
        units_trace(w, n, units) && w.vs[0] == t.backed_up && w.vs.last() == t.moved && t.renames
            == w.outs.map_values(|x: Outcome| x.0) && t.reports == all_reports(w.outs);
    assert forall|x: int| 0 <= x < n.units@.len() && x != j implies !same_move(
        #[trigger] n.units@[x],
        n.units@[j],
    ) by {
        assert(!under(src, m.units@[x].source.key()));
        assert(same_move(m.units@[x], marked[x]));
        assert(same_move(marked[x], n.units@[x]));
    }
    let k = lemma_active_once(n.units@, j);
    assert forall|y: int| 0 <= y < units.len() && y != k implies unit_away(
        #[trigger] units[y],
        a,
        home,
        src,
    ) && unit_away(units[y], a, home, dst) by {
        lemma_others_away(m, n, marked, a, j, y, src);
        lemma_others_away(m, n, marked, a, j, y, dst);
    }
    lemma_all_backups_quiet(a, t.backed_up, n, t.backups, src);
    lemma_all_backups_quiet(a, t.backed_up, n, t.backups, dst);
    lemma_units_pass(w, n, units, a, src, 0, k);
    lemma_units_pass(w, n, units, a, dst, 0, k);
    let out = w.outs[k];
    assert(unit_step(w.vs[k], w.vs[k + 1], n, units[k], out));
    let g = lemma_flat_unit(w.vs[k], w.vs[k + 1], n, u, out);
    let items = unit_items(u, false);
    let last = items.len() - 1;
    lemma_own_items(m, n, marked, a, j);
    lemma_unit_shape(g, n, items, unit_routes(m, a, m.units@[j]), u, a, src, last);
    lemma_unit_shape(g, n, items, unit_routes(m, a, m.units@[j]), u, a, dst, last);
    let o = g.outs[last];
    assert(items[last].ends == Some(u));
    lemma_dir_gone(g.mids[last], w.vs[k + 1], u);
    lemma_units_pass(w, n, units, a, src, k + 1, units.len() as int);
    lemma_units_pass(w, n, units, a, dst, k + 1, units.len() as int);
    lemma_no_search(t, n, a, b);
    assert(t.history.dirs == t.reported.dirs);
    assert(b.dirs == t.history.dirs);
}

/// Where the settings and the server list of a unit go.
proof fn lemma_config_place(u: Unit, home: HomeView)
    requires
        is_plain(home.local_dir),
    ensures
        place(components(settings_of(u.source@, home)), u.source.key(), u.target.key())
            == components(settings_of(u.target@, home)),
        place(components(servers_of(u.source@, home)), u.source.key(), u.target.key())
            == components(servers_of(u.target@, home)),
{
    reveal_strlit("settings.json");
    reveal_strlit(".mcp.json");
    assert(dot()[0] == '.' && dot().len() == 1);
    assert(is_plain("settings.json"@)) by {
        assert("settings.json"@.len() > 1);
    }
    assert(is_plain(".mcp.json"@)) by {
        assert(".mcp.json"@.len() > 1);
    }
    let s = u.source@;
    let t = u.target@;
    lemma_components_join_name(s, home.local_dir);
    lemma_components_join_name(t, home.local_dir);
    lemma_components_join_name(join_text(s, home.local_dir), "settings.json"@);
    lemma_components_join_name(join_text(t, home.local_dir), "settings.json"@);
    lemma_components_join_name(s, ".mcp.json"@);
    lemma_components_join_name(t, ".mcp.json"@);
    let src = u.source.key();
    let dst = u.target.key();
    assert(place(components(settings_of(s, home)), src, dst) =~= components(settings_of(t, home)));
    assert(place(components(servers_of(s, home)), src, dst) =~= components(servers_of(t, home)));
}

/// The settings or the server list of unit `j` at `o`, if there, go along and settle.
pub open spec fn config_settles(m: Migration, v: FsView, j: int, o: Key) -> bool {
    let rs = unit_routes(m, v, m.units@[j]);
    v.present.contains(o) ==> {
        &&& config_goes(m, v, j, o)
        &&& settles(m.subs@, v.text(o)->0)
        &&& forall|k: int|
            0 < k < rs.len() ==> !is_config(o, (#[trigger] rs[k]).0, m.claude_home@)
    }
}

/// The path `q` is none of the files that all projects share.
pub open spec fn is_not_shared(m: Migration, q: Key) -> bool {
    &&& m.history_jsonl matches Some(p) ==> p.key() != q
    &&& m.claude_json matches Some(p) ==> p.key() != q
}

/// Session `i` of unit `j` goes along by itself and settles.
pub open spec fn session_settles(m: Migration, v: FsView, j: int, i: int) -> bool {
    let u = m.units@[j];
    let r = (u.source@, u.target@);
    let list = recorded(v, u.source@, m.claude_home@);
    &&& is_single(v, list, i, r, m.claude_home@)
    &&& is_not_shared(m, session_place(r, m.claude_home@, list[i]))
    &&& settles(m.subs@, v.text(components(list[i]))->0)
}

/// Unit `j` was found at its source, moves as a whole, and settles: one of the moves is
/// its own, its global directory goes where nothing is, and all that is rewritten of it
/// goes along and is rewritten for good.
pub open spec fn unit_settles(m: Migration, v: FsView, j: int) -> bool {
    let home = m.claude_home@;
    let u = m.units@[j];
    let r = (u.source@, u.target@);
    &&& !is_settled(u, false) && u.state.project_path@ == u.source@
    &&& dir_goes(m, v, j)
    &&& has_own_names(m, v, own_route(m, v, j))
    &&& !v.links.contains_key(components(global_dir(u.source@, home)))
    &&& has_global(v, u.source@, home) ==> moves_whole(v, r, home)
    &&& exists|e: int| 0 <= e < m.subs@.len() && (#[trigger] m.subs@[e]).0 == u.source@
    &&& forall|i: int|
        0 <= i < recorded(v, u.source@, home).len() ==> #[trigger] session_settles(m, v, j, i)
    &&& config_settles(m, v, j, components(settings_of(u.source@, home)))
    &&& config_settles(m, v, j, components(servers_of(u.source@, home)))
}

/// What is found of unit `j` at its target in `b` came there from its source in `a`.
pub open spec fn came_along(m: Migration, a: FsView, b: FsView, j: int) -> bool {
    let home = m.claude_home@;
    let u = m.units@[j];
    let r = (u.source@, u.target@);
    let old = recorded(a, u.source@, home);
    let new = recorded(b, u.target@, home);
    &&& forall|i: int|
        0 <= i < new.len() ==> exists|h: int|
            0 <= h < old.len() && components(#[trigger] new[i]) == session_place(
                r,
                home,
                #[trigger] old[h],
            )
    &&& b.present.contains(components(settings_of(u.target@, home))) ==> a.present.contains(
        components(settings_of(u.source@, home)),
    )
    &&& b.present.contains(components(servers_of(u.target@, home))) ==> a.present.contains(
        components(servers_of(u.source@, home)),
    )
}

/// What the first run is asked for, and what holds of it as a whole.
pub open spec fn is_plain_run(m: Migration, v: FsView) -> bool {
    &&& !m.dry_run && !m.session_only && m.no_backup && !m.relink && m.subs@.len() > 0
    &&& m.claude_home@.path.len() > 0 && is_plain(m.claude_home@.local_dir)
    &&& all_absolute(m.units@) && is_laid_out(m, v)
    &&& forall|e: int|
        0 <= e < m.subs@.len() ==> (#[trigger] m.subs@[e]).1.len() > 0 && m.subs@[e].1[0] == '/'
}

/// A session that is found at the target came along, and nothing in it is due.
proof fn lemma_session_current(
    m: Migration,
    a: FsView,
    b: FsView,
    report: MigrationReport,
    j: int,
    i: int,
)
    requires
        ran(m, a, b, Ok(report)),
        is_plain_run(m, a),
        0 <= j < m.units@.len(),
        unit_settles(m, a, j),
        came_along(m, a, b, j),
        0 <= i < recorded(b, m.units@[j].target@, m.claude_home@).len(),
    ensures
        ({
            let f = recorded(b, m.units@[j].target@, m.claude_home@)[i];
            &&& b.text(components(f)) is Some
            &&& is_current(b, f, m.subs@)
            &&& under(components(f), components(global_dir(m.units@[j].target@, m.claude_home@)))
        }),
{
    let home = m.claude_home@;
    let u = m.units@[j];
    let r = (u.source@, u.target@);
    let old = recorded(a, u.source@, home);
    let new = recorded(b, u.target@, home);
    let h = choose|h: int|
        0 <= h < old.len() && components(new[i]) == session_place(r, home, #[trigger] old[h]);
    let k = own_route(m, a, j);
    lemma_own_route(m, a, j, m.units@.len() as int);
    assert(m.units@.take(m.units@.len() as int) =~= m.units@);
    assert(routes(m, a)[k] == r);
    assert(session_settles(m, a, j, h));
    assert(has_global(a, u.source@, home)) by {
        if !has_global(a, u.source@, home) {
            assert(old.len() == 0);
        }
    }
    assert(behind_no_link(session_place(r, home, old[h]), m, a));
    law_moved_sessions_read_anew(m, a, b, report, k, h);
}

/// The settings or the server list found at the target came along, and nothing in
/// them is due.
proof fn lemma_config_current(
    m: Migration,
    a: FsView,
    b: FsView,
    report: MigrationReport,
    j: int,
    f: Seq<char>,
    g: Seq<char>,
)
    requires
        ran(m, a, b, Ok(report)),
        is_plain_run(m, a),
        0 <= j < m.units@.len(),
        unit_settles(m, a, j),
        ({
            let u = m.units@[j];
            let home = m.claude_home@;
            ||| f == settings_of(u.source@, home) && g == settings_of(u.target@, home)
            ||| f == servers_of(u.source@, home) && g == servers_of(u.target@, home)
        }),
        a.present.contains(components(f)),
    ensures
        b.text(components(g)) is Some,
        is_current(b, g, m.subs@),
{
    let home = m.claude_home@;
    let u = m.units@[j];
    let o = components(f);
    lemma_config_place(u, home);
    assert(config_settles(m, a, j, o));
    let rs = unit_routes(m, a, u);
    assert(rs[0].0 == u.source@);
    assert forall|k: int| 0 <= k < rs.len() && k != 0 implies !is_config(
        o,
        (#[trigger] rs[k]).0,
        home,
    ) by {}
    law_project_settings_arrive(m, a, b, report, j, 0, o);
}

/// What is due of a registered path below a source that moves.
proof fn lemma_sub_moves(subs: Pairs, k: Seq<char>, source: Seq<char>, e: int)
    requires
        is_subproject(k, source),
        0 <= e < subs.len(),
        subs[e].0 == source,
    ensures
        rebased(subs, k) is Some,
{
    let n = source.len() as int;
    assert(source.push('/')[n] == '/');
    assert(k.subrange(0, n + 1)[n] == k[n]);
    assert(k.subrange(0, n) =~= source) by {
        assert forall|i: int| 0 <= i < n implies k.subrange(0, n)[i] == source[i] by {
            assert(k.subrange(0, n + 1)[i] == source.push('/')[i]);
        }
    }
    let hit = |old: Seq<char>| hits_path(k, old);
    assert(hit(subs[e].0));
    lemma_pick_exists(subs, hit, e);
    assert(match_path(subs, k) == pick(subs, hit));
}

/// Where a list of its keys can be had, a map with none that moves counts none, and the
/// other way round.
proof fn lemma_none_moves(m: Map<Seq<char>, serde_json::Value>, subs: Pairs)
    requires
        is_key_list(key_list(m), m),
    ensures
        (moved_keys(m, subs).len() == 0) == (forall|k: Seq<char>| #[trigger]
            m.contains_key(k) ==> rebased(subs, k) is None),
{
    let list = key_list(m);
    let all = list.to_set();
    let due = moved_keys(m, subs);
    vstd::seq_lib::seq_to_set_is_finite(list);
    assert(due.subset_of(all)) by {
        assert forall|k: Seq<char>| due.contains(k) implies all.contains(k) by {
            assert(m.contains_key(k));
            let i = choose|i: int| 0 <= i < list.len() && #[trigger] list[i] == k;
            assert(list.contains(k));
        }
    }
    vstd::set_lib::lemma_set_subset_finite(all, due);
    if due.len() == 0 {
        assert forall|k: Seq<char>| #[trigger] m.contains_key(k) implies rebased(
            subs,
            k,
        ) is None by {
            if rebased(subs, k) is Some {
                assert(due.contains(k));
                vstd::set_lib::lemma_set_empty_equivalency_len(due);
            }
        }
    }
    if forall|k: Seq<char>| #[trigger] m.contains_key(k) ==> rebased(subs, k) is None {
        assert(due =~= Set::empty());
    }
}

/// A document that was renamed and is read again registers what it was renamed to.
proof fn lemma_renamed_keys(
    root: serde_json::Value,
    w: serde_json::Value,
    x: serde_json::Value,
    subs: Pairs,
    q: Seq<char>,
)
    requires
        is_renamed_document(root, w, subs),
        reads_alike(w, x),
        projects(root) is Some,
        projects(x) is Some,
        forall|e: int|
            0 <= e < subs.len() ==> (#[trigger] subs[e]).1.len() > 0 && subs[e].1[0] == '/',
        projects(x)->0.contains_key(q),
    ensures
        (projects(root)->0.contains_key(q) && rebased(subs, q) is None) || moves_to(
            projects(root)->0,
            subs,
            q,
        ),
{
    let name = "projects"@;
    reveal_strlit("projects");
    if has_projects(root) {
        assert(members(w)->0.contains_key(name));
        assert(same_keys(members(w)->0[name], members(x)->0[name]));
        assert(has_projects(x));
    } else {
        let m = members(root)->0;
        assert(!has_projects(x)) by {
            if has_projects(x) {
                assert(members(w)->0.contains_key(name));
                assert(same_keys(members(w)->0[name], members(x)->0[name]));
                if moves_to(m, subs, name) {
                    let k = choose|k: Seq<char>|
                        m.contains_key(k) && #[trigger] rebased(subs, k) == Some(name);
                    let e = match_path(subs, k)->0;
                    assert(0 <= e < subs.len()) by {
                        let hit = |old: Seq<char>| hits_path(k, old);
                        assert(match_path(subs, k) == pick(subs, hit));
                        let f = choose|f: int| picks(subs, hit, f);
                        assert(picks(subs, hit, f));
                    }
                    assert(subs[e].1[0] == '/');
                    assert(name[0] == 'p');
                }
            }
        }
    }
}

/// Behind a run no registered path is due.
proof fn lemma_registry_settled(
    x: FsView,
    b: FsView,
    p: FilePath,
    subs: Pairs,
    done: Result<UpdateReport, Error>,
)
    requires
        keys_step(x, b, p, subs, false, done),
        done is Ok,
        subs.len() > 0,
        x.present.contains(p.key()),
        is_readable_registry(x, p) && is_readable_registry(b, p),
        forall|e: int|
            0 <= e < subs.len() ==> (#[trigger] subs[e]).1.len() > 0 && subs[e].1[0] == '/',
        forall|k: Seq<char>| #[trigger]
            registered(x, p).contains_key(k) ==> key_settles(subs, k),
    ensures
        forall|k: Seq<char>| #[trigger]
            registered(b, p).contains_key(k) ==> rebased(subs, k) is None,
        key_replacements(b, p, subs) == 0,
{
    let root = parsed(x.text(p.key())->0)->0;
    lemma_none_moves(registered(x, p), subs);
    lemma_none_moves(registered(b, p), subs);
    if key_replacements(x, p, subs) > 0 {
        let w = choose|w: serde_json::Value| #[trigger]
            is_renamed_document(root, w, subs) && replaced_file(
                x,
                b,
                p.key(),
                vstd::utf8::encode_utf8(pretty(w)),
            ) && (parsed(pretty(w)) matches Some(y) ==> reads_alike(w, y));
        law_write_reads_back(x, b, p.key(), pretty(w));
        let y = parsed(pretty(w))->0;
        assert forall|k: Seq<char>| #[trigger] registered(b, p).contains_key(k) implies rebased(
            subs,
            k,
        ) is None by {
            lemma_renamed_keys(root, w, y, subs, k);
            if moves_to(registered(x, p), subs, k) {
                let h = choose|h: Seq<char>|
                    registered(x, p).contains_key(h) && #[trigger] rebased(subs, h) == Some(k);
                assert(key_settles(subs, h));
            }
        }
    }
}

/// No registered path is due behind a run, and the registry can be read.
proof fn lemma_registry_done(
    m: Migration,
    a: FsView,
    b: FsView,
    report: MigrationReport,
    p: FilePath,
)
    requires
        ran(m, a, b, Ok(report)) && !all_settled(m),
        is_plain_run(m, a),
        m.claude_json == Some(p),
        m.history_jsonl matches Some(f) ==> f.key() != p.key(),
        is_shared_text(m, a, p),
        is_readable_registry(a, p) && is_readable_registry(b, p),
        forall|k: Seq<char>| #[trigger]
            registered(a, p).contains_key(k) ==> key_settles(m.subs@, k),
    ensures
        forall|k: Seq<char>| #[trigger]
            registered(b, p).contains_key(k) ==> rebased(m.subs@, k) is None,
        key_replacements(b, p, m.subs@) == 0,
{
    let q = p.key();
    let (n, marked) = choose|n: Migration, marked: Seq<Unit>| #[trigger]
        is_prepared(m, n, marked, a) && goes_through(n, a, b, report);
    lemma_prepared_away(m, n, marked, a, q);
    let t = choose|t: RunTrace| #[trigger] run_trace(t, n, a, b, report);
    lemma_units_done_quiet(t, n, a, b, q);
    lemma_optional_quiet(t.reported, t.history, n.history_jsonl, n, t.history_reports, q);
    let x = t.history;
    assert(x.file(q) == a.file(q));
    assert(x.text(q) == a.text(q));
    let done = choose|done: Result<UpdateReport, Error>| #[trigger]
        keys_step(x, b, p, m.subs@, false, done) && t.json_reports == ok_reports(done);
    assert(registered(x, p) == registered(a, p));
    lemma_registry_settled(x, b, p, m.subs@, done);
}

/// Nothing is registered below a source that moved.
proof fn lemma_none_below(b: FsView, m: Migration, p: FilePath, source: Seq<char>, e: int)
    requires
        m.claude_json == Some(p),
        is_readable_registry(b, p),
        forall|k: Seq<char>| #[trigger]
            registered(b, p).contains_key(k) ==> rebased(m.subs@, k) is None,
        0 <= e < m.subs@.len(),
        m.subs@[e].0 == source,
    ensures
        keys_of_file(b, m.claude_json) == Some(key_list(registered(b, p))),
        subproject_keys(key_list(registered(b, p)), source).len() == 0,
{
    let keys = key_list(registered(b, p));
    let list = subproject_keys(keys, source);
    if list.len() > 0 {
        let f = |k: Seq<char>| is_subproject(k, source);
        let k = list[0];
        assert(list.contains(k));
        keys.lemma_filter_contains_rev(f, k);
        keys.lemma_filter_pred(f, 0);
        lemma_sub_moves(m.subs@, k, source, e);
        assert(registered(b, p).contains_key(k));
    }
}

/// Both runs go by the same moves, options and shared files.
pub open spec fn is_same_run(m: Migration, k: Migration) -> bool {
    &&& k.subs@ == m.subs@ && k.claude_home@ == m.claude_home@
    &&& k.dry_run == m.dry_run && k.session_only == m.session_only
    &&& k.no_backup == m.no_backup && k.relink == m.relink
    &&& opt_text(k.history_jsonl) == opt_text(m.history_jsonl)
    &&& opt_text(k.claude_json) == opt_text(m.claude_json)
    &&& k.units@.len() == m.units@.len()
    &&& forall|j: int|
        0 <= j < k.units@.len() ==> (#[trigger] k.units@[j]).source == m.units@[j].source
            && k.units@[j].target == m.units@[j].target
}

/// The run is planned anew in `b`, and each project is found at its target.
pub open spec fn is_planned_anew(m: Migration, k: Migration, b: FsView) -> bool {
    &&& is_same_run(m, k)
    &&& all_fresh(k.units@)
    &&& forall|j: int|
        0 <= j < k.units@.len() ==> describes(
            (#[trigger] k.units@[j]).state,
            b,
            k.units@[j].target@,
            k.claude_home@,
        )
}

/// The files that all projects share settle.
pub open spec fn shared_settles(m: Migration, a: FsView, b: FsView) -> bool {
    &&& m.history_jsonl matches Some(f) ==> is_shared_text(m, a, f) && settles(
        m.subs@,
        a.text(f.key())->0,
    )
    &&& m.claude_json matches Some(p) ==> {
        &&& is_shared_text(m, a, p)
        &&& is_readable_registry(a, p) && is_readable_registry(b, p)
        &&& forall|k: Seq<char>| #[trigger]
            registered(a, p).contains_key(k) ==> key_settles(m.subs@, k)
    }
    &&& m.history_jsonl matches Some(f) ==> (m.claude_json matches Some(p) ==> f.key() != p.key())
}

/// All that is found of unit `j` at its target can be read and is current.
proof fn lemma_files_current(
    m: Migration,
    a: FsView,
    b: FsView,
    report: MigrationReport,
    j: int,
    state: ProjectState,
)
    requires
        ran(m, a, b, Ok(report)),
        is_plain_run(m, a),
        0 <= j < m.units@.len(),
        unit_settles(m, a, j),
        came_along(m, a, b, j),
        describes(state, b, m.units@[j].target@, m.claude_home@),
    ensures
        all_current(b, state, m.subs@),
        state_readable(b, state),
        state.global_project_dir matches Some(dir) ==> sessions_inside(state, dir@),
{
    let home = m.claude_home@;
    let u = m.units@[j];
    let list = session_list(state);
    let files = state_files(state);
    lemma_recorded(state, b, u.target@, home);
    assert forall|i: int| 0 <= i < list.len() implies under(
        components(#[trigger] list[i]),
        components(global_dir(u.target@, home)),
    ) by {
        lemma_session_current(m, a, b, report, j, i);
    }
    assert forall|i: int| 0 <= i < files.len() implies is_current(
        b,
        #[trigger] files[i],
        m.subs@,
    ) && b.text(components(files[i])) is Some by {
        let n = list.len() as int;
        if i < n {
            assert(files[i] == list[i]);
            lemma_session_current(m, a, b, report, j, i);
        } else if state.settings_json is Some && i == n {
            assert(files[i] == state.settings_json->0@);
            lemma_config_current(
                m,
                a,
                b,
                report,
                j,
                settings_of(u.source@, home),
                settings_of(u.target@, home),
            );
        } else {
            assert(state.mcp_json is Some);
            assert(files[i] == state.mcp_json->0@);
            lemma_config_current(
                m,
                a,
                b,
                report,
                j,
                servers_of(u.source@, home),
                servers_of(u.target@, home),
            );
        }
    }
}

/// Behind a run that went through, each of its units is well.
proof fn lemma_unit_well(
    m: Migration,
    a: FsView,
    b: FsView,
    report: MigrationReport,
    k: Migration,
    j: int,
)
    requires
        ran(m, a, b, Ok(report)) && !all_settled(m),
        is_plain_run(m, a),
        0 <= j < m.units@.len(),
        unit_settles(m, a, j),
        came_along(m, a, b, j),
        shared_settles(m, a, b),
        is_planned_anew(m, k, b),
    ensures
        is_well(b, k, k.units@[j]),
{
    let u = m.units@[j];
    let v = k.units@[j];
    assert(v.source == u.source && v.target == u.target);
    assert(is_absolute(u.source) && is_absolute(u.target));
    assert(!b.dirs.contains(u.source.key())) by {
        let (n, marked) = choose|n: Migration, marked: Seq<Unit>| #[trigger]
            is_prepared(m, n, marked, a) && goes_through(n, a, b, report);
        let t = choose|t: RunTrace| #[trigger] run_trace(t, n, a, b, report);
        lemma_source_gone(m, n, marked, t, a, b, j);
    }
    lemma_files_current(m, a, b, report, j, v.state);
    law_finished_run_is_consistent(m, a, b, Ok(report), j);
    let e = choose|e: int| 0 <= e < m.subs@.len() && (#[trigger] m.subs@[e]).0 == u.source@;
    if let Some(p) = m.claude_json {
        lemma_registry_done(m, a, b, report, p);
        lemma_none_below(b, m, p, u.source@, e);
    } else {
        reveal(Seq::filter);
        assert(subproject_keys(Seq::empty(), u.source@) =~= Seq::empty());
    }
}

/// A run that went through and is run again goes through again, changes nothing and
/// replaces nothing. Every project was found at its source and moved as a whole, what
/// is found at its target came from there, and neither backups nor a search for links
/// were asked for. Left out are texts and registered paths in which replacing brings
/// about what would be replaced again.
pub proof fn law_second_run_changes_nothing(
    m: Migration,
    a: FsView,
    b: FsView,
    report: MigrationReport,
    k: Migration,
    c: FsView,
    r: Result<MigrationReport, Error>,
)
    requires
        ran(m, a, b, Ok(report)),
        is_plain_run(m, a),
        forall|j: int|
            0 <= j < m.units@.len() ==> #[trigger] unit_settles(m, a, j) && came_along(m, a, b, j),
        shared_settles(m, a, b),
        is_planned_anew(m, k, b),
        ran(k, b, c, r),
    ensures
        r is Ok,
        c == b,
        r matches Ok(second) ==> all_quiet(second.files_updated@),
{
    if m.units@.len() == 0 {
        assert(all_settled(k));
    } else {
        assert(!all_settled(m)) by {
            assert(unit_settles(m, a, 0));
            assert(!is_settled(m.units@[0], m.session_only));
        }
        assert forall|j: int| 0 <= j < k.units@.len() implies is_well(
            b,
            k,
            #[trigger] k.units@[j],
        ) by {
            assert(unit_settles(m, a, j));
            lemma_unit_well(m, a, b, report, k, j);
        }
        if let Some(f) = m.history_jsonl {
            law_history_is_written_once(m, a, b, Ok(report), f);
        }
        if let Some(p) = m.claude_json {
            lemma_registry_done(m, a, b, report, p);
        }
        law_repeated_run_goes_through(k, b, c, r);
    }
}

/// A project that moves leaves no global directory behind.
proof fn lemma_item_leaves(
    x: FsView,
    y: FsView,
    n: Migration,
    item: Item,
    r: Route,
    out: Outcome,
    a: FsView,
)
    requires
        item_step(x, y, n, item, out),
        !n.dry_run && !n.session_only && n.claude_home@.path.len() > 0,
        goes(item, r, n.claude_home@, a),
        is_rooted_path(r.0) && is_rooted_path(r.1),
        has_global(a, r.0, n.claude_home@) ==> moves_whole(x, r, n.claude_home@),
        has_global(a, r.0, n.claude_home@) || !x.dirs.contains(
            components(global_dir(r.0, n.claude_home@)),
        ),
        !x.links.contains_key(components(global_dir(r.0, n.claude_home@))),
    ensures
        !y.dirs.contains(components(global_dir(r.0, n.claude_home@))),
        !y.links.contains_key(components(global_dir(r.0, n.claude_home@))),
{
    let home = n.claude_home@;
    let old = global_dir(r.0, home);
    let new = global_dir(r.1, home);
    let from = components(old);
    let t = lemma_sessions_of_item(x, y, n, item, out);
    if has_global(a, r.0, home) {
        lemma_names_apart(r.0, r.1, home);
        assert(under(from, from)) by {
            assert(from.is_prefix_of(from));
        }
        assert(rename_view(out.0) == Some((old, new)));
        let reports = t.session_reports;
        let files = choose|files: Seq<FilePath>| #[trigger]
            files_at_step(
                t.renamed,
                t.sessions,
                files,
                session_places(item.state, old, new, false),
                n.subs@,
                false,
                Ok(reports),
            );
        let vs = choose|vs: Seq<FsView>| #[trigger]
            file_steps(vs, files, n.subs@, false, reports@) && vs[0] == t.renamed && vs.last()
                == t.sessions;
        lemma_updates_keep_dirs(vs, files, n.subs@, reports@, reports@.len() as int);
    }
    assert(y.dirs == t.sessions.dirs && y.links == t.sessions.links);
}

/// Behind the projects of a run nothing is left of the global directory of one of them.
proof fn lemma_flat_leaves(
    f: FlatTrace,
    m: Migration,
    n: Migration,
    items: Seq<Item>,
    a: FsView,
    k: int,
)
    requires
        flat_trace(f, n, items),
        f.xs[0] == a,
        n == (Migration { units: n.units, ..m }),
        !m.dry_run && !m.session_only,
        all_take(items, routes(m, a), m, a),
        is_laid_out(m, a) && has_own_names(m, a, k),
        0 <= k < items.len(),
        !a.links.contains_key(components(global_dir(routes(m, a)[k].0, m.claude_home@))),
        has_global(a, routes(m, a)[k].0, m.claude_home@) ==> moves_whole(
            a,
            routes(m, a)[k],
            m.claude_home@,
        ),
    ensures
        !f.xs.last().dirs.contains(components(global_dir(routes(m, a)[k].0, m.claude_home@))),
{
    let home = m.claude_home@;
    let r = routes(m, a)[k];
    let q = components(global_dir(r.0, home));
    let to = components(global_dir(r.1, home));
    let last = items.len() as int;
    assert(items.take(last) =~= items);
    assert(takes_route(items[k], r, m, a));
    assert(is_rooted_path(r.0) && is_rooted_path(r.1));
    assert(under(q, q) && under(to, to)) by {
        assert(q.is_prefix_of(q));
        assert(to.is_prefix_of(to));
    }
    assert(reaches(r, home, q) && reaches(r, home, to));
    lemma_reach_kept(f, m, n, items, a, last, k, q, 0, k);
    lemma_reach_kept(f, m, n, items, a, last, k, to, 0, k);
    let out = f.outs[k];
    lemma_item_leaves(f.xs[k], f.mids[k], n, items[k], r, out, a);
    lemma_reach_place(m, r, q);
    lemma_own_spared(m, a, items[k], r, q);
    lemma_gap_quiet(f.mids[k], f.xs[k + 1], n, items[k], q);
    lemma_reach_kept(f, m, n, items, a, last, k, q, k + 1, last);
}

/// Behind a run nothing is left of the global directory of unit `j`.
proof fn lemma_global_gone(
    m: Migration,
    n: Migration,
    marked: Seq<Unit>,
    t: RunTrace,
    a: FsView,
    b: FsView,
    j: int,
)
    requires
        is_prepared(m, n, marked, a),
        run_work(t, n, a, b),
        is_plain_run(m, a),
        0 <= j < m.units@.len(),
        unit_settles(m, a, j),
    ensures
        !has_global(b, m.units@[j].source@, m.claude_home@),
{
    let k = own_route(m, a, j);
    lemma_own_route(m, a, j, m.units@.len() as int);
    assert(m.units@.take(m.units@.len() as int) =~= m.units@);
    let f = lemma_flat_run(m, n, marked, t, a, b);
    let items = flat_items(active(n.units@), n.session_only);
    lemma_flat_leaves(f, m, n, items, a, k);
    lemma_no_search(t, n, a, b);
    assert(t.history.dirs == t.reported.dirs);
    assert(b.dirs == t.history.dirs);
}

/// Behind a run the move of unit `j` can be planned again, and is found done.
proof fn lemma_found_moved(
    m: Migration,
    a: FsView,
    b: FsView,
    report: MigrationReport,
    j: int,
    opts: MigrateOpts,
)
    requires
        ran(m, a, b, Ok(report)),
        is_plain_run(m, a),
        0 <= j < m.units@.len(),
        unit_settles(m, a, j),
        !opts.session_only,
    ensures
        !from_source(b, m.units@[j].source, m.claude_home@),
        unit_possible(b, m.units@[j].source, m.units@[j].target, m.claude_home@, opts),
{
    let u = m.units@[j];
    assert(is_absolute(u.source) && is_absolute(u.target));
    assert(!all_settled(m)) by {
        assert(!is_settled(m.units@[j], m.session_only));
    }
    let (n, marked) = choose|n: Migration, marked: Seq<Unit>| #[trigger]
        is_prepared(m, n, marked, a) && goes_through(n, a, b, report);
    let t = choose|t: RunTrace| #[trigger] run_trace(t, n, a, b, report);
    lemma_source_gone(m, n, marked, t, a, b, j);
    lemma_global_gone(m, n, marked, t, a, b, j);
    law_finished_run_is_consistent(m, a, b, Ok(report), j);
    assert(u.source.key() != u.target.key()) by {
        assert(under(u.source.key(), u.source.key())) by {
            assert(u.source.key().is_prefix_of(u.source.key()));
        }
    }
}

/// The run was set up for one move.
pub open spec fn is_single_move(
    m: Migration,
    v: FsView,
    source: FilePath,
    target: FilePath,
    home: HomeView,
    opts: MigrateOpts,
    timestamp: Seq<char>,
) -> bool {
    &&& is_set_up(m, m.units@, home, opts, timestamp)
    &&& m.units@.len() == 1
    &&& are_units(m.units@, v, seq![(source, target)], home, opts)
}

/// The files that all projects share are there in both states, or in neither.
pub open spec fn shares_alike(a: FsView, b: FsView, home: HomeView) -> bool {
    &&& if_present(b, join_text(home.path, "history.jsonl"@)) == if_present(
        a,
        join_text(home.path, "history.jsonl"@),
    )
    &&& claude_json_path(home) matches Some(p) ==> if_present(b, p) == if_present(a, p)
}

/// A project that was moved by a command stays where it is when the command is given
/// again: the second one goes through, changes nothing and replaces nothing. The
/// first was set up as `m`; what is said of it and left out is what is said of a
/// second run.
pub proof fn law_second_move_changes_nothing(
    m: Migration,
    a: FsView,
    b: FsView,
    c: FsView,
    source: FilePath,
    target: FilePath,
    home: HomeView,
    opts: MigrateOpts,
    timestamp: Seq<char>,
    later: Seq<char>,
    report: MigrationReport,
    r: Result<MigrationReport, Error>,
)
    requires
        is_single_move(m, a, source, target, home, opts, timestamp),
        ran(m, a, b, Ok(report)),
        is_plain_run(m, a),
        unit_settles(m, a, 0) && came_along(m, a, b, 0),
        shared_settles(m, a, b),
        shares_alike(a, b, home),
        executed(Command::Move { source, target, opts }, b, c, home, later, r),
    ensures
        r is Ok,
        c == b,
        r matches Ok(second) ==> all_quiet(second.files_updated@),
{
    let moves = seq![(source, target)];
    assert(m.units@[0].is_fresh(moves[0].0, moves[0].1));
    lemma_found_moved(m, a, b, report, 0, opts);
    let k = choose|k: Migration| #[trigger]
        is_set_up(k, k.units@, home, opts, later) && k.units@.len() == 1 && are_units(
            k.units@,
            b,
            moves,
            home,
            opts,
        ) && ran(k, b, c, r);
    assert(k.units@[0].is_fresh(moves[0].0, moves[0].1));
    assert(k.subs@ == m.subs@) by {
        assert(k.units@.drop_last() =~= Seq::empty());
        assert(m.units@.drop_last() =~= Seq::empty());
        reveal_with_fuel(unit_pairs, 2);
    }
    assert(m.units@[0].state.project_path@ == source@);
    assert(is_planned_anew(m, k, b));
    assert forall|j: int|
        0 <= j < m.units@.len() implies #[trigger] unit_settles(m, a, j) && came_along(
        m,
        a,
        b,
        j,
    ) by {
        assert(j == 0);
    }
    law_second_run_changes_nothing(m, a, b, report, k, c, r);
}

} // verus!
