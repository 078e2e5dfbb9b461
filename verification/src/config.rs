//! What a run rewrites inside of the projects that it moves.

use vstd::prelude::*;
use vstd::string::*;

use crate::apply::active;
use crate::apply::all_reports;
use crate::apply::optional_step;
use crate::apply::project_trace;
use crate::apply::unit_step;
use crate::apply::units_trace;
use crate::apply::ChainTrace;
use crate::apply::Outcome;
use crate::apply::ProjectTrace;
use crate::arrive::lemma_active_from;
use crate::arrive::lemma_arrived_stays;
use crate::arrive::lemma_dir_takes;
use crate::arrive::on_way;
use crate::backup::backup_dir;
use crate::flat::flat_trace;
use crate::flat::gap_step;
use crate::flat::item_step;
use crate::flat::lemma_flat_unit;
use crate::flat::unit_items;
use crate::flat::FlatTrace;
use crate::flat::Item;
use crate::frame::behind_no_link;
use crate::frame::lemma_optional_quiet;
use crate::frame::lemma_unit_prepared_away;
use crate::frame::lemma_unit_quiet;
use crate::frame::outside;
use crate::frame::unit_away;
use crate::frame::units_found;
use crate::fs::apart;
use crate::fs::kept_at;
use crate::fs::law_write_reads_back;
use crate::fs::unchanged_at;
use crate::fs::FsView;
use crate::home::HomeView;
use crate::laws::lemma_all_backups_quiet;
use crate::laws::lemma_off_global;
use crate::laws::lemma_project_sessions_quiet;
use crate::laws::lemma_under_under;
use crate::laws::lemma_unmatched_replacement;
use crate::laws::off_data;
use crate::merge::is_behind;
use crate::merge::is_hidden;
use crate::merge::place;
use crate::migration::all_fresh;
use crate::migration::all_settled;
use crate::migration::backups_step;
use crate::migration::goes_through;
use crate::migration::is_prepared;
use crate::migration::ran;
use crate::migration::run_trace;
use crate::migration::run_work;
use crate::migration::MigrationReport;
use crate::migration::RunTrace;
use crate::path::components;
use crate::path::dot;
use crate::path::is_plain;
use crate::path::join_text;
use crate::path::lemma_components_join_name;
use crate::path::under;
use crate::path::FilePath;
use crate::path::Key;
use crate::plan::all_absolute;
use crate::plan::is_settled;
use crate::plan::same_move;
use crate::plan::Migration;
use crate::routes::goes;
use crate::routes::lemma_item_quiet;
use crate::routes::lemma_sub_under;
use crate::routes::lemma_unit_takes;
use crate::routes::takes_route;
use crate::routes::unit_routes;
use crate::routes::Route;
use crate::substitution::matches_in;
use crate::substitution::replaced;
use crate::unit::is_absolute;
use crate::unit::is_subproject;
use crate::unit::keys_of_file;
use crate::unit::subproject_keys;
use crate::unit::Unit;
use crate::updater::UpdateReport;

verus! {

/// The settings of the project `p`.
pub open spec fn settings_of(p: Seq<char>, home: HomeView) -> Seq<char> {
    join_text(join_text(p, home.local_dir), "settings.json"@)
}

/// The server list of the project `p`.
pub open spec fn servers_of(p: Seq<char>, home: HomeView) -> Seq<char> {
    join_text(p, ".mcp.json"@)
}

/// At `q` are the settings or the server list of the project `p`.
pub open spec fn is_config(q: Key, p: Seq<char>, home: HomeView) -> bool {
    q == components(settings_of(p, home)) || q == components(servers_of(p, home))
}

/// The settings of a project and its server list are two files below it.
pub(crate) proof fn lemma_config_places(p: Seq<char>, home: HomeView)
    requires
        p.len() > 0,
        is_plain(home.local_dir),
    ensures
        components(settings_of(p, home)) != components(servers_of(p, home)),
        forall|q: Key| #[trigger]
            is_config(q, p, home) ==> under(q, components(p)) && q.len() > components(p).len(),
{
    let local = join_text(p, home.local_dir);
    reveal_strlit("settings.json");
    reveal_strlit(".mcp.json");
    assert(dot()[0] == '.' && dot().len() == 1);
    assert(is_plain("settings.json"@)) by {
        assert("settings.json"@.len() > 1);
    }
    assert(is_plain(".mcp.json"@)) by {
        assert(".mcp.json"@.len() > 1);
    }
    lemma_components_join_name(local, "settings.json"@);
    lemma_components_join_name(p, ".mcp.json"@);
    lemma_components_join_name(p, home.local_dir);
    assert("settings.json"@[0] != ".mcp.json"@[0]);
    let k = components(p);
    assert(components(settings_of(p, home)).last() == "settings.json"@);
    assert(components(servers_of(p, home)).last() == ".mcp.json"@);
    assert(components(settings_of(p, home)).subrange(0, k.len() as int) =~= k);
    assert(components(servers_of(p, home)).subrange(0, k.len() as int) =~= k);
}

/// In both states the same link is at `q`, or none; without a link both or neither
/// hold a directory there. What is refused there is the same.
pub(crate) open spec fn same_shape(a: FsView, b: FsView, q: Key) -> bool {
    &&& a.links.contains_key(q) == b.links.contains_key(q)
    &&& !a.links.contains_key(q) ==> a.dirs.contains(q) == b.dirs.contains(q)
    &&& a.accepts.contains(q) == b.accepts.contains(q)
}

/// Moving a project makes no link and no directory outside of the global ones.
proof fn lemma_item_shape(
    x: FsView,
    y: FsView,
    m: Migration,
    item: Item,
    r: Route,
    out: Outcome,
    v: FsView,
    q: Key,
)
    requires
        item_step(x, y, m, item, out),
        !m.session_only,
        !m.dry_run && m.claude_home@.path.len() > 0,
        goes(item, r, m.claude_home@, v),
        off_data(q, m.claude_home@.path),
    ensures
        same_shape(x, y, q),
{
    let home = m.claude_home@;
    lemma_off_global(r.0, home, q);
    lemma_off_global(r.1, home, q);
    let t = choose|t: ProjectTrace| #[trigger]
        project_trace(t, x, y, m, item.state, item.target, out);
    lemma_project_sessions_quiet(t, x, m, item.state, item.target, out.0, v, r.0, q);
}

/// Updating a text replaces the references in it.
proof fn lemma_rewritten(
    a: FsView,
    b: FsView,
    m: Migration,
    f: FilePath,
    reports: Seq<UpdateReport>,
)
    requires
        optional_step(a, b, Some(f), m, reports),
        !m.dry_run && m.subs@.len() > 0,
        a.text(f.key()) is Some,
        a.present.contains(f.key()) && a.accepts.contains(f.key()),
    ensures
        b.text(f.key()) == Some(replaced(m.subs@, a.text(f.key())->0)),
{
    let text = a.text(f.key())->0;
    if matches_in(m.subs@, text).len() == 0 {
        lemma_unmatched_replacement(m.subs@, text);
    } else {
        law_write_reads_back(a, b, f.key(), replaced(m.subs@, text));
    }
}

/// Moving a project replaces the references in its settings and its server list.
proof fn lemma_item_rewrites(
    x: FsView,
    y: FsView,
    m: Migration,
    item: Item,
    r: Route,
    out: Outcome,
    v: FsView,
    o: Key,
)
    requires
        item_step(x, y, m, item, out),
        !m.session_only,
        !m.dry_run && m.subs@.len() > 0 && m.claude_home@.path.len() > 0,
        is_plain(m.claude_home@.local_dir) && r.0.len() > 0,
        goes(item, r, m.claude_home@, v),
        off_data(o, m.claude_home@.path),
        is_config(o, r.0, m.claude_home@),
        v.present.contains(o),
        x.text(o) is Some && !x.links.contains_key(o),
        x.present.contains(o) && x.accepts.contains(o),
    ensures
        y.text(o) == Some(replaced(m.subs@, x.text(o)->0)),
{
    let home = m.claude_home@;
    lemma_off_global(r.0, home, o);
    lemma_off_global(r.1, home, o);
    lemma_config_places(r.0, home);
    let t = choose|t: ProjectTrace| #[trigger]
        project_trace(t, x, y, m, item.state, item.target, out);
    lemma_project_sessions_quiet(t, x, m, item.state, item.target, out.0, v, r.0, o);
    assert(t.sessions.text(o) == x.text(o)) by {
        assert(t.sessions.file(o) == x.file(o));
    }
    let settings = item.state.settings_json;
    let mcp = item.state.mcp_json;
    if o == components(settings_of(r.0, home)) {
        lemma_rewritten(t.sessions, t.settings, m, settings->0, t.settings_reports);
        lemma_optional_quiet(t.settings, y, mcp, m, t.mcp_reports, o);
        assert(y.file(o) == t.settings.file(o));
    } else {
        lemma_optional_quiet(t.sessions, t.settings, settings, m, t.settings_reports, o);
        assert(t.settings.file(o) == t.sessions.file(o));
        lemma_rewritten(t.settings, y, m, mcp->0, t.mcp_reports);
    }
}

/// A project leaves the settings of another one alone.
proof fn lemma_item_passes(
    x: FsView,
    y: FsView,
    m: Migration,
    item: Item,
    r: Route,
    out: Outcome,
    v: FsView,
    o: Key,
)
    requires
        item_step(x, y, m, item, out),
        !m.session_only,
        !m.dry_run && m.claude_home@.path.len() > 0,
        goes(item, r, m.claude_home@, v),
        off_data(o, m.claude_home@.path),
        !is_config(o, r.0, m.claude_home@),
    ensures
        unchanged_at(x, y, o),
{
    lemma_off_global(r.0, m.claude_home@, o);
    lemma_off_global(r.1, m.claude_home@, o);
    lemma_item_quiet(x, y, m, item, r, out, v, o);
}

/// The projects of a unit, with the routes that they take.
pub(crate) open spec fn are_of_unit(
    items: Seq<Item>,
    rs: Seq<Route>,
    u: Unit,
    m: Migration,
    v: FsView,
) -> bool {
    &&& items == unit_items(u, false)
    &&& rs.len() == items.len()
    &&& forall|i: int|
        0 <= i < items.len() ==> goes(#[trigger] items[i], rs[i], m.claude_home@, v)
}

/// The projects of a unit leave links and directories in it as they are.
pub(crate) proof fn lemma_unit_shape(
    g: FlatTrace,
    m: Migration,
    items: Seq<Item>,
    rs: Seq<Route>,
    u: Unit,
    v: FsView,
    q: Key,
    k: int,
)
    requires
        flat_trace(g, m, items),
        are_of_unit(items, rs, u, m, v),
        !m.session_only,
        !m.dry_run && m.claude_home@.path.len() > 0,
        off_data(q, m.claude_home@.path),
        0 <= k < items.len(),
    ensures
        same_shape(g.xs[0], g.mids[k], q),
    decreases k,
{
    let out = g.outs[k];
    assert(goes(items[k], rs[k], m.claude_home@, v));
    lemma_item_shape(g.xs[k], g.mids[k], m, items[k], rs[k], out, v, q);
    if k > 0 {
        lemma_unit_shape(g, m, items, rs, u, v, q, k - 1);
        let before = g.outs[k - 1];
        assert(gap_step(g.mids[k - 1], g.xs[k - 1 + 1], m, items[k - 1]));
    }
}

/// The projects of a unit replace the references in a file of project `i`, and leave
/// it alone otherwise.
proof fn lemma_unit_texts(
    g: FlatTrace,
    m: Migration,
    items: Seq<Item>,
    rs: Seq<Route>,
    u: Unit,
    v: FsView,
    i: int,
    o: Key,
    k: int,
)
    requires
        flat_trace(g, m, items),
        are_of_unit(items, rs, u, m, v),
        !m.session_only,
        !m.dry_run && m.subs@.len() > 0 && m.claude_home@.path.len() > 0,
        is_plain(m.claude_home@.local_dir),
        off_data(o, m.claude_home@.path),
        0 <= k < items.len(),
        0 <= i < items.len(),
        rs[i].0.len() > 0,
        is_config(o, rs[i].0, m.claude_home@),
        forall|x: int|
            0 <= x < items.len() && x != i ==> !is_config(
                o,
                (#[trigger] rs[x]).0,
                m.claude_home@,
            ),
        v.present.contains(o),
        g.xs[0].text(o) is Some && !g.xs[0].links.contains_key(o),
        g.xs[0].present.contains(o) && g.xs[0].accepts.contains(o),
    ensures
        k < i ==> unchanged_at(g.xs[0], g.mids[k], o),
        k >= i ==> g.mids[k].text(o) == Some(replaced(m.subs@, g.xs[0].text(o)->0)),
    decreases k,
{
    let out = g.outs[k];
    assert(goes(items[k], rs[k], m.claude_home@, v));
    if k > 0 {
        lemma_unit_texts(g, m, items, rs, u, v, i, o, k - 1);
        let before = g.outs[k - 1];
        assert(gap_step(g.mids[k - 1], g.xs[k - 1 + 1], m, items[k - 1]));
    }
    if k == i {
        assert(g.xs[k].file(o) == g.xs[0].file(o));
        lemma_item_rewrites(g.xs[k], g.mids[k], m, items[k], rs[k], out, v, o);
    } else {
        assert(!is_config(o, rs[k].0, m.claude_home@));
        lemma_item_passes(g.xs[k], g.mids[k], m, items[k], rs[k], out, v, o);
        assert(g.mids[k].file(o) == g.xs[k].file(o));
    }
}

/// A unit brings the settings of its projects along, with the references in them
/// replaced.
proof fn lemma_unit_brings_config(
    x: FsView,
    y: FsView,
    m: Migration,
    u: Unit,
    out: Outcome,
    rs: Seq<Route>,
    v: FsView,
    i: int,
    o: Key,
)
    requires
        unit_step(x, y, m, u, out),
        are_of_unit(unit_items(u, false), rs, u, m, v),
        !m.session_only,
        !m.dry_run && m.subs@.len() > 0 && m.claude_home@.path.len() > 0,
        is_plain(m.claude_home@.local_dir),
        forall|q: Key| #[trigger]
            on_way(q, u.source.key(), o) ==> off_data(q, m.claude_home@.path),
        0 <= i < rs.len(),
        rs[i].0.len() > 0,
        is_config(o, rs[i].0, m.claude_home@),
        forall|k: int|
            0 <= k < rs.len() && k != i ==> !is_config(o, (#[trigger] rs[k]).0, m.claude_home@),
        v.present.contains(o),
        under(o, u.source.key()) && o != u.source.key(),
        apart(u.source.key(), u.target.key()),
        x.dirs.contains(u.source.key()),
        x.text(o) is Some && !is_behind(x, u.source.key(), o),
        x.present.contains(o) && x.accepts.contains(o),
    ensures
        y.text(place(o, u.source.key(), u.target.key())) == Some(
            replaced(m.subs@, x.text(o)->0),
        ),
{
    let src = u.source.key();
    let items = unit_items(u, false);
    let g = lemma_flat_unit(x, y, m, u, out);
    let last = items.len() - 1;
    let z = g.mids[last];
    assert(under(src, src) && under(o, o)) by {
        assert(src.is_prefix_of(src));
        assert(o.is_prefix_of(o));
    }
    assert(on_way(o, src, o) && on_way(src, src, o));
    assert(g.outs[last] == g.outs[last]);
    assert(items[last].ends == Some(u));
    lemma_unit_texts(g, m, items, rs, u, v, i, o, last);
    lemma_unit_shape(g, m, items, rs, u, v, src, last);
    lemma_unit_shape(g, m, items, rs, u, v, o, last);
    assert(!x.links.contains_key(src)) by {
        if x.links.contains_key(src) {
            assert(is_hidden(x, src, o));
        }
    }
    assert(!is_behind(z, src, o)) by {
        if is_hidden(z, src, o) {
            let q = choose|q: Key| #[trigger]
                z.links.contains_key(q) && under(q, src) && under(o, q) && q != o;
            assert(on_way(q, src, o));
            lemma_unit_shape(g, m, items, rs, u, v, q, last);
            assert(is_hidden(x, src, o));
        }
    }
    lemma_dir_takes(z, y, u, o);
}

/// The unit that is like no other is picked once.
pub(crate) proof fn lemma_active_once(all: Seq<Unit>, j: int) -> (k: int)
    requires
        0 <= j < all.len(),
        !all[j].nothing_to_do,
        forall|i: int| 0 <= i < all.len() && i != j ==> !same_move(#[trigger] all[i], all[j]),
    ensures
        0 <= k < active(all).len(),
        active(all)[k] == all[j],
        forall|x: int|
            0 <= x < active(all).len() && x != k ==> !same_move(#[trigger] active(all)[x], all[j]),
    decreases all.len(),
{
    reveal(Seq::filter);
    let init = all.drop_last();
    let f = |w: Unit| !w.nothing_to_do;
    assert(active(all) == if f(all.last()) {
        active(init).push(all.last())
    } else {
        active(init)
    });
    if j == all.len() - 1 {
        let k = active(init).len() as int;
        assert forall|x: int| 0 <= x < active(all).len() && x != k implies !same_move(
            #[trigger] active(all)[x],
            all[j],
        ) by {
            let y = lemma_active_from(init, x);
            assert(!same_move(all[y], all[j]));
        }
        k
    } else {
        assert forall|i: int| 0 <= i < init.len() && i != j implies !same_move(
            #[trigger] init[i],
            init[j],
        ) by {
            assert(!same_move(all[i], all[j]));
        }
        let k = lemma_active_once(init, j);
        assert(!same_move(all[all.len() - 1], all[j]));
        assert forall|x: int| 0 <= x < active(all).len() && x != k implies !same_move(
            #[trigger] active(all)[x],
            all[j],
        ) by {
            if x < active(init).len() {
                assert(active(all)[x] == active(init)[x]);
            }
        }
        k
    }
}

/// Units that leave `q` alone, one after the other.
pub(crate) proof fn lemma_units_pass(
    t: ChainTrace,
    m: Migration,
    units: Seq<Unit>,
    v: FsView,
    q: Key,
    from: int,
    to: int,
)
    requires
        units_trace(t, m, units),
        outside(q, m),
        0 <= from <= to <= units.len(),
        forall|x: int| from <= x < to ==> unit_away(#[trigger] units[x], v, m.claude_home@, q),
    ensures
        unchanged_at(t.vs[from], t.vs[to], q),
    decreases to - from,
{
    if from < to {
        let x = to - 1;
        lemma_units_pass(t, m, units, v, q, from, x);
        let out = t.outs[x];
        assert(unit_step(t.vs[x], t.vs[x + 1], m, units[x], out));
        assert(unit_away(units[x], v, m.claude_home@, q));
        lemma_unit_quiet(t.vs[x], t.vs[x + 1], m, units[x], out, v, q);
    }
}

/// No other unit than unit `j` works on `q`.
pub open spec fn is_left_to(q: Key, units: Seq<Unit>, j: int) -> bool {
    forall|i: int|
        0 <= i < units.len() && i != j ==> !under(q, (#[trigger] units[i]).source.key()) && !under(
            q,
            units[i].target.key(),
        )
}

/// The settings or the server list of a project in the directory of unit `j`, at `o`,
/// can be rewritten and go along: the file is a text that may be written, no link is
/// on the way to it, and no other unit works there or where it goes.
pub open spec fn config_goes(m: Migration, v: FsView, j: int, o: Key) -> bool {
    let u = m.units@[j];
    let p = place(o, u.source.key(), u.target.key());
    &&& apart(u.source.key(), u.target.key())
    &&& v.dirs.contains(u.source.key())
    &&& v.text(o) is Some && !is_behind(v, u.source.key(), o)
    &&& v.present.contains(o) && v.accepts.contains(o)
    &&& forall|q: Key| #[trigger]
        on_way(q, u.source.key(), o) ==> off_data(q, m.claude_home@.path) && is_left_to(
            q,
            m.units@,
            j,
        )
    &&& off_data(p, m.claude_home@.path) && is_left_to(p, m.units@, j)
    &&& behind_no_link(p, m, v)
    &&& m.history_jsonl matches Some(f) ==> f.key() != p
    &&& m.claude_json matches Some(f) ==> f.key() != p
}

/// What the other units of a prepared run leave alone.
pub(crate) proof fn lemma_others_away(
    m: Migration,
    n: Migration,
    marked: Seq<Unit>,
    a: FsView,
    j: int,
    x: int,
    q: Key,
)
    requires
        is_prepared(m, n, marked, a),
        all_absolute(m.units@) && all_fresh(m.units@) && units_found(m, a),
        is_plain(m.claude_home@.local_dir),
        0 <= j < m.units@.len(),
        is_left_to(q, m.units@, j),
        0 <= x < active(n.units@).len(),
        !same_move(active(n.units@)[x], n.units@[j]),
    ensures
        unit_away(active(n.units@)[x], a, m.claude_home@, q),
{
    let z = lemma_active_from(n.units@, x);
    if z == j {
        assert(same_move(n.units@[j], n.units@[j]));
    }
    assert(!under(q, m.units@[z].source.key()));
    lemma_unit_prepared_away(m, n, marked, a, q, z);
}

/// The projects of a prepared unit take its routes.
pub(crate) proof fn lemma_own_items(
    m: Migration,
    n: Migration,
    marked: Seq<Unit>,
    a: FsView,
    j: int,
)
    requires
        is_prepared(m, n, marked, a),
        !m.session_only,
        all_fresh(m.units@) && units_found(m, a),
        0 <= j < m.units@.len(),
        !is_settled(m.units@[j], false),
    ensures
        are_of_unit(
            unit_items(n.units@[j], false),
            unit_routes(m, a, m.units@[j]),
            n.units@[j],
            n,
            a,
        ),
{
    lemma_unit_takes(m, n, marked, a, j);
    let items = unit_items(n.units@[j], false);
    let rs = unit_routes(m, a, m.units@[j]);
    assert forall|x: int| 0 <= x < items.len() implies goes(
        #[trigger] items[x],
        rs[x],
        n.claude_home@,
        a,
    ) by {
        assert(takes_route(items[x], rs[x], m, a));
    }
}

/// The settings of the projects of a unit lie in its directory.
proof fn lemma_config_under(m: Migration, a: FsView, j: int, i: int, o: Key)
    requires
        !m.session_only && is_plain(m.claude_home@.local_dir),
        0 <= j < m.units@.len(),
        m.units@[j].source@.len() > 0,
        m.units@[j].state.project_path@ == m.units@[j].source@,
        0 <= i < unit_routes(m, a, m.units@[j]).len(),
        is_config(o, unit_routes(m, a, m.units@[j])[i].0, m.claude_home@),
    ensures
        unit_routes(m, a, m.units@[j])[i].0.len() > 0,
        under(o, m.units@[j].source.key()),
        o != m.units@[j].source.key(),
{
    let u0 = m.units@[j];
    let src = u0.source.key();
    let rs = unit_routes(m, a, u0);
    assert(under(components(rs[i].0), src) && rs[i].0.len() > 0) by {
        assert(under(src, src)) by {
            assert(src.is_prefix_of(src));
        }
        if i > 0 {
            let keys = keys_of_file(a, m.claude_json)->0;
            let list = subproject_keys(keys, u0.source@);
            let f = |k: Seq<char>| is_subproject(k, u0.source@);
            assert(list.contains(list[i - 1]));
            keys.lemma_filter_contains_rev(f, list[i - 1]);
            lemma_sub_under(list[i - 1], u0.source@);
        }
    }
    lemma_config_places(rs[i].0, m.claude_home@);
    lemma_under_under(o, components(rs[i].0), src);
}

/// Until the turn of unit `j` comes, the file at `o` is as it was found.
proof fn lemma_config_waits(
    w: ChainTrace,
    t: RunTrace,
    m: Migration,
    n: Migration,
    marked: Seq<Unit>,
    a: FsView,
    j: int,
    k: int,
    o: Key,
)
    requires
        is_prepared(m, n, marked, a),
        units_trace(w, n, active(n.units@)) && w.vs[0] == t.backed_up,
        backups_step(a, t.backed_up, n, t.backups),
        !m.dry_run,
        m.claude_home@.path.len() > 0 && is_plain(m.claude_home@.local_dir),
        all_absolute(m.units@) && all_fresh(m.units@) && units_found(m, a),
        0 <= j < m.units@.len(),
        config_goes(m, a, j, o),
        under(o, m.units@[j].source.key()) && o != m.units@[j].source.key(),
        0 <= k < active(n.units@).len(),
        forall|y: int|
            0 <= y < k ==> !same_move(#[trigger] active(n.units@)[y], n.units@[j]),
    ensures
        w.vs[k].text(o) == a.text(o),
        w.vs[k].present.contains(o) && w.vs[k].accepts.contains(o),
        w.vs[k].dirs.contains(m.units@[j].source.key()),
        !is_behind(w.vs[k], m.units@[j].source.key(), o),
{
    let home = m.claude_home@;
    let src = m.units@[j].source.key();
    let units = active(n.units@);
    let x = w.vs[k];
    assert forall|q: Key| #[trigger] on_way(q, src, o) implies unchanged_at(w.vs[0], x, q)
        && kept_at(a, w.vs[0], q, components(backup_dir(home.path))) by {
        assert(is_left_to(q, m.units@, j));
        assert(off_data(q, home.path));
        assert forall|y: int| 0 <= y < k implies unit_away(#[trigger] units[y], a, home, q) by {
            lemma_others_away(m, n, marked, a, j, y, q);
        }
        lemma_units_pass(w, n, units, a, q, 0, k);
        lemma_all_backups_quiet(a, t.backed_up, n, t.backups, q);
    }
    assert(on_way(o, src, o)) by {
        assert(o.is_prefix_of(o));
    }
    assert(on_way(src, src, o)) by {
        assert(src.is_prefix_of(src));
    }
    assert(x.file(o) == a.file(o));
    assert(!a.links.contains_key(src)) by {
        if a.links.contains_key(src) {
            assert(is_hidden(a, src, o));
        }
    }
    assert(!is_behind(x, src, o)) by {
        if is_hidden(x, src, o) {
            let q = choose|q: Key| #[trigger]
                x.links.contains_key(q) && under(q, src) && under(o, q) && q != o;
            assert(on_way(q, src, o));
            assert(a.links.contains_key(q));
            assert(is_hidden(a, src, o));
        }
    }
}

/// When its turn comes, unit `j` brings the file along.
proof fn lemma_turn_brings(
    w: ChainTrace,
    t: RunTrace,
    m: Migration,
    n: Migration,
    marked: Seq<Unit>,
    a: FsView,
    j: int,
    i: int,
    k: int,
    o: Key,
)
    requires
        is_prepared(m, n, marked, a),
        units_trace(w, n, active(n.units@)) && w.vs[0] == t.backed_up,
        backups_step(a, t.backed_up, n, t.backups),
        !m.dry_run && !m.session_only && m.subs@.len() > 0,
        m.claude_home@.path.len() > 0 && is_plain(m.claude_home@.local_dir),
        all_absolute(m.units@) && all_fresh(m.units@) && units_found(m, a),
        0 <= j < m.units@.len(),
        !is_settled(m.units@[j], false),
        m.units@[j].state.project_path@ == m.units@[j].source@,
        0 <= i < unit_routes(m, a, m.units@[j]).len(),
        is_config(o, unit_routes(m, a, m.units@[j])[i].0, m.claude_home@),
        forall|x: int|
            0 <= x < unit_routes(m, a, m.units@[j]).len() && x != i ==> !is_config(
                o,
                (#[trigger] unit_routes(m, a, m.units@[j])[x]).0,
                m.claude_home@,
            ),
        config_goes(m, a, j, o),
        0 <= k < active(n.units@).len(),
        active(n.units@)[k] == n.units@[j],
        forall|y: int|
            0 <= y < active(n.units@).len() && y != k ==> !same_move(
                #[trigger] active(n.units@)[y],
                n.units@[j],
            ),
    ensures
        w.vs[k + 1].text(place(o, m.units@[j].source.key(), m.units@[j].target.key())) == Some(
            replaced(m.subs@, a.text(o)->0),
        ),
{
    let u0 = m.units@[j];
    let src = u0.source.key();
    let u = n.units@[j];
    assert(same_move(u0, marked[j]));
    assert(same_move(marked[j], u));
    assert(is_absolute(u0.source));
    lemma_own_items(m, n, marked, a, j);
    lemma_config_under(m, a, j, i, o);
    lemma_config_waits(w, t, m, n, marked, a, j, k, o);
    let out = w.outs[k];
    assert(unit_step(w.vs[k], w.vs[k + 1], n, active(n.units@)[k], out));
    lemma_unit_brings_config(
        w.vs[k],
        w.vs[k + 1],
        n,
        u,
        out,
        unit_routes(m, a, u0),
        a,
        i,
        o,
    );
}

/// No other unit moves as unit `j` does.
pub(crate) proof fn lemma_no_other(
    m: Migration,
    n: Migration,
    marked: Seq<Unit>,
    a: FsView,
    j: int,
    o: Key,
)
    requires
        is_prepared(m, n, marked, a),
        0 <= j < m.units@.len(),
        is_left_to(o, m.units@, j),
        under(o, m.units@[j].source.key()),
    ensures
        forall|x: int|
            0 <= x < n.units@.len() && x != j ==> !same_move(#[trigger] n.units@[x], n.units@[j]),
        same_move(m.units@[j], n.units@[j]),
        n.units@[j].nothing_to_do == is_settled(m.units@[j], m.session_only),
{
    assert(same_move(m.units@[j], marked[j]));
    assert(same_move(marked[j], n.units@[j]));
    assert forall|x: int| 0 <= x < n.units@.len() && x != j implies !same_move(
        #[trigger] n.units@[x],
        n.units@[j],
    ) by {
        assert(!under(o, m.units@[x].source.key()));
        assert(same_move(m.units@[x], marked[x]));
        assert(same_move(marked[x], n.units@[x]));
    }
}

/// Behind the units the file is where it belongs.
proof fn lemma_config_arrives(
    m: Migration,
    n: Migration,
    marked: Seq<Unit>,
    t: RunTrace,
    a: FsView,
    b: FsView,
    j: int,
    i: int,
    o: Key,
)
    requires
        is_prepared(m, n, marked, a),
        run_work(t, n, a, b),
        !m.dry_run && !m.session_only && m.subs@.len() > 0,
        m.claude_home@.path.len() > 0 && is_plain(m.claude_home@.local_dir),
        all_absolute(m.units@) && all_fresh(m.units@) && units_found(m, a),
        0 <= j < m.units@.len(),
        !is_settled(m.units@[j], false),
        m.units@[j].state.project_path@ == m.units@[j].source@,
        0 <= i < unit_routes(m, a, m.units@[j]).len(),
        is_config(o, unit_routes(m, a, m.units@[j])[i].0, m.claude_home@),
        forall|k: int|
            0 <= k < unit_routes(m, a, m.units@[j]).len() && k != i ==> !is_config(
                o,
                (#[trigger] unit_routes(m, a, m.units@[j])[k]).0,
                m.claude_home@,
            ),
        config_goes(m, a, j, o),
    ensures
        t.moved.text(place(o, m.units@[j].source.key(), m.units@[j].target.key())) == Some(
            replaced(m.subs@, a.text(o)->0),
        ),
{
    let home = m.claude_home@;
    let u0 = m.units@[j];
    let src = u0.source.key();
    let p = place(o, src, u0.target.key());
    assert(is_absolute(u0.source) && is_absolute(u0.target));
    lemma_config_under(m, a, j, i, o);
    let units = active(n.units@);
    let w = choose|w: ChainTrace| #[trigger]
        units_trace(w, n, units) && w.vs[0] == t.backed_up && w.vs.last() == t.moved && t.renames
            == w.outs.map_values(|x: Outcome| x.0) && t.reports == all_reports(w.outs);
    assert(on_way(o, src, o)) by {
        assert(o.is_prefix_of(o));
    }
    lemma_no_other(m, n, marked, a, j, o);
    let k = lemma_active_once(n.units@, j);
    lemma_turn_brings(w, t, m, n, marked, a, j, i, k, o);
    assert forall|y: int| k < y < units.len() implies unit_away(
        #[trigger] units[y],
        a,
        home,
        p,
    ) by {
        lemma_others_away(m, n, marked, a, j, y, p);
    }
    lemma_units_pass(w, n, units, a, p, k + 1, units.len() as int);
    assert(t.moved.file(p) == w.vs[k + 1].file(p));
}

/// After a run that goes through, the settings and the server list of each project
/// are where the project belongs, with every reference in them replaced. That holds
/// of the units, which were found at their sources, as of the projects registered
/// below them.
pub proof fn law_project_settings_arrive(
    m: Migration,
    a: FsView,
    b: FsView,
    report: MigrationReport,
    j: int,
    i: int,
    o: Key,
)
    requires
        ran(m, a, b, Ok(report)),
        !m.dry_run && !m.session_only && m.subs@.len() > 0,
        m.claude_home@.path.len() > 0 && is_plain(m.claude_home@.local_dir),
        all_absolute(m.units@) && all_fresh(m.units@) && units_found(m, a),
        0 <= j < m.units@.len(),
        !is_settled(m.units@[j], false),
        m.units@[j].state.project_path@ == m.units@[j].source@,
        0 <= i < unit_routes(m, a, m.units@[j]).len(),
        is_config(o, unit_routes(m, a, m.units@[j])[i].0, m.claude_home@),
        forall|k: int|
            0 <= k < unit_routes(m, a, m.units@[j]).len() && k != i ==> !is_config(
                o,
                (#[trigger] unit_routes(m, a, m.units@[j])[k]).0,
                m.claude_home@,
            ),
        config_goes(m, a, j, o),
    ensures
        b.text(place(o, m.units@[j].source.key(), m.units@[j].target.key())) == Some(
            replaced(m.subs@, a.text(o)->0),
        ),
{
    let u = m.units@[j];
    let p = place(o, u.source.key(), u.target.key());
    assert(!all_settled(m)) by {
        assert(!is_settled(m.units@[j], m.session_only));
    }
    let (n, marked) = choose|n: Migration, marked: Seq<Unit>| #[trigger]
        is_prepared(m, n, marked, a) && goes_through(n, a, b, report);
    let t = choose|t: RunTrace| #[trigger] run_trace(t, n, a, b, report);
    lemma_config_arrives(m, n, marked, t, a, b, j, i, o);
    lemma_arrived_stays(t, n, a, b, p);
}

} // verus!
