//! What a run brings to where it belongs.

use vstd::prelude::*;
use vstd::string::*;

use crate::apply::active;
use crate::apply::all_reports;
use crate::apply::dir_step;
use crate::apply::files_at_step;
use crate::apply::merged_global;
use crate::apply::rename_for;
use crate::apply::rename_step;
use crate::apply::session_places;
use crate::apply::sessions_step;
use crate::apply::sessions_trace;
use crate::apply::unit_step;
use crate::apply::unit_trace;
use crate::apply::units_trace;
use crate::apply::ChainTrace;
use crate::apply::GlobalRename;
use crate::apply::Outcome;
use crate::apply::ProjectTrace;
use crate::apply::UnitTrace;
use crate::batch::Move;
use crate::command::are_plan_units;
use crate::command::asked_moves;
use crate::command::batch_ran;
use crate::command::executed;
use crate::command::move_options;
use crate::command::Command;
use crate::encoder::encoded;
use crate::error::Error;
use crate::frame::away;
use crate::frame::behind_no_link;
use crate::frame::lemma_log_quiet;
use crate::frame::lemma_references_quiet;
use crate::frame::lemma_repoint_quiet;
use crate::frame::lemma_unit_quiet;
use crate::frame::outside;
use crate::frame::unit_spares;
use crate::frame::units_found;
use crate::fs::apart;
use crate::fs::kept_at;
use crate::fs::law_moved_directory_keeps_files;
use crate::fs::origin;
use crate::fs::same_books;
use crate::fs::same_entry;
use crate::fs::texts;
use crate::fs::wrote;
use crate::fs::FsView;
use crate::home::HomeView;
use crate::json::compact;
use crate::laws::lemma_active_described;
use crate::laws::lemma_all_backups_quiet;
use crate::laws::lemma_no_search;
use crate::laws::lemma_project_sessions_quiet;
use crate::laws::lemma_shared_quiet;
use crate::laws::lemma_under_under;
use crate::laws::lemma_units_described;
use crate::laws::off_data;
use crate::merge::both_indexed;
use crate::merge::index_path;
use crate::merge::index_value;
use crate::merge::is_behind;
use crate::merge::is_hidden;
use crate::merge::is_merged_index;
use crate::merge::law_merge_loses_nothing;
use crate::merge::place;
use crate::migration::all_fresh;
use crate::migration::all_settled;
use crate::migration::backups_step;
use crate::migration::goes_through;
use crate::migration::is_prepared;
use crate::migration::ran;
use crate::migration::run_trace;
use crate::migration::run_work;
use crate::migration::MigrationReport;
use crate::migration::RunTrace;
use crate::path::components;
use crate::path::dot;
use crate::path::is_plain;
use crate::path::join_text;
use crate::path::lemma_components_join_name;
use crate::path::under;
use crate::path::FilePath;
use crate::path::Key;
use crate::places::lemma_apart_from_backups;
use crate::places::lemma_global_place;
use crate::places::projects_dir;
use crate::plan::all_absolute;
use crate::plan::is_set_up;
use crate::plan::is_settled;
use crate::plan::same_move;
use crate::plan::Migration;
use crate::scanner::describes;
use crate::scanner::global_dir;
use crate::scanner::has_global;
use crate::scanner::ProjectState;
use crate::substitution::Pairs;
use crate::unit::is_absolute;
use crate::unit::keys_of_file;
use crate::unit::subproject_keys;
use crate::unit::MigrateOpts;
use crate::unit::Unit;
use crate::updater::file_step;
use crate::updater::file_steps;
use crate::updater::UpdateReport;

verus! {

/// Whether no component of `q` is the name of a file in a project that a run
/// rewrites.
pub open spec fn is_ordinary(q: Key) -> bool {
    !q.contains("settings.json"@) && !q.contains(".mcp.json"@)
}

/// An ordinary path is none of the files of a project that are rewritten.
proof fn lemma_spared(state: ProjectState, v: FsView, p: Seq<char>, home: HomeView, q: Key)
    requires
        describes(state, v, p, home),
        q.len() > 0,
        !(q.last() == "settings.json"@),
        !(q.last() == ".mcp.json"@),
    ensures
        away(state, v, home, q),
{
    reveal_strlit("settings.json");
    reveal_strlit(".mcp.json");
    assert(dot()[0] == '.' && dot().len() == 1);
    assert(is_plain("settings.json"@)) by {
        assert("settings.json"@.len() > 1);
    }
    assert(is_plain(".mcp.json"@)) by {
        assert(".mcp.json"@.len() > 1);
    }
    lemma_components_join_name(join_text(p, home.local_dir), "settings.json"@);
    lemma_components_join_name(p, ".mcp.json"@);
}

/// A path that is ordinary at its end is spared by every unit of a prepared run.
proof fn lemma_prepared_spares(
    m0: Migration,
    m: Migration,
    marked: Seq<Unit>,
    v: FsView,
    q: Key,
    i: int,
)
    requires
        is_prepared(m0, m, marked, v),
        all_fresh(m0.units@),
        units_found(m0, v),
        0 <= i < m.units@.len(),
        q.len() > 0,
        !(q.last() == "settings.json"@),
        !(q.last() == ".mcp.json"@),
    ensures
        unit_spares(m.units@[i], v, m0.claude_home@, q),
{
    let home = m0.claude_home@;
    let u = m.units@[i];
    assert(same_move(m0.units@[i], marked[i]));
    assert(same_move(marked[i], u));
    if describes(m0.units@[i].state, v, m0.units@[i].source@, home) {
        lemma_spared(u.state, v, u.source@, home, q);
    } else {
        lemma_spared(u.state, v, u.target@, home, q);
    }
    assert forall|j: int| 0 <= j < u.subprojects@.len() implies away(
        (#[trigger] u.subprojects@[j]).0,
        v,
        home,
        q,
    ) by {
        assert(m0.units@[i].subprojects@.len() == 0);
        assert(!m0.session_only && !marked[i].nothing_to_do);
        let keys = keys_of_file(v, m0.claude_json)->0;
        let list = subproject_keys(keys, marked[i].source@);
        assert(describes(u.subprojects@[j].0, v, list[j], home));
        lemma_spared(u.subprojects@[j].0, v, list[j], home, q);
    }
}

/// A unit that has work left is one of the run's.
pub(crate) proof fn lemma_active_from(all: Seq<Unit>, i: int) -> (k: int)
    requires
        0 <= i < active(all).len(),
    ensures
        0 <= k < all.len(),
        all[k] == active(all)[i],
{
    let f = |w: Unit| !w.nothing_to_do;
    assert(active(all).contains(active(all)[i]));
    all.lemma_filter_contains_rev(f, active(all)[i]);
    choose|k: int| 0 <= k < all.len() && all[k] == active(all)[i]
}

/// The path `q` is the directory `src` or lies on the way from there to `o`.
pub open spec fn on_way(q: Key, src: Key, o: Key) -> bool {
    under(q, src) && under(o, q)
}

/// The file at `o` in the directory of `u` can go where the directory goes: no
/// link is on the way there, and its name is an ordinary one.
pub open spec fn goes_along(v: FsView, u: Unit, o: Key) -> bool {
    &&& under(o, u.source.key()) && o != u.source.key()
    &&& apart(u.source.key(), u.target.key())
    &&& v.dirs.contains(u.source.key())
    &&& v.file(o) is Some && !is_behind(v, u.source.key(), o)
    &&& is_ordinary(o)
}

/// No other unit than `u` works on `q`.
pub open spec fn left_to(q: Key, units: Seq<Unit>, u: Unit) -> bool {
    forall|i: int|
        0 <= i < units.len() ==> same_move(#[trigger] units[i], u) || (!under(
            q,
            units[i].source.key(),
        ) && !under(q, units[i].target.key()))
}

/// On the way from `a` to `x` the file at `o` waits in the directory of `u`.
spec fn waits(a: FsView, x: FsView, u: Unit, o: Key) -> bool {
    forall|q: Key| #[trigger] on_way(q, u.source.key(), o) ==> kept_at(a, x, q, q)
}

/// In `x` the directory of `u` has gone, and the file has arrived.
spec fn has_arrived(a: FsView, x: FsView, u: Unit, o: Key) -> bool {
    &&& x.file(place(o, u.source.key(), u.target.key())) == a.file(o)
    &&& !x.dirs.contains(u.source.key())
    &&& !x.links.contains_key(u.source.key())
}

/// What holds of the units that are moved: they are those of the run, and spare
/// what goes along.
spec fn all_spare(units: Seq<Unit>, v: FsView, home: HomeView, u: Unit, o: Key) -> bool {
    let p = place(o, u.source.key(), u.target.key());
    &&& forall|i: int, q: Key|
        0 <= i < units.len() && on_way(q, u.source.key(), o) ==> #[trigger] unit_spares(
            units[i],
            v,
            home,
            q,
        )
    &&& forall|i: int|
        0 <= i < units.len() ==> #[trigger] unit_spares(units[i], v, home, p)
    &&& forall|q: Key| #[trigger] on_way(q, u.source.key(), o) ==> left_to(q, units, u)
    &&& left_to(p, units, u)
}

/// The directory of the unit moves, and takes a file along.
pub(crate) proof fn lemma_dir_takes(x: FsView, b: FsView, u: Unit, o: Key)
    requires
        dir_step(x, b, false, u, Ok(())),
        apart(u.source.key(), u.target.key()),
        under(o, u.source.key()) && o != u.source.key(),
        x.dirs.contains(u.source.key()),
        x.file(o) is Some && !is_behind(x, u.source.key(), o),
    ensures
        b.file(place(o, u.source.key(), u.target.key())) == x.file(o),
{
    let src = u.source.key();
    let dst = u.target.key();
    assert(under(src, src)) by {
        assert(src.is_prefix_of(src));
    }
    assert(!x.links.contains_key(src)) by {
        if x.links.contains_key(src) {
            assert(is_hidden(x, src, o));
        }
    }
    if x.dirs.contains(dst) {
        law_merge_loses_nothing(x, b, src, dst);
    } else {
        let below = o.skip(src.len() as int);
        assert(src + below =~= o);
        law_moved_directory_keeps_files(x, b, src, dst, below);
    }
}

/// The directory of the unit moves, and takes the waiting file along.
proof fn lemma_dir_brings(a: FsView, x: FsView, b: FsView, u: Unit, o: Key)
    requires
        dir_step(x, b, false, u, Ok(())),
        goes_along(a, u, o),
        waits(a, x, u, o),
    ensures
        has_arrived(a, b, u, o),
{
    let src = u.source.key();
    let dst = u.target.key();
    assert(under(src, src)) by {
        assert(src.is_prefix_of(src));
    }
    assert(under(o, o)) by {
        assert(o.is_prefix_of(o));
    }
    assert(on_way(src, src, o));
    assert(on_way(o, src, o));
    assert(!a.links.contains_key(src)) by {
        if a.links.contains_key(src) {
            assert(is_hidden(a, src, o));
        }
    }
    assert(!is_behind(x, src, o)) by {
        if is_hidden(x, src, o) {
            let q = choose|q: Key| #[trigger]
                x.links.contains_key(q) && under(q, src) && under(o, q) && q != o;
            assert(on_way(q, src, o));
            assert(a.links.contains_key(q));
            assert(is_hidden(a, src, o));
        }
    }
    lemma_dir_takes(x, b, u, o);
}

/// One unit of a run keeps the file waiting or brings it along, and leaves it
/// alone where it has arrived.
proof fn lemma_unit_brings(
    a: FsView,
    x: FsView,
    b: FsView,
    m: Migration,
    w: Unit,
    out: Outcome,
    v: FsView,
    u: Unit,
    o: Key,
)
    requires
        unit_step(x, b, m, w, out),
        !m.session_only,
        goes_along(a, u, o),
        all_spare(seq![w], v, m.claude_home@, u, o),
        forall|q: Key| #[trigger] on_way(q, u.source.key(), o) ==> outside(q, m),
        outside(place(o, u.source.key(), u.target.key()), m),
    ensures
        waits(a, x, u, o) && !same_move(w, u) ==> waits(a, b, u, o),
        waits(a, x, u, o) && same_move(w, u) ==> has_arrived(a, b, u, o),
        has_arrived(a, x, u, o) ==> has_arrived(a, b, u, o),
{
    let src = u.source.key();
    let p = place(o, src, u.target.key());
    let one = seq![w];
    assert(one[0] == w);
    assert(under(src, src)) by {
        assert(src.is_prefix_of(src));
    }
    assert(on_way(src, src, o));
    assert(outside(src, m));
    assert(unit_spares(one[0], v, m.claude_home@, p));
    assert(unit_spares(one[0], v, m.claude_home@, src));
    if same_move(w, u) {
        let t = choose|t: UnitTrace| #[trigger] unit_trace(t, x, b, m, w, out);
        lemma_references_quiet(t, x, m, w, out, v, p);
        lemma_references_quiet(t, x, m, w, out, v, src);
        if waits(a, x, u, o) {
            assert forall|q: Key| #[trigger] on_way(q, src, o) implies kept_at(
                a,
                t.subprojects,
                q,
                q,
            ) by {
                assert(unit_spares(one[0], v, m.claude_home@, q));
                lemma_references_quiet(t, x, m, w, out, v, q);
                assert(kept_at(a, x, q, q));
            }
            lemma_dir_brings(a, t.subprojects, b, w, o);
        }
    } else {
        assert(left_to(p, one, u) && left_to(src, one, u));
        assert(same_move(one[0], u) || (!under(p, one[0].source.key()) && !under(
            p,
            one[0].target.key(),
        )));
        lemma_unit_quiet(x, b, m, w, out, v, p);
        lemma_unit_quiet(x, b, m, w, out, v, src);
        if waits(a, x, u, o) {
            assert forall|q: Key| #[trigger] on_way(q, src, o) implies kept_at(a, b, q, q) by {
                assert(unit_spares(one[0], v, m.claude_home@, q));
                assert(left_to(q, one, u));
                assert(same_move(one[0], u) || (!under(q, one[0].source.key()) && !under(
                    q,
                    one[0].target.key(),
                )));
                lemma_unit_quiet(x, b, m, w, out, v, q);
                assert(kept_at(a, x, q, q));
            }
        }
    }
}

proof fn lemma_units_bring(
    a: FsView,
    t: ChainTrace,
    m: Migration,
    units: Seq<Unit>,
    v: FsView,
    u: Unit,
    o: Key,
    n: int,
)
    requires
        units_trace(t, m, units),
        !m.session_only,
        goes_along(a, u, o),
        waits(a, t.vs[0], u, o),
        all_spare(units, v, m.claude_home@, u, o),
        forall|q: Key| #[trigger] on_way(q, u.source.key(), o) ==> outside(q, m),
        outside(place(o, u.source.key(), u.target.key()), m),
        0 <= n <= t.outs.len(),
    ensures
        waits(a, t.vs[n], u, o) || has_arrived(a, t.vs[n], u, o),
        (exists|i: int| 0 <= i < n && same_move(#[trigger] units[i], u)) ==> has_arrived(
            a,
            t.vs[n],
            u,
            o,
        ),
    decreases n,
{
    if n > 0 {
        lemma_units_bring(a, t, m, units, v, u, o, n - 1);
        let i = n - 1;
        let out = t.outs[i];
        let one = seq![units[i]];
        assert(unit_step(t.vs[i], t.vs[i + 1], m, units[i], out));
        assert(one[0] == units[i]);
        assert(all_spare(one, v, m.claude_home@, u, o)) by {
            let src = u.source.key();
            let p = place(o, src, u.target.key());
            assert forall|j: int, q: Key|
                0 <= j < one.len() && on_way(q, src, o) implies #[trigger] unit_spares(
                one[j],
                v,
                m.claude_home@,
                q,
            ) by {
                assert(unit_spares(units[i], v, m.claude_home@, q));
            }
            assert forall|j: int| 0 <= j < one.len() implies #[trigger] unit_spares(
                one[j],
                v,
                m.claude_home@,
                p,
            ) by {
                assert(unit_spares(units[i], v, m.claude_home@, p));
            }
            assert forall|q: Key| #[trigger] on_way(q, src, o) implies left_to(q, one, u) by {
                assert(left_to(q, units, u));
                assert(same_move(units[i], u) || (!under(q, units[i].source.key()) && !under(
                    q,
                    units[i].target.key(),
                )));
            }
            assert(left_to(p, one, u)) by {
                assert(left_to(p, units, u));
                assert(same_move(units[i], u) || (!under(p, units[i].source.key()) && !under(
                    p,
                    units[i].target.key(),
                )));
            }
        }
        lemma_unit_brings(a, t.vs[i], t.vs[n], m, units[i], out, v, u, o);
        if exists|k: int| 0 <= k < n && same_move(#[trigger] units[k], u) {
            let k = choose|k: int| 0 <= k < n && same_move(#[trigger] units[k], u);
            if k < i {
                assert(0 <= k < n - 1 && same_move(units[k], u));
            }
        }
    }
}

/// The file at `o` in the directory of `u` and the place where it goes are used
/// by the run for nothing else.
pub open spec fn has_room(m: Migration, u: Unit, v: FsView, o: Key) -> bool {
    let p = place(o, u.source.key(), u.target.key());
    &&& off_data(p, m.claude_home@.path)
    &&& forall|q: Key| #[trigger]
        on_way(q, u.source.key(), o) ==> off_data(q, m.claude_home@.path) && left_to(q, m.units@, u)
    &&& left_to(p, m.units@, u)
    &&& behind_no_link(p, m, v)
    &&& m.history_jsonl matches Some(f) ==> f.key() != p
    &&& m.claude_json matches Some(f) ==> f.key() != p
}

proof fn lemma_all_spare(
    m: Migration,
    n: Migration,
    marked: Seq<Unit>,
    a: FsView,
    j: int,
    o: Key,
)
    requires
        is_prepared(m, n, marked, a),
        all_absolute(m.units@) && all_fresh(m.units@) && units_found(m, a),
        0 <= j < m.units@.len(),
        goes_along(a, m.units@[j], o),
        has_room(m, m.units@[j], a, o),
    ensures
        same_move(m.units@[j], n.units@[j]),
        all_spare(active(n.units@), a, m.claude_home@, n.units@[j], o),
{
    let u0 = m.units@[j];
    let src = u0.source.key();
    let p = place(o, src, u0.target.key());
    let home = m.claude_home@;
    let u = n.units@[j];
    let units = active(n.units@);
    assert(same_move(u0, marked[j]));
    assert(same_move(marked[j], u));
    assert(p.last() == o.last()) by {
        if o.len() == src.len() {
            assert(o =~= src);
        }
        assert(o.skip(src.len() as int).len() > 0);
    }
    assert(o.contains(o.last()));
    assert forall|i: int, q: Key|
        0 <= i < units.len() && on_way(q, src, o) implies #[trigger] unit_spares(
        units[i],
        a,
        home,
        q,
    ) by {
        let k = lemma_active_from(n.units@, i);
        lemma_ordinary(q, src, o);
        lemma_prepared_spares(m, n, marked, a, q, k);
    }
    assert forall|i: int| 0 <= i < units.len() implies #[trigger] unit_spares(
        units[i],
        a,
        home,
        p,
    ) by {
        let k = lemma_active_from(n.units@, i);
        lemma_prepared_spares(m, n, marked, a, p, k);
    }
    assert forall|q: Key| left_to(q, m.units@, u0) implies #[trigger] left_to(q, units, u) by {
        assert forall|i: int| 0 <= i < units.len() implies same_move(#[trigger] units[i], u)
            || (!under(q, units[i].source.key()) && !under(q, units[i].target.key())) by {
            let k = lemma_active_from(n.units@, i);
            assert(same_move(m.units@[k], marked[k]));
            assert(same_move(marked[k], n.units@[k]));
            assert(same_move(m.units@[k], u0) || !under(q, m.units@[k].source.key()));
        }
    }
}

/// What has arrived stays through all that comes behind the units.
pub(crate) proof fn lemma_arrived_stays(t: RunTrace, n: Migration, a: FsView, b: FsView, p: Key)
    requires
        run_work(t, n, a, b),
        n.claude_home@.path.len() > 0,
        off_data(p, n.claude_home@.path),
        behind_no_link(p, n, a),
        n.history_jsonl matches Some(f) ==> f.key() != p,
        n.claude_json matches Some(f) ==> f.key() != p,
    ensures
        b.file(p) == t.moved.file(p),
{
    lemma_repoint_quiet(
        t.moved,
        t.repointed,
        n,
        t.outcome.relink_candidates@,
        t.entries,
        t.failures,
        a,
        p,
    );
    lemma_log_quiet(
        t.repointed,
        t.logged,
        t.entries.len() > 0,
        n,
        texts(t.backups),
        "relink.tsv"@,
        crate::relink::relink_log(crate::relink::rows_of(t.entries)),
        t.log,
        p,
    );
    let refs = t.outcome.text_reference_findings@;
    lemma_log_quiet(
        t.logged,
        t.reported,
        !n.dry_run && refs.len() > 0,
        n,
        texts(t.backups),
        "textrefs.tsv"@,
        crate::relink::refs_report(crate::plan::reference_views(refs)),
        t.text_log,
        p,
    );
    lemma_shared_quiet(t.reported, t.history, b, n, t.history_reports, t.json_reports, p);
}

/// The work of a run brings the file to where it belongs.
proof fn lemma_work_brings(t: RunTrace, n: Migration, a: FsView, b: FsView, j: int, o: Key)
    requires
        run_work(t, n, a, b),
        !n.dry_run && !n.session_only,
        n.claude_home@.path.len() > 0,
        0 <= j < n.units@.len(),
        !n.units@[j].nothing_to_do,
        goes_along(a, n.units@[j], o),
        all_spare(active(n.units@), a, n.claude_home@, n.units@[j], o),
        forall|q: Key| #[trigger]
            on_way(q, n.units@[j].source.key(), o) ==> off_data(q, n.claude_home@.path),
        off_data(
            place(o, n.units@[j].source.key(), n.units@[j].target.key()),
            n.claude_home@.path,
        ),
    ensures
        has_arrived(a, t.moved, n.units@[j], o),
{
    let u = n.units@[j];
    let src = u.source.key();
    let home = n.claude_home@;
    let units = active(n.units@);
    let f = |w: Unit| !w.nothing_to_do;
    assert(waits(a, t.backed_up, u, o)) by {
        assert forall|q: Key| #[trigger] on_way(q, src, o) implies kept_at(
            a,
            t.backed_up,
            q,
            q,
        ) by {
            assert(off_data(q, home.path));
            assert(under(q, q)) by {
                assert(q.is_prefix_of(q));
            }
            lemma_all_backups_quiet(a, t.backed_up, n, t.backups, q);
        }
    }
    let w = choose|w: ChainTrace| #[trigger]
        units_trace(w, n, units) && w.vs[0] == t.backed_up && w.vs.last() == t.moved && t.renames
            == w.outs.map_values(|x: Outcome| x.0) && t.reports == all_reports(w.outs);
    lemma_units_bring(a, w, n, units, a, u, o, w.outs.len() as int);
    assert(exists|i: int| 0 <= i < units.len() && same_move(#[trigger] units[i], u)) by {
        n.units@.lemma_filter_contains(f, j);
        let i = choose|i: int| 0 <= i < units.len() && units[i] == u;
        assert(same_move(units[i], u));
    }
}

/// After a run that goes through, the files of each project are where the project
/// belongs: a file in the directory of a unit is found, with the same contents, in
/// the same place below the new path, whether the directory was moved or merged
/// with one that was there. Left out are the files that the run rewrites, what
/// lies behind links, and files in places that the run also uses otherwise.
pub proof fn law_project_files_arrive(
    m: Migration,
    a: FsView,
    b: FsView,
    r: Result<MigrationReport, Error>,
    j: int,
    o: Key,
)
    requires
        ran(m, a, b, r),
        r is Ok,
        !m.dry_run && !m.session_only,
        m.claude_home@.path.len() > 0,
        all_absolute(m.units@) && all_fresh(m.units@) && units_found(m, a),
        0 <= j < m.units@.len(),
        !is_settled(m.units@[j], false),
        goes_along(a, m.units@[j], o),
        has_room(m, m.units@[j], a, o),
    ensures
        b.file(place(o, m.units@[j].source.key(), m.units@[j].target.key())) == a.file(o),
{
    let u0 = m.units@[j];
    let src = u0.source.key();
    let p = place(o, src, u0.target.key());
    let report = r->Ok_0;
    assert(!all_settled(m)) by {
        assert(!is_settled(m.units@[j], m.session_only));
    }
    let (n, marked) = choose|n: Migration, marked: Seq<Unit>| #[trigger]
        is_prepared(m, n, marked, a) && goes_through(n, a, b, report);
    let t = choose|t: RunTrace| #[trigger] run_trace(t, n, a, b, report);
    let home = m.claude_home@;
    let u = n.units@[j];
    assert(same_move(u0, marked[j]));
    assert(same_move(marked[j], u));
    assert(!marked[j].nothing_to_do);
    lemma_all_spare(m, n, marked, a, j, o);
    lemma_work_brings(t, n, a, b, j, o);
    lemma_arrived_stays(t, n, a, b, p);
}

/// What is on the way to an ordinary path is ordinary.
proof fn lemma_ordinary(q: Key, src: Key, o: Key)
    requires
        on_way(q, src, o),
        is_ordinary(o),
        src.len() > 0,
    ensures
        q.len() > 0,
        q.last() != "settings.json"@,
        q.last() != ".mcp.json"@,
{
    let i = q.len() - 1;
    assert(o.subrange(0, q.len() as int)[i] == q[i]);
    assert(o[i] == q.last());
    assert(o.contains(o[i]));
}

/// The global directory that was at `old` is at `new`.
pub open spec fn is_relocated(v: FsView, old: Key, new: Key) -> bool {
    &&& !v.dirs.contains(old) && !v.links.contains_key(old)
    &&& v.dirs.contains(new) && !v.links.contains_key(new)
}

/// The global directory that is to go from `old` to `new` waits.
spec fn is_waiting(v: FsView, old: Key, new: Key) -> bool {
    v.dirs.contains(old) && !v.links.contains_key(old) && !v.links.contains_key(new)
}

/// Moving a global directory, or merging it with one that is there, leaves nothing
/// at the old place and a directory at the new one.
proof fn lemma_rename_relocates(x: FsView, b: FsView, old: Seq<char>, new: Seq<char>)
    requires
        rename_step(x, b, false, Some((old, new)), Ok(())),
        apart(components(old), components(new)),
        is_waiting(x, components(old), components(new)) || is_relocated(
            x,
            components(old),
            components(new),
        ),
    ensures
        is_relocated(b, components(old), components(new)),
{
    let from = components(old);
    let to = components(new);
    if x.dirs.contains(to) {
        let r: Result<(), Error> = Ok(());
        let (mid, index) = choose|mid: FsView, index: Result<(), Error>| #[trigger]
            merged_global(x, mid, b, old, new, index, r);
        assert(same_entry(x, mid, to)) by {
            if both_indexed(x, old, new) {
                let source = components(index_path(old));
                lemma_index_below(old);
                if under(to, source) {
                    lemma_under_under(to, source, from);
                }
                let (before, w) = choose|before: FsView, w: serde_json::Value| #[trigger]
                    is_merged_index(index_value(x, old)->0, index_value(x, new)->0, w)
                        && #[trigger] wrote(
                        x,
                        before,
                        components(index_path(new)),
                        vstd::utf8::encode_utf8(compact(w)),
                    ) && mid.file(source) is None && !mid.links.contains_key(source) && same_books(
                        x,
                        mid,
                    ) && forall|q: Key| !under(q, source) ==> #[trigger] same_entry(before, mid, q);
                lemma_index_below(new);
                assert(same_entry(before, mid, to));
                assert(before.file(to) == x.file(to));
            }
        }
        assert(same_entry(mid, b, to));
        assert(under(from, from)) by {
            assert(from.is_prefix_of(from));
        }
    } else {
        assert(under(from, from)) by {
            assert(from.is_prefix_of(from));
        }
        assert(under(to, to)) by {
            assert(to.is_prefix_of(to));
        }
        assert(origin(from, to, from) =~= to);
        assert(origin(to, from, to) =~= from);
    }
}

/// An index lies in its directory.
proof fn lemma_index_below(dir: Seq<char>)
    ensures
        components(index_path(dir)) == components(dir).push("sessions-index.json"@),
        under(components(index_path(dir)), components(dir)),
        !under(components(dir), components(index_path(dir))),
{
    reveal_strlit("sessions-index.json");
    assert(dot()[0] == '.' && dot().len() == 1);
    assert(is_plain("sessions-index.json"@)) by {
        assert("sessions-index.json"@.len() > 1);
    }
    lemma_components_join_name(dir, "sessions-index.json"@);
    let k = components(dir);
    assert(k.push("sessions-index.json"@).subrange(0, k.len() as int) =~= k);
}

/// Updating files makes and removes no directory and no link.
pub(crate) proof fn lemma_updates_keep_dirs(
    vs: Seq<FsView>,
    files: Seq<FilePath>,
    subs: Pairs,
    reports: Seq<UpdateReport>,
    n: int,
)
    requires
        file_steps(vs, files, subs, false, reports),
        0 <= n <= reports.len(),
    ensures
        vs[n].dirs == vs[0].dirs,
        vs[n].links == vs[0].links,
    decreases n,
{
    if n > 0 {
        lemma_updates_keep_dirs(vs, files, subs, reports, n - 1);
        assert(file_step(
            vs[n - 1],
            vs[n - 1 + 1],
            files[n - 1],
            subs,
            false,
            Ok(reports[n - 1]),
        ));
    }
}

/// The sessions of a project relocate its global directory.
proof fn lemma_sessions_relocate(
    t: ProjectTrace,
    x: FsView,
    m: Migration,
    state: ProjectState,
    target: Seq<char>,
    rename: Option<GlobalRename>,
    old: Seq<char>,
    new: Seq<char>,
)
    requires
        sessions_trace(t, x, m, state, target, rename),
        !m.dry_run,
        rename_for(state, target, m.claude_home@) == Some((old, new)),
        apart(components(old), components(new)),
        is_waiting(x, components(old), components(new)) || is_relocated(
            x,
            components(old),
            components(new),
        ),
    ensures
        is_relocated(t.sessions, components(old), components(new)),
{
    lemma_rename_relocates(x, t.renamed, old, new);
    let dir = state.global_project_dir->0@;
    let reports = t.session_reports;
    let files = choose|files: Seq<FilePath>| #[trigger]
        files_at_step(
            t.renamed,
            t.sessions,
            files,
            session_places(state, dir, new, false),
            m.subs@,
            false,
            Ok(reports),
        );
    let vs = choose|vs: Seq<FsView>| #[trigger]
        file_steps(vs, files, m.subs@, false, reports@) && vs[0] == t.renamed && vs.last()
            == t.sessions;
    lemma_updates_keep_dirs(vs, files, m.subs@, reports@, reports@.len() as int);
}

/// The names of the global directories of two moves have nothing in common.
pub open spec fn other_names(w: Unit, u: Unit) -> bool {
    &&& encoded(w.source@) != encoded(u.source@) && encoded(w.source@) != encoded(u.target@)
    &&& encoded(w.target@) != encoded(u.source@) && encoded(w.target@) != encoded(u.target@)
}

/// Global directories with different names lie apart.
pub(crate) proof fn lemma_names_apart(p: Seq<char>, q: Seq<char>, home: HomeView)
    requires
        p.len() > 0 && p[0] == '/',
        q.len() > 0 && q[0] == '/',
        encoded(p) != encoded(q),
    ensures
        apart(components(global_dir(p, home)), components(global_dir(q, home))),
{
    lemma_global_place(p, home.path);
    lemma_global_place(q, home.path);
    let a = components(global_dir(p, home));
    let b = components(global_dir(q, home));
    let n = projects_dir(home.path).len() as int;
    if under(a, b) {
        assert(a.subrange(0, b.len() as int)[n] == b[n]);
    }
    if under(b, a) {
        assert(b.subrange(0, a.len() as int)[n] == a[n]);
    }
}

/// The units of a session-only run relocate the global directory of `u`: the one
/// that is `u` moves it, and all others leave it alone.
proof fn lemma_units_relocate(
    t: ChainTrace,
    m: Migration,
    units: Seq<Unit>,
    v: FsView,
    u: Unit,
    n: int,
)
    requires
        units_trace(t, m, units),
        m.session_only && !m.dry_run,
        m.claude_home@.path.len() > 0,
        all_absolute(units),
        is_absolute(u.source) && is_absolute(u.target),
        forall|i: int|
            0 <= i < units.len() ==> describes(
                (#[trigger] units[i]).state,
                v,
                units[i].source@,
                m.claude_home@,
            ),
        forall|i: int|
            0 <= i < units.len() ==> same_move(#[trigger] units[i], u) || other_names(units[i], u),
        has_global(v, u.source@, m.claude_home@),
        encoded(u.source@) != encoded(u.target@),
        is_waiting(
            t.vs[0],
            components(global_dir(u.source@, m.claude_home@)),
            components(global_dir(u.target@, m.claude_home@)),
        ),
        0 <= n <= t.outs.len(),
    ensures
        ({
            let old = components(global_dir(u.source@, m.claude_home@));
            let new = components(global_dir(u.target@, m.claude_home@));
            &&& is_waiting(t.vs[n], old, new) || is_relocated(t.vs[n], old, new)
            &&& (exists|i: int| 0 <= i < n && same_move(#[trigger] units[i], u)) ==> is_relocated(
                t.vs[n],
                old,
                new,
            )
        }),
    decreases n,
{
    if n > 0 {
        lemma_units_relocate(t, m, units, v, u, n - 1);
        let home = m.claude_home@;
        let i = n - 1;
        let x = t.vs[i];
        let b = t.vs[n];
        let w = units[i];
        let out = t.outs[i];
        let old = global_dir(u.source@, home);
        let new = global_dir(u.target@, home);
        assert(unit_step(t.vs[i], t.vs[i + 1], m, w, out));
        let reports = choose|reports: Vec<UpdateReport>| #[trigger]
            sessions_step(x, b, m, w.state, w.target@, out.0, reports) && out.1 == reports@;
        let s = choose|s: ProjectTrace| #[trigger]
            sessions_trace(s, x, m, w.state, w.target@, out.0) && s.sessions == b
                && s.session_reports == reports;
        lemma_names_apart(u.source@, u.target@, home);
        assert(describes(w.state, v, w.source@, home));
        if same_move(w, u) {
            assert(under(components(old), components(old))) by {
                assert(components(old).is_prefix_of(components(old)));
            }
            assert(rename_for(w.state, w.target@, home) == Some((old, new)));
            lemma_sessions_relocate(s, x, m, w.state, w.target@, out.0, old, new);
        } else {
            assert(other_names(units[i], u));
            lemma_names_apart(u.source@, w.source@, home);
            lemma_names_apart(u.source@, w.target@, home);
            lemma_names_apart(u.target@, w.source@, home);
            lemma_names_apart(u.target@, w.target@, home);
            lemma_project_sessions_quiet(
                s,
                x,
                m,
                w.state,
                w.target@,
                out.0,
                v,
                w.source@,
                components(old),
            );
            lemma_project_sessions_quiet(
                s,
                x,
                m,
                w.state,
                w.target@,
                out.0,
                v,
                w.source@,
                components(new),
            );
        }
        if exists|k: int| 0 <= k < n && same_move(#[trigger] units[k], u) {
            let k = choose|k: int| 0 <= k < n && same_move(#[trigger] units[k], u);
            if k < i {
                assert(0 <= k < n - 1 && same_move(units[k], u));
            }
        }
    }
}

/// Backups leave a global directory where it is.
proof fn lemma_global_kept(a: FsView, t: RunTrace, m: Migration, p: Seq<char>)
    requires
        backups_step(a, t.backed_up, m, t.backups),
        m.claude_home@.path.len() > 0,
        p.len() > 0 && p[0] == '/',
    ensures
        ({
            let q = components(global_dir(p, m.claude_home@));
            &&& t.backed_up.links.contains_key(q) == a.links.contains_key(q)
            &&& !a.links.contains_key(q) ==> t.backed_up.dirs.contains(q) == a.dirs.contains(q)
        }),
{
    let home = m.claude_home@.path;
    let q = components(global_dir(p, m.claude_home@));
    let dir = projects_dir(home);
    lemma_global_place(p, home);
    assert(under(q, dir)) by {
        assert(q.subrange(0, dir.len() as int) =~= dir);
    }
    lemma_apart_from_backups(home, q);
    lemma_all_backups_quiet(a, t.backed_up, m, t.backups, q);
}

/// What a session-only run does to the global directory of a move, from what its
/// plan found.
proof fn lemma_session_only_relocates(
    m0: Migration,
    a: FsView,
    b: FsView,
    moves: Seq<Move>,
    home: HomeView,
    o: MigrateOpts,
    timestamp: Seq<char>,
    r: Result<MigrationReport, Error>,
    j: int,
)
    requires
        home.path.len() > 0,
        o.session_only && !o.relink && !o.dry_run,
        is_set_up(m0, m0.units@, home, o, timestamp),
        m0.units@.len() == moves.len(),
        are_plan_units(m0.units@, a, moves, home),
        ran(m0, a, b, r),
        r is Ok,
        0 <= j < moves.len(),
        has_global(a, moves[j].source@, home),
        moves[j].source.key() != moves[j].target.key(),
        encoded(moves[j].source@) != encoded(moves[j].target@),
        !a.links.contains_key(components(global_dir(moves[j].source@, home))),
        !a.links.contains_key(components(global_dir(moves[j].target@, home))),
        forall|i: int|
            0 <= i < moves.len() && i != j ==> {
                &&& encoded((#[trigger] moves[i]).source@) != encoded(moves[j].source@)
                &&& encoded(moves[i].source@) != encoded(moves[j].target@)
                &&& encoded(moves[i].target@) != encoded(moves[j].source@)
                &&& encoded(moves[i].target@) != encoded(moves[j].target@)
            },
    ensures
        is_relocated(
            b,
            components(global_dir(moves[j].source@, home)),
            components(global_dir(moves[j].target@, home)),
        ),
{
    let old = components(global_dir(moves[j].source@, home));
    let new = components(global_dir(moves[j].target@, home));
    let u0 = m0.units@[j];
    assert(u0.is_fresh(moves[j].source, moves[j].target));
    assert(!is_settled(u0, true));
    assert(!all_settled(m0));
    let report = r->Ok_0;
    let (m, marked) = choose|m: Migration, marked: Seq<Unit>| #[trigger]
        is_prepared(m0, m, marked, a) && goes_through(m, a, b, report);
    let t = choose|t: RunTrace| #[trigger] run_trace(t, m, a, b, report);
    lemma_units_described(m0, m, marked, a, moves);
    lemma_global_kept(a, t, m, moves[j].source@);
    lemma_global_kept(a, t, m, moves[j].target@);
    let units = active(m.units@);
    let u = m.units@[j];
    assert(same_move(u0, marked[j]));
    let f = |w: Unit| !w.nothing_to_do;
    assert forall|i: int| 0 <= i < units.len() implies is_absolute((#[trigger] units[i]).source)
        && is_absolute(units[i].target) && (same_move(units[i], u) || other_names(units[i], u))
        && describes(units[i].state, a, units[i].source@, home) by {
        lemma_active_described(m, a, i);
        let k = lemma_active_from(m.units@, i);
        assert(same_move(m0.units@[k], marked[k]));
        assert(m0.units@[k].is_fresh(moves[k].source, moves[k].target));
    }
    let w = choose|w: ChainTrace| #[trigger]
        units_trace(w, m, units) && w.vs[0] == t.backed_up && w.vs.last() == t.moved && t.renames
            == w.outs.map_values(|x: Outcome| x.0) && t.reports == all_reports(w.outs);
    lemma_units_relocate(w, m, units, a, u, w.outs.len() as int);
    assert(exists|i: int| 0 <= i < units.len() && same_move(#[trigger] units[i], u)) by {
        m.units@.lemma_filter_contains(f, j);
        let i = choose|i: int| 0 <= i < units.len() && units[i] == u;
        assert(same_move(units[i], u));
    }
    lemma_no_search(t, m, a, b);
    assert(b.dirs == t.moved.dirs && b.links == t.moved.links);
}

/// After a session-only command that goes through, the global directory of each
/// project has its new name: nothing is left under the old one, and a directory is
/// under the new one, whether there was one before or not. No links stand in for the
/// two, and no other move of the command concerns directories of these names.
pub proof fn law_session_only_moves_global_directories(
    c: Command,
    a: FsView,
    b: FsView,
    home: HomeView,
    timestamp: Seq<char>,
    r: Result<MigrationReport, Error>,
    j: int,
)
    requires
        home.path.len() > 0,
        executed(c, a, b, home, timestamp, r),
        move_options(c) matches Some(o) && o.session_only && !o.relink && !o.dry_run,
        r is Ok,
        0 <= j < asked_moves(c).len(),
        ({
            let moves = asked_moves(c);
            let source = moves[j].source@;
            let target = moves[j].target@;
            &&& has_global(a, source, home)
            &&& moves[j].source.key() != moves[j].target.key()
            &&& encoded(source) != encoded(target)
            &&& !a.links.contains_key(components(global_dir(source, home)))
            &&& !a.links.contains_key(components(global_dir(target, home)))
            &&& forall|i: int|
                0 <= i < moves.len() && i != j ==> {
                    &&& encoded((#[trigger] moves[i]).source@) != encoded(source)
                    &&& encoded(moves[i].source@) != encoded(target)
                    &&& encoded(moves[i].target@) != encoded(source)
                    &&& encoded(moves[i].target@) != encoded(target)
                }
        }),
    ensures
        is_relocated(
            b,
            components(global_dir(asked_moves(c)[j].source@, home)),
            components(global_dir(asked_moves(c)[j].target@, home)),
        ),
{
    let o = move_options(c)->0;
    let moves = asked_moves(c);
    assert(batch_ran(a, b, moves, home, o, timestamp, r));
    let m0 = choose|m: Migration| #[trigger]
        is_set_up(m, m.units@, home, o, timestamp) && m.units@.len() == moves.len()
            && are_plan_units(m.units@, a, moves, home) && ran(m, a, b, r);
    lemma_session_only_relocates(m0, a, b, moves, home, o, timestamp, r, j);
}

} // verus!
