//! The projects of a run, one after the other.

use vstd::prelude::*;

use crate::apply::all_reports;
use crate::apply::dir_step;
use crate::apply::project_step;
use crate::apply::sessions_step;
use crate::apply::subprojects_trace;
use crate::apply::unit_step;
use crate::apply::unit_trace;
use crate::apply::units_trace;
use crate::apply::ChainTrace;
use crate::apply::Outcome;
use crate::apply::UnitTrace;
use crate::fs::FsView;
use crate::plan::Migration;
use crate::scanner::ProjectState;
use crate::unit::Unit;
use crate::updater::UpdateReport;

verus! {

/// A project on the move: what was found of it, and where it goes. With the last
/// project of a unit the unit's directory moves.
pub struct Item {
    pub state: ProjectState,
    pub target: Seq<char>,
    pub ends: Option<Unit>,
}

/// The projects of a unit: its own, then those below it. A session-only run moves its
/// own sessions and no directory.
pub open spec fn unit_items(u: Unit, session_only: bool) -> Seq<Item> {
    if session_only {
        seq![Item { state: u.state, target: u.target@, ends: None }]
    } else {
        Seq::new(
            u.subprojects@.len() + 1,
            |i: int|
                Item {
                    state: if i == 0 {
                        u.state
                    } else {
                        u.subprojects@[i - 1].0
                    },
                    target: if i == 0 {
                        u.target@
                    } else {
                        u.subprojects@[i - 1].1@
                    },
                    ends: if i == u.subprojects@.len() {
                        Some(u)
                    } else {
                        None
                    },
                },
        )
    }
}

/// The projects of all units.
pub open spec fn flat_items(units: Seq<Unit>, session_only: bool) -> Seq<Item>
    decreases units.len(),
{
    if units.len() == 0 {
        Seq::empty()
    } else {
        flat_items(units.drop_last(), session_only) + unit_items(units.last(), session_only)
    }
}

/// What moving one project does, and what comes of it.
pub open spec fn item_step(x: FsView, y: FsView, m: Migration, item: Item, out: Outcome) -> bool {
    if m.session_only {
        exists|reports: Vec<UpdateReport>| #[trigger]
            sessions_step(x, y, m, item.state, item.target, out.0, reports) && out.1 == reports@
    } else {
        project_step(x, y, m, item.state, item.target, out)
    }
}

/// What happens behind a project, before the next one.
pub open spec fn gap_step(x: FsView, y: FsView, m: Migration, item: Item) -> bool {
    match item.ends {
        Some(u) => dir_step(x, y, m.dry_run, u, Ok(())),
        None => y == x,
    }
}

/// The states before the projects, those behind each of them, and what came of each.
pub struct FlatTrace {
    pub xs: Seq<FsView>,
    pub mids: Seq<FsView>,
    pub outs: Seq<Outcome>,
}

/// The projects are moved one after the other.
pub open spec fn flat_trace(t: FlatTrace, m: Migration, items: Seq<Item>) -> bool {
    &&& t.xs.len() == items.len() + 1
    &&& t.mids.len() == items.len()
    &&& t.outs.len() == items.len()
    &&& forall|i: int|
        #![trigger t.outs[i]]
        0 <= i < items.len() ==> item_step(t.xs[i], t.mids[i], m, items[i], t.outs[i])
            && gap_step(t.mids[i], t.xs[i + 1], m, items[i])
}

pub(crate) proof fn lemma_all_reports_add(a: Seq<Outcome>, b: Seq<Outcome>)
    ensures
        all_reports(a + b) == all_reports(a) + all_reports(b),
    decreases b.len(),
{
    if b.len() == 0 {
        assert(a + b =~= a);
        assert(all_reports(a) + all_reports(b) =~= all_reports(a));
    } else {
        assert((a + b).drop_last() =~= a + b.drop_last());
        assert((a + b).last() == b.last());
        lemma_all_reports_add(a, b.drop_last());
        assert(all_reports(a + b) =~= all_reports(a) + all_reports(b));
    }
}

/// One trace behind another.
proof fn lemma_trace_add(
    s: FlatTrace,
    t: FlatTrace,
    m: Migration,
    first: Seq<Item>,
    second: Seq<Item>,
) -> (r: FlatTrace)
    requires
        flat_trace(s, m, first),
        flat_trace(t, m, second),
        s.xs.last() == t.xs[0],
    ensures
        flat_trace(r, m, first + second),
        r.xs[0] == s.xs[0],
        r.xs.last() == t.xs.last(),
        all_reports(r.outs) == all_reports(s.outs) + all_reports(t.outs),
{
    let r = FlatTrace {
        xs: s.xs.drop_last() + t.xs,
        mids: s.mids + t.mids,
        outs: s.outs + t.outs,
    };
    let items = first + second;
    lemma_all_reports_add(s.outs, t.outs);
    assert forall|i: int|
        #![trigger r.outs[i]]
        0 <= i < items.len() implies item_step(r.xs[i], r.mids[i], m, items[i], r.outs[i])
        && gap_step(r.mids[i], r.xs[i + 1], m, items[i]) by {
        if i < first.len() {
            assert(r.outs[i] == s.outs[i]);
            assert(r.xs[i] == s.xs[i]);
            assert(r.xs[i + 1] == s.xs[i + 1]);
        } else {
            let j = i - first.len();
            assert(r.outs[i] == t.outs[j]);
            assert(r.xs[i] == t.xs[j]);
            assert(r.xs[i + 1] == t.xs[j + 1]);
        }
    }
    r
}

/// The projects of a unit are moved one after the other.
pub(crate) proof fn lemma_flat_unit(
    a: FsView,
    b: FsView,
    m: Migration,
    u: Unit,
    out: Outcome,
) -> (r: FlatTrace)
    requires
        unit_step(a, b, m, u, out),
    ensures
        flat_trace(r, m, unit_items(u, m.session_only)),
        r.xs[0] == a,
        r.xs.last() == b,
        all_reports(r.outs) == out.1,
{
    let items = unit_items(u, m.session_only);
    if m.session_only {
        let r = FlatTrace { xs: seq![a, b], mids: seq![b], outs: seq![out] };
        assert(r.outs[0] == out);
        assert(r.outs.drop_last() =~= Seq::empty());
        assert(all_reports(r.outs.drop_last()) =~= Seq::empty());
        assert(all_reports(r.outs) =~= out.1);
        let reports = choose|reports: Vec<UpdateReport>| #[trigger]
            sessions_step(a, b, m, u.state, u.target@, out.0, reports) && out.1 == reports@;
        assert forall|i: int|
            #![trigger r.outs[i]]
            0 <= i < items.len() implies item_step(r.xs[i], r.mids[i], m, items[i], r.outs[i])
            && gap_step(r.mids[i], r.xs[i + 1], m, items[i]) by {
            assert(i == 0);
            assert(sessions_step(a, b, m, items[0].state, items[0].target, out.0, reports));
        }
        r
    } else {
        let w = choose|w: UnitTrace| #[trigger] unit_trace(w, a, b, m, u, out);
        let n = u.subprojects@.len() as int;
        let own = (out.0, w.reports);
        let r = FlatTrace {
            xs: seq![a] + w.chain.vs.drop_last() + seq![b],
            mids: w.chain.vs,
            outs: seq![own] + w.chain.outs,
        };
        assert(subprojects_trace(w.chain, m, u.subprojects@));
        lemma_all_reports_add(seq![own], w.chain.outs);
        assert(seq![own].drop_last() =~= Seq::empty());
        assert(all_reports(seq![own].drop_last()) =~= Seq::empty());
        assert(all_reports(seq![own]) =~= w.reports);
        assert forall|i: int|
            #![trigger r.outs[i]]
            0 <= i < items.len() implies item_step(r.xs[i], r.mids[i], m, items[i], r.outs[i])
            && gap_step(r.mids[i], r.xs[i + 1], m, items[i]) by {
            if i == 0 {
                assert(r.outs[i] == own);
            } else {
                assert(r.outs[i] == w.chain.outs[i - 1]);
                assert(project_step(
                    w.chain.vs[i - 1],
                    w.chain.vs[i - 1 + 1],
                    m,
                    u.subprojects@[i - 1].0,
                    u.subprojects@[i - 1].1@,
                    w.chain.outs[i - 1],
                ));
                assert(r.xs[i] == w.chain.vs[i - 1]);
            }
            if i < n {
                assert(r.xs[i + 1] == w.chain.vs[i]);
            } else {
                assert(r.xs[i + 1] == b);
                assert(w.chain.vs[n] == w.chain.vs.last());
            }
        }
        r
    }
}

/// The projects of all units are moved one after the other.
pub(crate) proof fn lemma_flatten(t: ChainTrace, m: Migration, units: Seq<Unit>) -> (r: FlatTrace)
    requires
        units_trace(t, m, units),
    ensures
        flat_trace(r, m, flat_items(units, m.session_only)),
        r.xs[0] == t.vs[0],
        r.xs.last() == t.vs.last(),
        all_reports(r.outs) == all_reports(t.outs),
    decreases units.len(),
{
    if units.len() == 0 {
        let r = FlatTrace { xs: t.vs, mids: Seq::empty(), outs: Seq::empty() };
        assert(t.outs =~= Seq::empty());
        r
    } else {
        let n = units.len() - 1;
        let init = ChainTrace { vs: t.vs.drop_last(), outs: t.outs.drop_last() };
        assert(units_trace(init, m, units.drop_last())) by {
            assert forall|i: int|
                #![trigger init.outs[i]]
                0 <= i < init.outs.len() implies unit_step(
                init.vs[i],
                init.vs[i + 1],
                m,
                units.drop_last()[i],
                init.outs[i],
            ) by {
                assert(init.outs[i] == t.outs[i]);
            }
        }
        let first = lemma_flatten(init, m, units.drop_last());
        let out = t.outs[n];
        assert(unit_step(t.vs[n], t.vs[n + 1], m, units[n], out));
        let second = lemma_flat_unit(t.vs[n], t.vs[n + 1], m, units[n], out);
        lemma_trace_add(
            first,
            second,
            m,
            flat_items(units.drop_last(), m.session_only),
            unit_items(units.last(), m.session_only),
        )
    }
}

} // verus!
