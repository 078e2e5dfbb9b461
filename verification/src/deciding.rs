//! What is decided before anything is changed: which moves are possible, what a plan
//! must be like, and where a move goes.

use vstd::prelude::*;

use crate::apply::active;
use crate::batch::by_line;
use crate::batch::first_source;
use crate::batch::first_target;
use crate::batch::law_problems_are_reported_in_order;
use crate::batch::law_sound_plan_is_apart;
use crate::batch::moves_apart;
use crate::batch::path_problems;
use crate::batch::path_problems_of;
use crate::batch::plan_problems;
use crate::batch::reported;
use crate::batch::shape_problems;
use crate::batch::Move;
use crate::batch::PlanRules;
use crate::batch::Problem;
use crate::batch::RawMove;
use crate::cli::Cli;
use crate::command::are_moves_into;
use crate::command::are_options;
use crate::command::last_name;
use crate::command::move_target;
use crate::command::raw_paths;
use crate::command::source_path;
use crate::command::target_path;
use crate::command::Resolved;
use crate::decimal::decimal;
use crate::encoder::encoded;
use crate::error::Error;
use crate::finding::below;
use crate::fs::texts;
use crate::fs::FsView;
use crate::home::HomeView;
use crate::migration::backed_up;
use crate::order::sorted;
use crate::path::components;
use crate::path::dot;
use crate::path::dot_dot;
use crate::path::is_name;
use crate::path::is_plain;
use crate::path::join_text;
use crate::path::lemma_components_join_name;
use crate::path::slash;
use crate::path::FilePath;
use crate::path::Key;
use crate::places::lemma_global_place;
use crate::plan::if_some;
use crate::plan::is_settled;
use crate::plan::run_files;
use crate::plan::state_files;
use crate::plan::sub_files;
use crate::plan::unit_files;
use crate::plan::unit_pairs;
use crate::plan::unreadable;
use crate::plan::Migration;
use crate::scanner::fault_of;
use crate::scanner::global_dir;
use crate::scanner::has_subagents;
use crate::scanner::subagents_dir;
use crate::scanner::Fault;
use crate::scanner::ProjectState;
use crate::spelling::is_entry_name;
use crate::spelling::law_components_are_the_names;
use crate::unit::unit_error;
use crate::unit::unit_possible;
use crate::unit::MigrateOpts;
use crate::unit::Unit;

verus! {

/// Where the data of the project at `p` lies.
pub open spec fn data_place(p: Seq<char>, home: HomeView) -> Key {
    components(home.path).push("projects"@).push(encoded(p))
}

/// There is a project at `p`: its directory, or its data.
pub open spec fn is_there(v: FsView, p: Seq<char>, home: HomeView) -> bool {
    v.dirs.contains(components(p)) || v.dirs.contains(data_place(p, home))
}

/// A project can be scanned where its path is absolute and its data, if there is any,
/// can be listed, with the sessions of subagents.
pub proof fn law_what_can_be_scanned(v: FsView, p: Seq<char>, home: HomeView)
    ensures
        !(p.len() > 0 && p[0] == '/') ==> fault_of(v, p, home) == Some(Fault::Relative(p)),
        p.len() > 0 && p[0] == '/' && !v.dirs.contains(data_place(p, home)) ==> fault_of(
            v,
            p,
            home,
        ) is None,
        p.len() > 0 && p[0] == '/' && v.dirs.contains(data_place(p, home)) ==> {
            let list = v.listing[global_dir(p, home)];
            &&& !v.listing.contains_key(global_dir(p, home)) ==> fault_of(v, p, home)
                == Some(Fault::Unlistable)
            &&& v.listing.contains_key(global_dir(p, home)) ==> (fault_of(v, p, home) is None
                <==> forall|i: int|
                0 <= i < list.len() && v.dirs.contains(components(#[trigger] list[i]))
                    && v.dirs.contains(components(list[i]).push("subagents"@))
                    ==> v.listing.contains_key(join_text(list[i], "subagents"@)))
        },
{
    if p.len() > 0 && p[0] == '/' {
        lemma_global_place(p, home.path);
        let list = v.listing[global_dir(p, home)];
        assert forall|i: int| 0 <= i < list.len() implies has_subagents(v, #[trigger] list[i]) == (
        v.dirs.contains(components(list[i])) && v.dirs.contains(
            components(list[i]).push("subagents"@),
        )) by {
            lemma_subagents_place(list[i]);
        }
    }
}

proof fn lemma_subagents_place(e: Seq<char>)
    ensures
        components(subagents_dir(e)) == components(e).push("subagents"@),
{
    reveal_strlit("subagents");
    let c = "subagents"@;
    assert(is_plain(c)) by {
        assert(dot().len() == 1);
        assert forall|i: int| 0 <= i < c.len() implies c[i] != '/' by {}
    }
    lemma_components_join_name(e, c);
}

/// When a move can be made. Both paths have to be absolute. Where the source is there,
/// only data at another target stands in the way of a move with its directory, unless
/// the move is forced; where it is not, the move must have been made before.
pub proof fn law_which_moves_are_possible(
    v: FsView,
    source: FilePath,
    target: FilePath,
    home: HomeView,
    opts: MigrateOpts,
    e: Error,
)
    requires
        source@.len() > 0 && source@[0] == '/',
        target@.len() > 0 && target@[0] == '/',
        fault_of(v, source@, home) is None,
        fault_of(v, target@, home) is None,
    ensures
        is_there(v, source@, home) ==> (unit_possible(v, source, target, home, opts) <==> (
        source.key() == target.key() || opts.session_only || opts.force || !v.dirs.contains(
            data_place(target@, home),
        ))),
        !is_there(v, source@, home) ==> (unit_possible(v, source, target, home, opts) <==> (
        source.key() != target.key() && !opts.session_only && is_there(v, target@, home))),
        is_there(v, source@, home) && unit_error(e, v, source, target, home, opts) ==> e
            == Error::OccupiedTarget(target),
        !is_there(v, source@, home) && unit_error(e, v, source, target, home, opts) ==> e
            == Error::MissingSource(source),
{
    lemma_global_place(source@, home.path);
    lemma_global_place(target@, home.path);
}

/// A move from or to a relative path is refused for that.
pub proof fn law_relative_moves_are_refused(
    v: FsView,
    source: FilePath,
    target: FilePath,
    home: HomeView,
    opts: MigrateOpts,
    e: Error,
)
    ensures
        !(source@.len() > 0 && source@[0] == '/') ==> {
            &&& !unit_possible(v, source, target, home, opts)
            &&& unit_error(e, v, source, target, home, opts) ==> e == Error::RelativeSource(source)
        },
        source@.len() > 0 && source@[0] == '/' && !(target@.len() > 0 && target@[0] == '/') ==> {
            &&& !unit_possible(v, source, target, home, opts)
            &&& unit_error(e, v, source, target, home, opts) ==> e == Error::RelativeTarget(target)
        },
{
}

/// What a move of a plan needs on the file system: its source is there, and no data lies
/// at another target, unless the move is forced. A session-only move needs data to move
/// and a directory that it goes to.
pub open spec fn is_sound(v: FsView, mv: Move, home: HomeView, rules: PlanRules) -> bool {
    &&& is_there(v, mv.source@, home)
    &&& rules.session_only ==> v.dirs.contains(data_place(mv.source@, home)) && (mv.source.key()
        == mv.target.key() || v.dirs.contains(mv.target.key()))
    &&& !rules.session_only && !rules.force && mv.source.key() != mv.target.key()
        ==> !v.dirs.contains(data_place(mv.target@, home))
}

proof fn lemma_sound(v: FsView, mv: Move, home: HomeView, rules: PlanRules)
    requires
        mv.source@.len() > 0 && mv.source@[0] == '/',
        mv.target@.len() > 0 && mv.target@[0] == '/',
    ensures
        path_problems_of(v, mv, home, rules).len() == 0 <==> is_sound(v, mv, home, rules),
{
    lemma_global_place(mv.source@, home.path);
    lemma_global_place(mv.target@, home.path);
}

/// What is wrong with a move of a plan is said: in one sentence for each thing that it
/// needs and does not find.
pub proof fn law_problems_of_a_move_are_told(v: FsView, mv: Move, home: HomeView, rules: PlanRules)
    requires
        mv.source@.len() > 0 && mv.source@[0] == '/',
        mv.target@.len() > 0 && mv.target@[0] == '/',
    ensures
        !is_there(v, mv.source@, home) ==> path_problems_of(v, mv, home, rules).contains(
            (
                mv.line,
                "source not found: "@ + mv.source@ + " has neither a directory nor global data"@,
            ),
        ),
        rules.session_only && !v.dirs.contains(data_place(mv.source@, home)) ==> path_problems_of(
            v,
            mv,
            home,
            rules,
        ).contains((mv.line, "nothing to move: no global session data for "@ + mv.source@)),
        rules.session_only && mv.source.key() != mv.target.key() && !v.dirs.contains(
            mv.target.key(),
        ) ==> path_problems_of(v, mv, home, rules).contains(
            (mv.line, "target path does not exist; sessions would be orphaned: "@ + mv.target@),
        ),
        !rules.session_only && !rules.force && mv.source.key() != mv.target.key()
            && v.dirs.contains(data_place(mv.target@, home)) ==> path_problems_of(
            v,
            mv,
            home,
            rules,
        ).contains(
            (
                mv.line,
                "conflict: target already has session data: "@ + mv.target@
                    + " (use --force to overwrite)"@,
            ),
        ),
{
    lemma_global_place(mv.source@, home.path);
    lemma_global_place(mv.target@, home.path);
    let all = path_problems_of(v, mv, home, rules);
    let a: int = if is_there(v, mv.source@, home) {
        0
    } else {
        1
    };
    let b: int = if rules.session_only && !v.dirs.contains(data_place(mv.source@, home)) {
        1
    } else {
        0
    };
    let c: int = if rules.session_only && mv.source.key() != mv.target.key() && !v.dirs.contains(
        mv.target.key(),
    ) {
        1
    } else {
        0
    };
    if a == 1 {
        assert(all[0] == (
            mv.line,
            "source not found: "@ + mv.source@ + " has neither a directory nor global data"@,
        ));
    }
    if b == 1 {
        assert(all[a] == (mv.line, "nothing to move: no global session data for "@ + mv.source@));
    }
    if c == 1 {
        assert(all[a + b] == (
            mv.line,
            "target path does not exist; sessions would be orphaned: "@ + mv.target@,
        ));
    }
    if !rules.session_only && !rules.force && mv.source.key() != mv.target.key() && v.dirs.contains(
        data_place(mv.target@, home),
    ) {
        assert(all[a] == (
            mv.line,
            "conflict: target already has session data: "@ + mv.target@
                + " (use --force to overwrite)"@,
        ));
    }
}

proof fn lemma_no_path_problems(
    v: FsView,
    moves: Seq<Move>,
    home: HomeView,
    rules: PlanRules,
    n: int,
)
    requires
        0 <= n <= moves.len(),
    ensures
        path_problems(v, moves, home, rules, n).len() == 0 <==> forall|i: int|
            0 <= i < n ==> path_problems_of(v, #[trigger] moves[i], home, rules).len() == 0,
    decreases n,
{
    if n > 0 {
        lemma_no_path_problems(v, moves, home, rules, n - 1);
        if path_problems(v, moves, home, rules, n).len() == 0 {
            assert forall|i: int| 0 <= i < n implies path_problems_of(
                v,
                #[trigger] moves[i],
                home,
                rules,
            ).len() == 0 by {
                if i < n - 1 {
                    assert(path_problems_of(v, moves[i], home, rules).len() == 0);
                }
            }
        } else if path_problems_of(v, moves[n - 1], home, rules).len() == 0 {
            assert(path_problems(v, moves, home, rules, n - 1).len() > 0);
            let i = choose|i: int|
                0 <= i < n - 1 && path_problems_of(v, #[trigger] moves[i], home, rules).len() != 0;
            assert(path_problems_of(v, moves[i], home, rules).len() != 0);
        }
    }
}

/// A plan has no problems exactly where its moves keep clear of each other and each of
/// them is sound.
pub proof fn law_which_plans_are_sound(
    v: FsView,
    moves: Seq<Move>,
    home: HomeView,
    rules: PlanRules,
)
    requires
        forall|i: int|
            0 <= i < moves.len() ==> (#[trigger] moves[i]).source@.len() > 0 && moves[i].source@[0]
                == '/' && moves[i].target@.len() > 0 && moves[i].target@[0] == '/',
    ensures
        plan_problems(v, moves, home, rules).len() == 0 <==> {
            &&& forall|i: int, j: int|
                0 <= i < j < moves.len() ==> #[trigger] moves_apart(moves[i], moves[j])
            &&& forall|i: int|
                0 <= i < moves.len() ==> is_sound(v, #[trigger] moves[i], home, rules)
        },
{
    law_sound_plan_is_apart(moves);
    lemma_no_path_problems(v, moves, home, rules, moves.len() as int);
    assert forall|i: int| 0 <= i < moves.len() implies (path_problems_of(
        v,
        #[trigger] moves[i],
        home,
        rules,
    ).len() == 0) == is_sound(v, moves[i], home, rules) by {
        lemma_sound(v, moves[i], home, rules);
    }
    if forall|i: int| 0 <= i < moves.len() ==> is_sound(v, #[trigger] moves[i], home, rules) {
        assert forall|i: int| 0 <= i < moves.len() implies path_problems_of(
            v,
            #[trigger] moves[i],
            home,
            rules,
        ).len() == 0 by {
            assert(is_sound(v, moves[i], home, rules));
        }
    }
    if path_problems(v, moves, home, rules, moves.len() as int).len() == 0 {
        assert forall|i: int| 0 <= i < moves.len() implies is_sound(
            v,
            #[trigger] moves[i],
            home,
            rules,
        ) by {
            assert(path_problems_of(v, moves[i], home, rules).len() == 0);
        }
    }
    assert(plan_problems(v, moves, home, rules).len() == shape_problems(moves).len()
        + path_problems(v, moves, home, rules, moves.len() as int).len());
}

/// A path that is used again is reported with the first move that uses it.
pub proof fn law_first_use_is_named(moves: Seq<Move>, k: Key, n: int)
    requires
        0 <= n <= moves.len(),
    ensures
        match first_source(moves, k, n) {
            Some(j) => 0 <= j < n && moves[j].source.key() == k && forall|i: int|
                0 <= i < j ==> (#[trigger] moves[i]).source.key() != k,
            None => forall|i: int| 0 <= i < n ==> (#[trigger] moves[i]).source.key() != k,
        },
        match first_target(moves, k, n) {
            Some(j) => 0 <= j < n && moves[j].target.key() == k && forall|i: int|
                0 <= i < j ==> (#[trigger] moves[i]).target.key() != k,
            None => forall|i: int| 0 <= i < n ==> (#[trigger] moves[i]).target.key() != k,
        },
    decreases n,
{
    if n > 0 {
        law_first_use_is_named(moves, k, n - 1);
    }
}

/// Problems are reported in the order of their lines, those without a line last, and
/// each says its line.
pub proof fn law_problems_come_by_line(problems: Seq<Problem>, i: int, j: int)
    requires
        0 <= i < j < problems.len(),
    ensures
        ({
            let p = sorted(problems, by_line())[i];
            let q = sorted(problems, by_line())[j];
            &&& p.0 is Some && q.0 is Some ==> p.0->0 <= q.0->0
            &&& p.0 is None && q.0 is Some ==> q.0->0 == usize::MAX
            &&& p.0 matches Some(n) ==> reported(problems)[i] == "line "@ + decimal(n as nat)
                + ": "@ + p.1
            &&& p.0 is None ==> reported(problems)[i] == p.1
        }),
{
    law_problems_are_reported_in_order(problems);
    let s = sorted(problems, by_line());
    assert(s.len() == problems.len());
    assert(crate::batch::line_key(s[i]) <= crate::batch::line_key(s[j]));
}

/// Where a move goes, like that of `mv`: into the target under the source's own name
/// where the target is another directory, and the source is there or has been moved
/// there before; to the target in every other case, and always in a session-only run.
pub proof fn law_moves_go_like_those_of_mv(
    v: FsView,
    dir: Seq<char>,
    n: Seq<char>,
    target: Seq<char>,
)
    requires
        dir.len() > 0,
        is_entry_name(n),
        target.len() > 0 && target.last() != '/',
    ensures
        ({
            let source = below(dir, n);
            let inside = below(target, n);
            let other = v.dirs.contains(components(target)) && components(target) != components(
                source,
            );
            &&& move_target(v, source, target, true) == target
            &&& !other ==> move_target(v, source, target, false) == target
            &&& other && (v.dirs.contains(components(source)) || v.present.contains(
                components(target).push(n),
            )) ==> move_target(v, source, target, false) == inside && components(inside)
                == components(target).push(n)
            &&& !v.dirs.contains(components(source)) && !v.present.contains(
                components(target).push(n),
            ) ==> move_target(v, source, target, false) == target
        }),
{
    let source = below(dir, n);
    lemma_name_of_entry(dir, n);
    lemma_join_entry(target, n);
}

proof fn lemma_name_of_entry(dir: Seq<char>, n: Seq<char>)
    requires
        dir.len() > 0,
        is_entry_name(n),
    ensures
        last_name(below(dir, n)) == Some(n),
{
    assert(below(dir, n) =~= dir.push('/') + n);
    law_components_are_the_names(dir, n);
    assert(components(below(dir, n)).last() == n);
    assert(dot() =~= seq!['.'] && dot_dot() =~= seq!['.', '.']);
    assert(n != slash()) by {
        assert(slash()[0] == '/');
        assert(n.contains(n[0]));
    }
    assert(is_name(n));
}

proof fn lemma_join_entry(target: Seq<char>, n: Seq<char>)
    requires
        is_entry_name(n),
        target.len() > 0 && target.last() != '/',
    ensures
        join_text(target, n) == below(target, n),
        components(below(target, n)) == components(target).push(n),
{
    assert(n[0] != '/') by {
        assert(n.contains(n[0]));
    }
    assert(dot() =~= seq!['.']);
    lemma_components_join_name(target, n);
    assert(join_text(target, n) =~= below(target, n));
}

/// Several sources go into the target, each under its own name.
pub proof fn law_several_sources_go_into_the_target(
    moves: Seq<Move>,
    resolved: Seq<Resolved>,
    n: int,
    target: Seq<char>,
    i: int,
    dir: Seq<char>,
    name: Seq<char>,
)
    requires
        are_moves_into(moves, resolved, n, target),
        0 <= i < moves.len(),
        moves[i].source@ == below(dir, name),
        dir.len() > 0,
        is_entry_name(name),
        target.len() > 0 && target.last() != '/',
    ensures
        moves[i].target@ == below(target, name),
        moves[i].line is None,
{
    lemma_name_of_entry(dir, name);
    lemma_join_entry(target, name);
}

/// A source that is there is known by the path with its links followed, and one that is
/// not by its text, as a target always is.
pub proof fn law_sources_are_followed(r: Resolved)
    ensures
        r.canonical matches Ok(p) ==> source_path(r) == Some(p@),
        r.canonical is Err ==> source_path(r) == target_path(r),
        target_path(r) is Some <==> r.absolute is Ok,
{
}

/// The paths of a batch file are resolved line by line, the source before the target.
pub proof fn law_batch_paths_are_named_in_turn(a: Seq<RawMove>, b: Seq<RawMove>, m: RawMove)
    ensures
        raw_paths(a + b) == raw_paths(a) + raw_paths(b),
        raw_paths(seq![m]) == seq![m.source@, m.target@],
    decreases b.len(),
{
    reveal_with_fuel(raw_paths, 2);
    assert(seq![m].drop_last() =~= Seq::empty());
    assert(raw_paths(seq![m]) =~= seq![m.source@, m.target@]);
    if b.len() == 0 {
        assert(a + b =~= a);
        assert(raw_paths(a + b) =~= raw_paths(a) + raw_paths(b));
    } else {
        assert((a + b).drop_last() =~= a + b.drop_last());
        law_batch_paths_are_named_in_turn(a, b.drop_last(), m);
        assert(raw_paths(a + b) =~= raw_paths(a) + raw_paths(b));
    }
}

/// Every option of the command line reaches the run.
pub proof fn law_options_are_kept(o: MigrateOpts, cli: Cli, i: int)
    requires
        are_options(o, cli),
    ensures
        o.dry_run <==> cli.dry_run,
        o.force <==> cli.force,
        o.no_backup <==> cli.no_backup,
        o.session_only <==> cli.session_only,
        o.relink <==> cli.relink,
        o.scan_root@.len() == cli.scan_root@.len(),
        0 <= i < cli.scan_root@.len() ==> o.scan_root@[i]@ == cli.scan_root@[i]@,
{
    assert(texts(o.scan_root@).len() == texts(cli.scan_root@).len());
    if 0 <= i < cli.scan_root@.len() {
        assert(texts(o.scan_root@)[i] == texts(cli.scan_root@)[i]);
    }
}

/// A unit has nothing left to do only where it stays where it is: in a session-only run
/// for that alone, in any other where its directory is there and its data names it.
pub proof fn law_settled_units_stay(u: Unit)
    ensures
        u.source.key() != u.target.key() ==> !is_settled(u, true) && !is_settled(u, false),
        u.source.key() == u.target.key() ==> is_settled(u, true),
        u.source.key() == u.target.key() && u.state.project_dir_exists && u.state.paths_consistent
            ==> is_settled(u, false),
        !u.state.project_dir_exists || !u.state.paths_consistent ==> !is_settled(u, false),
{
}

/// Each unit that goes elsewhere has its paths replaced, in the order of the units.
pub proof fn law_moves_are_substituted(a: Seq<Unit>, b: Seq<Unit>, u: Unit)
    ensures
        unit_pairs(a + b) == unit_pairs(a) + unit_pairs(b),
        u.source.key() != u.target.key() ==> unit_pairs(seq![u]) == seq![(u.source@, u.target@)],
        u.source.key() == u.target.key() ==> unit_pairs(seq![u]).len() == 0,
    decreases b.len(),
{
    reveal_with_fuel(unit_pairs, 2);
    assert(seq![u].drop_last() =~= Seq::empty());
    if u.source.key() != u.target.key() {
        assert(unit_pairs(seq![u]) =~= seq![(u.source@, u.target@)]);
    }
    if b.len() == 0 {
        assert(a + b =~= a);
        assert(unit_pairs(a + b) =~= unit_pairs(a) + unit_pairs(b));
    } else {
        assert((a + b).drop_last() =~= a + b.drop_last());
        law_moves_are_substituted(a, b.drop_last(), u);
        assert(unit_pairs(a + b) =~= unit_pairs(a) + unit_pairs(b));
    }
}

/// The units that are worked on are those with work left, and those of them with data
/// are backed up, in their order.
pub proof fn law_units_with_work_are_worked_on(a: Seq<Unit>, b: Seq<Unit>, u: Unit)
    ensures
        active(a + b) == active(a) + active(b),
        active(seq![u]) == if u.nothing_to_do {
            Seq::<Unit>::empty()
        } else {
            seq![u]
        },
        backed_up(a + b) == backed_up(a) + backed_up(b),
        backed_up(seq![u]) == if !u.nothing_to_do && u.state.global_project_dir is Some {
            seq![u]
        } else {
            Seq::<Unit>::empty()
        },
{
    let f = |u: Unit| !u.nothing_to_do;
    let g = |u: Unit| !u.nothing_to_do && u.state.global_project_dir is Some;
    Seq::filter_distributes_over_add(a, b, f);
    Seq::filter_distributes_over_add(a, b, g);
    lemma_filter_unit(u, f);
    lemma_filter_unit(u, g);
}

proof fn lemma_filter_unit(u: Unit, f: spec_fn(Unit) -> bool)
    ensures
        seq![u].filter(f) == if f(u) {
            seq![u]
        } else {
            Seq::<Unit>::empty()
        },
{
    reveal_with_fuel(Seq::filter, 2);
    assert(seq![u].drop_last() =~= Seq::empty());
    assert(seq![u].filter(f) =~= if f(u) {
        seq![u]
    } else {
        Seq::<Unit>::empty()
    });
}

proof fn lemma_path_in_sum(a: Seq<Seq<char>>, b: Seq<Seq<char>>, x: Seq<char>)
    ensures
        a.contains(x) || b.contains(x) ==> (a + b).contains(x),
{
    if a.contains(x) {
        let i = choose|i: int| 0 <= i < a.len() && a[i] == x;
        assert((a + b)[i] == x);
    } else if b.contains(x) {
        let i = choose|i: int| 0 <= i < b.len() && b[i] == x;
        assert((a + b)[a.len() + i] == x);
    }
}

proof fn lemma_in_state(s: ProjectState, x: Seq<char>)
    requires
        ({
            ||| texts(s.session_files@).contains(x)
            ||| (s.sessions_index matches Some(f) && f@ == x)
            ||| (s.settings_json matches Some(f) && f@ == x)
            ||| (s.mcp_json matches Some(f) && f@ == x)
        }),
    ensures
        state_files(s).contains(x),
{
    let a = texts(s.session_files@);
    let b = if_some(s.sessions_index);
    let c = if_some(s.settings_json);
    let d = if_some(s.mcp_json);
    if s.sessions_index is Some {
        assert(b[0] == s.sessions_index->0@);
    }
    if s.settings_json is Some {
        assert(c[0] == s.settings_json->0@);
    }
    if s.mcp_json is Some {
        assert(d[0] == s.mcp_json->0@);
    }
    lemma_path_in_sum(a, b, x);
    lemma_path_in_sum(a + b, c, x);
    lemma_path_in_sum(a + b + c, d, x);
}

/// One of the files of a project: a session, the session index, the settings or the
/// servers.
pub open spec fn is_file_of(s: ProjectState, x: Seq<char>) -> bool {
    ||| texts(s.session_files@).contains(x)
    ||| (s.sessions_index matches Some(f) && f@ == x)
    ||| (s.settings_json matches Some(f) && f@ == x)
    ||| (s.mcp_json matches Some(f) && f@ == x)
}

/// Before a run changes anything, it looks at every file that it is going to rewrite:
/// those of each unit with work left and of each project below one, the history and the
/// registry.
pub proof fn law_every_file_is_looked_at(m: Migration, i: int, j: int, x: Seq<char>)
    ensures
        0 <= i < m.units@.len() && !m.units@[i].nothing_to_do && is_file_of(m.units@[i].state, x)
            ==> run_files(m).contains(x),
        0 <= i < m.units@.len() && !m.units@[i].nothing_to_do && 0 <= j
            < m.units@[i].subprojects@.len() && is_file_of(m.units@[i].subprojects@[j].0, x)
            ==> run_files(m).contains(x),
        m.history_jsonl matches Some(f) ==> run_files(m).contains(f@),
        m.claude_json matches Some(f) ==> run_files(m).contains(f@),
{
    let a = unit_files(m.units@);
    let b = if_some(m.history_jsonl);
    let c = if_some(m.claude_json);
    if 0 <= i < m.units@.len() && !m.units@[i].nothing_to_do {
        let own = state_files(m.units@[i].state);
        let subs = m.units@[i].subprojects@;
        if is_file_of(m.units@[i].state, x) {
            lemma_in_state(m.units@[i].state, x);
            lemma_path_in_sum(own, sub_files(subs), x);
            crate::migration::lemma_unit_files(m.units@, i, x);
        }
        if 0 <= j < subs.len() && is_file_of(subs[j].0, x) {
            lemma_in_state(subs[j].0, x);
            crate::migration::lemma_sub_files(subs, j, x);
            lemma_path_in_sum(own, sub_files(subs), x);
            crate::migration::lemma_unit_files(m.units@, i, x);
        }
    }
    lemma_path_in_sum(a, b, x);
    lemma_path_in_sum(a + b, c, x);
    if m.history_jsonl is Some {
        let f = m.history_jsonl->0@;
        assert(b[0] == f);
        lemma_path_in_sum(a, b, f);
        lemma_path_in_sum(a + b, c, f);
    }
    if m.claude_json is Some {
        let f = m.claude_json->0@;
        assert(c[0] == f);
        lemma_path_in_sum(a + b, c, f);
    }
}

/// A file is unreadable exactly where it is not there as text, and the files that are so
/// are told in their order.
pub proof fn law_unreadable_files_are_told(
    v: FsView,
    a: Seq<Seq<char>>,
    b: Seq<Seq<char>>,
    f: Seq<char>,
)
    ensures
        unreadable(v, a + b) == unreadable(v, a) + unreadable(v, b),
        v.text(components(f)) is None ==> unreadable(v, seq![f]) == seq![f],
        v.text(components(f)) is Some ==> unreadable(v, seq![f]).len() == 0,
{
    let g = |f: Seq<char>| v.text(components(f)) is None;
    Seq::filter_distributes_over_add(a, b, g);
    reveal_with_fuel(Seq::filter, 2);
    assert(seq![f].drop_last() =~= Seq::empty());
    if g(f) {
        assert(seq![f].filter(g) =~= seq![f]);
    } else {
        assert(seq![f].filter(g) =~= Seq::empty());
    }
}

} // verus!
