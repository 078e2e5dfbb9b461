//! What the logs of a run say, line by line, and where they lie.

use vstd::prelude::*;

use crate::apply::active;
use crate::backup::backup_dir;
use crate::decimal::decimal;
use crate::encoder::encoded;
use crate::finding::below;
use crate::linking::lemma_rooted_components;
use crate::links::all_plain;
use crate::links::common;
use crate::links::lemma_common;
use crate::links::lemma_link_dir;
use crate::links::lemma_path_text_plain;
use crate::links::link_dir;
use crate::links::relative;
use crate::links::LinkCandidate;
use crate::order::key_lt;
use crate::order::lemma_sorted;
use crate::order::sorted;
use crate::path::components;
use crate::path::dot;
use crate::path::dot_dot;
use crate::path::is_plain;
use crate::path::join_text;
use crate::path::lemma_components_join_name;
use crate::path::lemma_components_plain;
use crate::plan::Migration;
use crate::relink::alive;
use crate::relink::artifact_path;
use crate::relink::artifact_stem;
use crate::relink::by_first;
use crate::relink::by_place;
use crate::relink::link_place;
use crate::relink::link_text;
use crate::relink::ref_lines;
use crate::relink::refs_report;
use crate::relink::refused;
use crate::relink::relink_log;
use crate::relink::repointed;
use crate::relink::row_lines;
use crate::relink::stem;
use crate::relink::LogRow;
use crate::relink::RefRow;
use crate::replacing::belongs;
use crate::replacing::belongs_best;
use crate::replacing::law_paths_move_with_what_they_lie_below;
use crate::substitution::Pairs;

verus! {

/// The line on a link that was repointed: where it is, where it led, what it says now.
pub open spec fn row_line(row: LogRow) -> Seq<char> {
    row.0 + seq!['\t'] + row.1 + seq!['\t'] + row.2 + seq!['\n']
}

/// The line on a reference: its file, its line, the old path and the new one.
pub open spec fn ref_line(row: RefRow) -> Seq<char> {
    row.0 + seq!['\t'] + decimal((row.1).0) + seq!['\t'] + (row.1).1 + seq!['\t'] + (row.1).2
        + seq!['\n']
}

/// A link that lies in a project that moves is repointed where it has moved to, any
/// other where it is. One that is written as an absolute path is made to say the new
/// target as it is.
pub proof fn law_links_are_repointed_where_they_are(subs: Pairs, c: LinkCandidate, e: int)
    ensures
        belongs_best(subs, c.path@, e) && c.path@ == subs[e].0 ==> link_place(subs, c)
            == subs[e].1,
        belongs_best(subs, c.path@, e) ==> forall|rest: Seq<char>|
            c.path@ == #[trigger] below(subs[e].0, rest) ==> link_place(subs, c) == below(
                subs[e].1,
                rest,
            ),
        (forall|f: int| 0 <= f < subs.len() ==> !belongs(c.path@, #[trigger] subs[f].0))
            ==> link_place(subs, c) == c.path@,
        !c.is_relative ==> link_text(subs, c) == c.new_target@,
{
    law_paths_move_with_what_they_lie_below(subs, c.path@, e);
}

/// A link that is written from its own directory stays so.
pub proof fn law_relative_links_stay_relative(subs: Pairs, c: LinkCandidate)
    requires
        c.is_relative,
        link_place(subs, c).len() > 0 && link_place(subs, c)[0] == '/',
        c.new_target@.len() > 0 && c.new_target@[0] == '/',
    ensures
        !(link_text(subs, c).len() > 0 && link_text(subs, c)[0] == '/'),
{
    let place = link_place(subs, c);
    lemma_link_dir(place);
    let dir = components(link_dir(place));
    let target = c.new_target.key();
    lemma_rooted_components(link_dir(place));
    lemma_rooted_components(c.new_target@);
    let k = relative(dir, target);
    lemma_common(dir, target);
    assert(all_plain(k)) by {
        assert(dot_dot().len() == 2 && dot().len() == 1);
        assert forall|i: int| 0 <= i < dot_dot().len() implies dot_dot()[i] != '/' by {}
        assert forall|i: int| 0 <= i < k.len() implies is_plain(#[trigger] k[i]) by {
            let n = dir.len() - common(dir, target);
            if i < n {
                assert(k[i] == dot_dot());
            } else {
                let j = common(dir, target) + i - n;
                assert(k[i] == target[j]);
                lemma_components_plain(c.new_target@, j);
            }
        }
    }
    lemma_path_text_plain(k);
}

/// Only links that led somewhere are repointed, in the order in which they were found.
pub proof fn law_live_links_are_repointed(
    a: Seq<LinkCandidate>,
    b: Seq<LinkCandidate>,
    c: LinkCandidate,
)
    ensures
        alive(a + b) == alive(a) + alive(b),
        alive(seq![c]) == if c.alive {
            seq![c]
        } else {
            Seq::<LinkCandidate>::empty()
        },
{
    let f = |c: LinkCandidate| c.alive;
    Seq::filter_distributes_over_add(a, b, f);
    reveal_with_fuel(Seq::filter, 2);
    assert(seq![c].drop_last() =~= Seq::empty());
    assert(seq![c].filter(f) =~= if c.alive {
        seq![c]
    } else {
        Seq::<LinkCandidate>::empty()
    });
}

/// Every link is accounted for: those that were repointed in the log, each with its
/// place, its old target and what it says now, and the others among the failures.
pub proof fn law_every_link_is_accounted_for(
    subs: Pairs,
    list: Seq<LinkCandidate>,
    oks: Seq<bool>,
    i: int,
)
    requires
        oks.len() == list.len(),
        0 <= i < oks.len(),
    ensures
        repointed(subs, list, oks).len() + refused(subs, list, oks).len() == list.len(),
        oks[i] ==> repointed(subs, list, oks).contains(
            (link_place(subs, list[i]), list[i].resolved_target@, link_text(subs, list[i])),
        ),
        !oks[i] ==> refused(subs, list, oks).contains(link_place(subs, list[i])),
{
    lemma_accounted(subs, list, oks, i);
}

proof fn lemma_accounted(subs: Pairs, list: Seq<LinkCandidate>, oks: Seq<bool>, i: int)
    requires
        oks.len() <= list.len(),
        0 <= i < oks.len(),
    ensures
        repointed(subs, list, oks).len() + refused(subs, list, oks).len() == oks.len(),
        oks[i] ==> repointed(subs, list, oks).contains(
            (link_place(subs, list[i]), list[i].resolved_target@, link_text(subs, list[i])),
        ),
        !oks[i] ==> refused(subs, list, oks).contains(link_place(subs, list[i])),
    decreases oks.len(),
{
    reveal_with_fuel(repointed, 2);
    reveal_with_fuel(refused, 2);
    let before = oks.drop_last();
    let n = oks.len() - 1;
    let now = repointed(subs, list, oks);
    let lost = refused(subs, list, oks);
    if n > 0 {
        let j = if i < n {
            i
        } else {
            0
        };
        lemma_accounted(subs, list, before, j);
    }
    if i == n {
        if oks[i] {
            assert(now.last() == (
                link_place(subs, list[i]),
                list[i].resolved_target@,
                link_text(subs, list[i]),
            ));
            assert(now[now.len() - 1] == now.last());
        } else {
            assert(lost[lost.len() - 1] == link_place(subs, list[i]));
        }
    } else if oks[i] {
        let row = (link_place(subs, list[i]), list[i].resolved_target@, link_text(subs, list[i]));
        let past = repointed(subs, list, before);
        let x = choose|x: int| 0 <= x < past.len() && past[x] == row;
        assert(now[x] == row);
    } else {
        let past = refused(subs, list, before);
        let x = choose|x: int| 0 <= x < past.len() && past[x] == link_place(subs, list[i]);
        assert(lost[x] == link_place(subs, list[i]));
    }
}

/// The lines of a log are written one below the other, the columns between tabs.
pub proof fn law_log_lines_are_written_in_turn(a: Seq<LogRow>, b: Seq<LogRow>, row: LogRow)
    ensures
        row_lines(a + b) == row_lines(a) + row_lines(b),
        row_lines(seq![row]) == row_line(row),
        row_lines(Seq::empty()) == Seq::<char>::empty(),
    decreases b.len(),
{
    reveal_strlit("\t");
    reveal_strlit("\n");
    reveal_with_fuel(row_lines, 2);
    assert(seq![row].drop_last() =~= Seq::empty());
    assert(row_lines(seq![row]) =~= row_line(row));
    if b.len() == 0 {
        assert(a + b =~= a);
        assert(row_lines(a + b) =~= row_lines(a) + row_lines(b));
    } else {
        assert((a + b).drop_last() =~= a + b.drop_last());
        law_log_lines_are_written_in_turn(a, b.drop_last(), row);
        assert(row_lines(a + b) =~= row_lines(a) + row_lines(b));
    }
}

/// The same of the lines on references.
pub proof fn law_reference_lines_are_written_in_turn(a: Seq<RefRow>, b: Seq<RefRow>, row: RefRow)
    ensures
        ref_lines(a + b) == ref_lines(a) + ref_lines(b),
        ref_lines(seq![row]) == ref_line(row),
        ref_lines(Seq::empty()) == Seq::<char>::empty(),
    decreases b.len(),
{
    reveal_strlit("\t");
    reveal_strlit("\n");
    reveal_with_fuel(ref_lines, 2);
    assert(seq![row].drop_last() =~= Seq::empty());
    assert(ref_lines(seq![row]) =~= ref_line(row));
    if b.len() == 0 {
        assert(a + b =~= a);
        assert(ref_lines(a + b) =~= ref_lines(a) + ref_lines(b));
    } else {
        assert((a + b).drop_last() =~= a + b.drop_last());
        law_reference_lines_are_written_in_turn(a, b.drop_last(), row);
        assert(ref_lines(a + b) =~= ref_lines(a) + ref_lines(b));
    }
}

/// Every row has its line in the log.
pub proof fn law_every_row_is_logged(rows: Seq<LogRow>, row: LogRow)
    requires
        rows.contains(row),
    ensures
        exists|pre: Seq<char>, post: Seq<char>|
            relink_log(rows) == #[trigger] (pre + row_line(row) + post),
{
    broadcast use vstd::seq_lib::group_to_multiset_ensures;

    let s = sorted(rows, by_first());
    lemma_sorted(rows, by_first());
    assert(rows.to_multiset().contains(row));
    assert(s.contains(row));
    let i = choose|i: int| 0 <= i < s.len() && s[i] == row;
    let a = s.take(i);
    let b = s.skip(i + 1);
    assert(s =~= a + (seq![row] + b));
    law_log_lines_are_written_in_turn(a, seq![row] + b, row);
    law_log_lines_are_written_in_turn(seq![row], b, row);
    assert(relink_log(rows) =~= row_lines(a) + row_line(row) + row_lines(b));
}

/// Every reference has its line in the report.
pub proof fn law_every_reference_is_reported(rows: Seq<RefRow>, row: RefRow)
    requires
        rows.contains(row),
    ensures
        exists|pre: Seq<char>, post: Seq<char>|
            refs_report(rows) == #[trigger] (pre + ref_line(row) + post),
{
    broadcast use vstd::seq_lib::group_to_multiset_ensures;

    let s = sorted(rows, by_place());
    lemma_sorted(rows, by_place());
    assert(rows.to_multiset().contains(row));
    assert(s.contains(row));
    let i = choose|i: int| 0 <= i < s.len() && s[i] == row;
    let a = s.take(i);
    let b = s.skip(i + 1);
    assert(s =~= a + (seq![row] + b));
    law_reference_lines_are_written_in_turn(a, seq![row] + b, row);
    law_reference_lines_are_written_in_turn(seq![row], b, row);
    assert(refs_report(rows) =~= ref_lines(a) + ref_line(row) + ref_lines(b));
}

/// The log is in the order of the links' paths, and the report in that of the files,
/// then of the lines.
pub proof fn law_logs_are_in_order(a: LogRow, b: LogRow, x: RefRow, y: RefRow)
    ensures
        relink_log(seq![a, b]) == if key_lt(components(b.0), components(a.0)) {
            row_line(b) + row_line(a)
        } else {
            row_line(a) + row_line(b)
        },
        refs_report(seq![x, y]) == if key_lt(components(y.0), components(x.0)) || (components(y.0)
            == components(x.0) && (y.1).0 < (x.1).0) {
            ref_line(y) + ref_line(x)
        } else {
            ref_line(x) + ref_line(y)
        },
{
    lemma_two(a, b, by_first());
    lemma_two(x, y, by_place());
    law_log_lines_are_written_in_turn(seq![a], seq![b], a);
    law_log_lines_are_written_in_turn(seq![b], seq![a], b);
    assert(seq![a] + seq![b] =~= seq![a, b]);
    assert(seq![b] + seq![a] =~= seq![b, a]);
    law_reference_lines_are_written_in_turn(seq![x], seq![y], x);
    law_reference_lines_are_written_in_turn(seq![y], seq![x], y);
    assert(seq![x] + seq![y] =~= seq![x, y]);
    assert(seq![y] + seq![x] =~= seq![y, x]);
}

proof fn lemma_two<T>(a: T, b: T, lt: spec_fn(T, T) -> bool)
    ensures
        sorted(seq![a, b], lt) == if lt(b, a) {
            seq![b, a]
        } else {
            seq![a, b]
        },
{
    let s = seq![a, b];
    reveal_with_fuel(sorted, 3);
    reveal_with_fuel(crate::order::insert_sorted, 3);
    assert(s.drop_first() =~= seq![b]);
    assert(seq![b].drop_first() =~= Seq::empty());
    assert(sorted(seq![b], lt) =~= seq![b]);
    assert(sorted(s, lt) =~= if lt(b, a) {
        seq![b, a]
    } else {
        seq![a, b]
    });
}

/// The name of a backup without its ending is what names the logs of the run.
pub proof fn law_backup_names_name_the_logs(s: Seq<char>, name: Seq<char>)
    ensures
        stem(s + ".tar.gz"@) == Some(s),
        stem(name) matches Some(t) ==> name == t + ".tar.gz"@,
{
    reveal_strlit(".tar.gz");
    let whole = s + ".tar.gz"@;
    let n = whole.len() - ".tar.gz"@.len();
    assert(whole.skip(n) =~= ".tar.gz"@);
    assert(whole.take(n) =~= s);
    if stem(name) is Some {
        let m = name.len() - ".tar.gz"@.len();
        assert(name =~= name.take(m) + name.skip(m));
    }
}

/// A log lies in the directory of the backups and is called like the first backup, with
/// an ending of its own.
pub proof fn law_logs_lie_beside_the_backups(
    m: Migration,
    dir: Seq<char>,
    s: Seq<char>,
    suffix: Seq<char>,
    more: Seq<Seq<char>>,
)
    requires
        dir.len() > 0,
        s.len() > 0 && !s.contains('/'),
        !suffix.contains('/'),
    ensures
        artifact_path(m, seq![below(dir, s + ".tar.gz"@)] + more, suffix) matches Some(p)
            && components(p) == components(m.claude_home@.path).push("backups"@).push("ccmv"@).push(
            s + seq!['.'] + suffix,
        ),
{
    reveal_strlit(".tar.gz");
    reveal_strlit(".");
    let name = s + ".tar.gz"@;
    let first = below(dir, name);
    assert(!name.contains('/')) by {
        assert forall|i: int| 0 <= i < name.len() implies name[i] != '/' by {
            if i < s.len() {
                assert(s.contains(name[i]));
            }
        }
    }
    assert(first =~= dir.push('/') + name);
    assert(name != seq!['.']);
    crate::spelling::law_components_are_the_names(dir, name);
    assert(components(first).last() == name);
    assert(name.len() > 2);
    assert(crate::path::is_name(name));
    law_backup_names_name_the_logs(s, name);
    let all = seq![first] + more;
    assert(all[0] == first);
    assert(artifact_stem(m, all) == Some(s));
    let last = s + "."@ + suffix;
    assert(last =~= s + seq!['.'] + suffix);
    assert(is_plain(last)) by {
        assert(last.len() > 1 && dot().len() == 1);
        assert forall|i: int| 0 <= i < last.len() implies last[i] != '/' by {
            if i < s.len() {
                assert(s.contains(last[i]));
            } else if i > s.len() {
                assert(last[i] == suffix[i - s.len() - 1]);
                assert(suffix.contains(last[i]));
            }
        }
    }
    lemma_backup_place(m.claude_home@.path);
    lemma_components_join_name(backup_dir(m.claude_home@.path), last);
}

/// The backups lie in the directory `backups/ccmv` of the data directory.
pub(crate) proof fn lemma_backup_place(home: Seq<char>)
    ensures
        components(backup_dir(home)) == components(home).push("backups"@).push("ccmv"@),
{
    reveal_strlit("backups");
    reveal_strlit("ccmv");
    reveal_strlit("backups/ccmv");
    assert(dot()[0] == '.');
    let inner = join_text(home, "backups"@);
    assert(is_plain("backups"@)) by {
        assert("backups"@[0] != dot()[0]);
    }
    assert(is_plain("ccmv"@)) by {
        assert("ccmv"@[0] != dot()[0]);
    }
    lemma_components_join_name(home, "backups"@);
    lemma_components_join_name(inner, "ccmv"@);
    assert("backups/ccmv"@ =~= "backups"@.push('/') + "ccmv"@);
    assert(backup_dir(home) =~= join_text(inner, "ccmv"@)) by {
        assert(inner.last() == "backups"@.last());
    }
}

/// Without a backup a log is called after the first project that had work, and the time.
pub proof fn law_logs_are_named_without_a_backup(m: Migration, suffix: Seq<char>)
    requires
        active(m.units@).len() > 0,
        active(m.units@)[0].source@.len() > 0 && active(m.units@)[0].source@[0] == '/',
        !m.timestamp@.contains('/'),
        !suffix.contains('/'),
    ensures
        artifact_path(m, Seq::empty(), suffix) matches Some(p) && components(p) == components(
            m.claude_home@.path,
        ).push("backups"@).push("ccmv"@).push(
            encoded(active(m.units@)[0].source@) + seq!['-'] + m.timestamp@ + seq!['.'] + suffix,
        ),
{
    reveal_strlit("-");
    reveal_strlit(".");
    let e = encoded(active(m.units@)[0].source@);
    let last = e + "-"@ + m.timestamp@ + "."@ + suffix;
    assert(last =~= e + seq!['-'] + m.timestamp@ + seq!['.'] + suffix);
    assert(is_plain(last)) by {
        assert(dot().len() == 1);
        let n = e.len() + 1;
        let t = m.timestamp@.len();
        assert forall|i: int| 0 <= i < last.len() implies last[i] != '/' by {
            if n <= i < n + t {
                assert(last[i] == m.timestamp@[i - n]);
                assert(m.timestamp@.contains(last[i]));
            } else if i > n + t {
                assert(last[i] == suffix[i - n - t - 1]);
                assert(suffix.contains(last[i]));
            }
        }
    }
    lemma_backup_place(m.claude_home@.path);
    lemma_components_join_name(backup_dir(m.claude_home@.path), last);
}

} // verus!
