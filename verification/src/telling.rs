//! What the printed report holds, and what its numbers add up to.

use vstd::prelude::*;

use crate::decimal::decimal;
use crate::links::TextReference;
use crate::migration::MigrationReport;
use crate::migration::MoveReport;
use crate::migration::RelinkCandidateReport;
use crate::path::FilePath;
use crate::relink::RelinkFailure;
use crate::report::action_line;
use crate::report::candidate_lines;
use crate::report::changed;
use crate::report::dry_lines;
use crate::report::failure_lines;
use crate::report::file_lines;
use crate::report::joined;
use crate::report::lines_of;
use crate::report::move_lines;
use crate::report::reference_lines;
use crate::report::relinked_lines;
use crate::report::section;
use crate::report::shown;
use crate::report::text_lines;
use crate::report::total;
use crate::report::Lines;
use crate::updater::UpdateReport;

verus! {

/// All replacements in the files, one file after the other; those that were skipped do
/// not count.
pub open spec fn replacements_in(files: Seq<UpdateReport>) -> nat
    decreases files.len(),
{
    if files.len() == 0 {
        0
    } else if files.first().skipped {
        replacements_in(files.drop_first())
    } else {
        files.first().replacements as nat + replacements_in(files.drop_first())
    }
}

/// The total of two lists of files is the sum of their totals, and that of a single file
/// is its count.
pub proof fn law_totals_add_up(a: Seq<UpdateReport>, b: Seq<UpdateReport>, r: UpdateReport)
    ensures
        total(a + b) == total(a) + total(b),
        total(seq![r]) == r.replacements,
        total(Seq::empty()) == 0,
    decreases b.len(),
{
    reveal_with_fuel(total, 2);
    assert(seq![r].drop_last() =~= Seq::empty());
    if b.len() == 0 {
        assert(a + b =~= a);
    } else {
        assert((a + b).drop_last() =~= a + b.drop_last());
        law_totals_add_up(a, b.drop_last(), r);
    }
}

/// The files of two lists that were changed are those of the one and those of the
/// other, and a single file counts as changed unless it was skipped.
pub proof fn law_changed_files_are_not_skipped(
    a: Seq<UpdateReport>,
    b: Seq<UpdateReport>,
    r: UpdateReport,
)
    ensures
        changed(a + b) == changed(a) + changed(b),
        changed(seq![r]) == if r.skipped {
            Seq::<UpdateReport>::empty()
        } else {
            seq![r]
        },
{
    let f = |r: UpdateReport| !r.skipped;
    Seq::filter_distributes_over_add(a, b, f);
    reveal_with_fuel(Seq::filter, 2);
    assert(seq![r].drop_last() =~= Seq::empty());
    assert(seq![r].filter(f) =~= if r.skipped {
        Seq::<UpdateReport>::empty()
    } else {
        seq![r]
    });
}

proof fn lemma_total_changed(files: Seq<UpdateReport>)
    ensures
        total(changed(files)) == replacements_in(files),
    decreases files.len(),
{
    if files.len() == 0 {
        reveal(Seq::filter);
        assert(changed(files) =~= Seq::empty());
    } else {
        let r = files.first();
        let rest = files.drop_first();
        lemma_total_changed(rest);
        assert(files =~= seq![r] + rest);
        law_changed_files_are_not_skipped(seq![r], rest, r);
        law_totals_add_up(changed(seq![r]), changed(rest), r);
    }
}

/// A list of two parts is the one part and then the other.
pub proof fn law_lists_are_joined(a: Seq<Lines>, b: Seq<Lines>, e: Lines)
    ensures
        joined(a + b) == joined(a) + joined(b),
        joined(seq![e]) == e,
        joined(Seq::empty()) == Seq::<Seq<char>>::empty(),
    decreases b.len(),
{
    reveal_with_fuel(joined, 2);
    assert(seq![e].drop_last() =~= Seq::empty());
    assert(joined(seq![e]) =~= e);
    if b.len() == 0 {
        assert(a + b =~= a);
        assert(joined(a + b) =~= joined(a) + joined(b));
    } else {
        assert((a + b).drop_last() =~= a + b.drop_last());
        law_lists_are_joined(a, b.drop_last(), e);
        assert(joined(a + b) =~= joined(a) + joined(b));
    }
}

/// A list is shown as a whole when all of it is asked for or it has no more than ten
/// entries. Of a longer one the first ten are shown, and a line that counts the others.
pub proof fn law_long_lists_are_cut(head: Seq<Lines>, more: Seq<Lines>, heading: Seq<char>)
    requires
        head.len() == 10,
        more.len() > 0,
    ensures
        shown(head + more, true) == joined(head) + joined(more),
        shown(head, false) == joined(head),
        shown(head + more, false) == joined(head) + seq![
            "  ... ("@ + decimal(more.len()) + " more, use -v for all)"@,
        ],
        section(heading, head + more, false) == seq![heading + decimal(10 + more.len())] + shown(
            head + more,
            false,
        ),
        section(heading, Seq::empty(), false) == Seq::<Seq<char>>::empty(),
{
    law_lists_are_joined(head, more, Seq::empty());
    assert((head + more).take(10) =~= head);
    assert(joined(head).push("  ... ("@ + decimal(more.len()) + " more, use -v for all)"@)
        =~= joined(head) + seq!["  ... ("@ + decimal(more.len()) + " more, use -v for all)"@]);
}

proof fn lemma_in_sum(a: Lines, b: Lines, x: Seq<char>)
    ensures
        a.contains(x) || b.contains(x) ==> (a + b).contains(x),
{
    if a.contains(x) {
        let i = choose|i: int| 0 <= i < a.len() && a[i] == x;
        assert((a + b)[i] == x);
    } else if b.contains(x) {
        let i = choose|i: int| 0 <= i < b.len() && b[i] == x;
        assert((a + b)[a.len() + i] == x);
    }
}

proof fn lemma_in_joined(entries: Seq<Lines>, i: int, x: Seq<char>)
    requires
        0 <= i < entries.len(),
        entries[i].contains(x),
    ensures
        joined(entries).contains(x),
    decreases entries.len(),
{
    if i < entries.len() - 1 {
        lemma_in_joined(entries.drop_last(), i, x);
    }
    lemma_in_sum(joined(entries.drop_last()), entries.last(), x);
}

proof fn lemma_in_section(heading: Seq<char>, entries: Seq<Lines>, i: int, x: Seq<char>)
    requires
        0 <= i < entries.len(),
        entries[i].contains(x),
    ensures
        section(heading, entries, true).contains(x),
        section(heading, entries, true).contains(heading + decimal(entries.len())),
{
    lemma_in_joined(entries, i, x);
    let head = seq![heading + decimal(entries.len())];
    assert(head[0] == heading + decimal(entries.len()));
    lemma_in_sum(head, joined(entries), x);
    lemma_in_sum(head, joined(entries), heading + decimal(entries.len()));
}

/// The parts that a report is made of hold what the whole of it holds.
proof fn lemma_in_report(r: MigrationReport, verbose: bool, x: Seq<char>)
    requires
        !r.nothing_to_do,
        ({
            ||| dry_lines(r).contains(x)
            ||| x == action_line(r)
            ||| shown(r.moves@.map_values(|m: MoveReport| move_lines(m)), verbose).contains(x)
            ||| r.backup_paths@.map_values(|p: FilePath| "Backup: "@ + p@).contains(x)
            ||| section(
                "Files updated: "@,
                changed(r.files_updated@).map_values(|f: UpdateReport| file_lines(f)),
                verbose,
            ).contains(x)
            ||| x == "Total path replacements: "@ + decimal(total(changed(r.files_updated@)))
            ||| section(
                "Relink candidates: "@,
                r.relink_candidates@.map_values(|c: RelinkCandidateReport| candidate_lines(c)),
                verbose,
            ).contains(x)
            ||| relinked_lines(r).contains(x)
            ||| section(
                "Relink failures: "@,
                r.relink_failures@.map_values(|f: RelinkFailure| failure_lines(f)),
                verbose,
            ).contains(x)
            ||| text_lines(r, verbose).contains(x)
        }),
    ensures
        lines_of(r, verbose).contains(x),
{
    let p0 = dry_lines(r);
    let p1 = seq![action_line(r)];
    let p2 = shown(r.moves@.map_values(|m: MoveReport| move_lines(m)), verbose);
    let p3 = r.backup_paths@.map_values(|p: FilePath| "Backup: "@ + p@);
    let p4 = section(
        "Files updated: "@,
        changed(r.files_updated@).map_values(|f: UpdateReport| file_lines(f)),
        verbose,
    );
    let p5 = seq!["Total path replacements: "@ + decimal(total(changed(r.files_updated@)))];
    let p6 = section(
        "Relink candidates: "@,
        r.relink_candidates@.map_values(|c: RelinkCandidateReport| candidate_lines(c)),
        verbose,
    );
    let p7 = relinked_lines(r);
    let p8 = section(
        "Relink failures: "@,
        r.relink_failures@.map_values(|f: RelinkFailure| failure_lines(f)),
        verbose,
    );
    let p9 = text_lines(r, verbose);
    assert(p1[0] == action_line(r));
    assert(p5[0] == "Total path replacements: "@ + decimal(total(changed(r.files_updated@))));
    lemma_in_sum(p0, p1, x);
    lemma_in_sum(p0 + p1, p2, x);
    lemma_in_sum(p0 + p1 + p2, p3, x);
    lemma_in_sum(p0 + p1 + p2 + p3, p4, x);
    lemma_in_sum(p0 + p1 + p2 + p3 + p4, p5, x);
    lemma_in_sum(p0 + p1 + p2 + p3 + p4 + p5, p6, x);
    lemma_in_sum(p0 + p1 + p2 + p3 + p4 + p5 + p6, p7, x);
    lemma_in_sum(p0 + p1 + p2 + p3 + p4 + p5 + p6 + p7, p8, x);
    lemma_in_sum(p0 + p1 + p2 + p3 + p4 + p5 + p6 + p7 + p8, p9, x);
}

/// The printed total is the number of all replacements in all files that were not
/// skipped.
pub proof fn law_printed_total_is_the_sum(r: MigrationReport, verbose: bool)
    requires
        !r.nothing_to_do,
    ensures
        lines_of(r, verbose).contains(
            "Total path replacements: "@ + decimal(replacements_in(r.files_updated@)),
        ),
{
    lemma_total_changed(r.files_updated@);
    lemma_in_report(
        r,
        verbose,
        "Total path replacements: "@ + decimal(total(changed(r.files_updated@))),
    );
}

/// A full report names every move, with the data directory that goes along, and every
/// archive.
pub proof fn law_every_move_is_told(r: MigrationReport, i: int)
    requires
        !r.nothing_to_do,
    ensures
        0 <= i < r.moves@.len() ==> lines_of(r, true).contains(
            "  "@ + r.moves@[i].source@ + " -> "@ + r.moves@[i].target@,
        ),
        0 <= i < r.moves@.len() && r.moves@[i].global_dir_rename is Some ==> lines_of(
            r,
            true,
        ).contains(
            "    "@ + (r.moves@[i].global_dir_rename->0).0@ + " -> "@
                + (r.moves@[i].global_dir_rename->0).1@,
        ),
        0 <= i < r.backup_paths@.len() ==> lines_of(r, true).contains(
            "Backup: "@ + r.backup_paths@[i]@,
        ),
        r.moves@.len() == 1 ==> lines_of(r, true).contains("Action: "@ + r.action@),
        r.moves@.len() > 1 ==> lines_of(r, true).contains(
            "Action: "@ + r.action@ + (" "@ + decimal(r.moves@.len()) + " projects"@),
        ),
{
    let entries = r.moves@.map_values(|m: MoveReport| move_lines(m));
    if 0 <= i < r.moves@.len() {
        let m = r.moves@[i];
        let x = "  "@ + m.source@ + " -> "@ + m.target@;
        assert(entries[i] == move_lines(m));
        assert(move_lines(m)[0] == x);
        lemma_in_joined(entries, i, x);
        lemma_in_report(r, true, x);
        if m.global_dir_rename is Some {
            let y = "    "@ + (m.global_dir_rename->0).0@ + " -> "@ + (m.global_dir_rename->0).1@;
            assert(move_lines(m)[1] == y);
            lemma_in_joined(entries, i, y);
            lemma_in_report(r, true, y);
        }
    }
    if 0 <= i < r.backup_paths@.len() {
        let x = "Backup: "@ + r.backup_paths@[i]@;
        assert(r.backup_paths@.map_values(|p: FilePath| "Backup: "@ + p@)[i] == x);
        lemma_in_report(r, true, x);
    }
    lemma_in_report(r, true, action_line(r));
    assert("Action: "@ + r.action@ + Seq::<char>::empty() =~= "Action: "@ + r.action@);
}

/// Every report names every archive, and what was done.
pub proof fn law_every_archive_is_told(r: MigrationReport, verbose: bool, i: int)
    requires
        !r.nothing_to_do,
    ensures
        0 <= i < r.backup_paths@.len() ==> lines_of(r, verbose).contains(
            "Backup: "@ + r.backup_paths@[i]@,
        ),
        lines_of(r, verbose).contains(action_line(r)),
        r.moves@.len() <= 1 ==> action_line(r) == "Action: "@ + r.action@,
{
    if 0 <= i < r.backup_paths@.len() {
        let x = "Backup: "@ + r.backup_paths@[i]@;
        assert(r.backup_paths@.map_values(|p: FilePath| "Backup: "@ + p@)[i] == x);
        lemma_in_report(r, verbose, x);
    }
    lemma_in_report(r, verbose, action_line(r));
    assert("Action: "@ + r.action@ + Seq::<char>::empty() =~= "Action: "@ + r.action@);
}

/// A full report names every file that was not skipped, with the number of references
/// that were replaced in it.
pub proof fn law_every_changed_file_is_told(r: MigrationReport, i: int)
    requires
        !r.nothing_to_do,
        0 <= i < r.files_updated@.len(),
        !r.files_updated@[i].skipped,
    ensures
        lines_of(r, true).contains(
            "  "@ + r.files_updated@[i].file@ + " ("@ + decimal(
                r.files_updated@[i].replacements as nat,
            ) + " replacements)"@,
        ),
{
    let files = r.files_updated@;
    let f = |r: UpdateReport| !r.skipped;
    files.lemma_filter_contains(f, i);
    let j = choose|j: int| 0 <= j < changed(files).len() && changed(files)[j] == files[i];
    let entries = changed(files).map_values(|f: UpdateReport| file_lines(f));
    let x = "  "@ + files[i].file@ + " ("@ + decimal(files[i].replacements as nat)
        + " replacements)"@;
    assert(entries[j] == file_lines(files[i]));
    assert(file_lines(files[i])[0] == x);
    lemma_in_section("Files updated: "@, entries, j, x);
    lemma_in_report(r, true, x);
}

/// A full report names every link that would be repointed, every link that could not be,
/// and every reference that was found.
pub proof fn law_every_link_and_reference_is_told(r: MigrationReport, i: int)
    requires
        !r.nothing_to_do,
    ensures
        0 <= i < r.relink_candidates@.len() ==> lines_of(r, true).contains(
            "  "@ + r.relink_candidates@[i].old@ + " -> "@ + r.relink_candidates@[i].new@,
        ),
        0 <= i < r.relink_failures@.len() ==> lines_of(r, true).contains(
            "  "@ + r.relink_failures@[i].path@ + ": "@ + r.relink_failures@[i].error@,
        ),
        r.text_reference_count > 0 && 0 <= i < r.text_reference_findings@.len() ==> lines_of(
            r,
            true,
        ).contains(
            "  "@ + r.text_reference_findings@[i].file@ + ":"@ + decimal(
                r.text_reference_findings@[i].line as nat,
            ) + " "@ + r.text_reference_findings@[i].old@ + " -> "@
                + r.text_reference_findings@[i].new@,
        ),
{
    if 0 <= i < r.relink_candidates@.len() {
        let c = r.relink_candidates@[i];
        let entries = r.relink_candidates@.map_values(
            |c: RelinkCandidateReport| candidate_lines(c),
        );
        let x = "  "@ + c.old@ + " -> "@ + c.new@;
        assert(entries[i] == candidate_lines(c));
        assert(candidate_lines(c)[0] == x);
        lemma_in_section("Relink candidates: "@, entries, i, x);
        lemma_in_report(r, true, x);
    }
    if 0 <= i < r.relink_failures@.len() {
        let f = r.relink_failures@[i];
        let entries = r.relink_failures@.map_values(|f: RelinkFailure| failure_lines(f));
        let x = "  "@ + f.path@ + ": "@ + f.error@;
        assert(entries[i] == failure_lines(f));
        assert(failure_lines(f)[0] == x);
        lemma_in_section("Relink failures: "@, entries, i, x);
        lemma_in_report(r, true, x);
    }
    if r.text_reference_count > 0 && 0 <= i < r.text_reference_findings@.len() {
        let t = r.text_reference_findings@[i];
        let entries = r.text_reference_findings@.map_values(
            |t: TextReference| reference_lines(t),
        );
        let x = "  "@ + t.file@ + ":"@ + decimal(t.line as nat) + " "@ + t.old@ + " -> "@ + t.new@;
        assert(entries[i] == reference_lines(t));
        assert(reference_lines(t)[0] == x);
        lemma_in_joined(entries, i, x);
        let head = seq![
            crate::report::counted(
                "Text references: "@,
                r.text_reference_count as nat,
                r.text_refs_report_path,
            ),
        ];
        lemma_in_sum(head, shown(entries, true), x);
        lemma_in_report(r, true, x);
    }
}

/// A dry run says so first, and no other run does; a run with nothing to do says only
/// that.
pub proof fn law_dry_run_is_told_first(r: MigrationReport, verbose: bool)
    ensures
        r.nothing_to_do ==> lines_of(r, verbose).len() == 1,
        !r.nothing_to_do && r.dry_run ==> lines_of(r, verbose)[0] == "Dry run — no changes made."@
            && lines_of(r, verbose)[2] == action_line(r),
        !r.nothing_to_do && !r.dry_run ==> lines_of(r, verbose)[0] == action_line(r),
{
}

/// How many links were repointed and how many references were found is told, with the
/// file that says more.
pub proof fn law_counts_are_told(r: MigrationReport, verbose: bool)
    requires
        !r.nothing_to_do,
    ensures
        r.relinked_count > 0 && r.relink_log_path is Some ==> lines_of(r, verbose).contains(
            "Relinked: "@ + decimal(r.relinked_count as nat) + (" (see "@ + r.relink_log_path->0@
                + ")"@),
        ),
        r.text_reference_count > 0 && r.text_refs_report_path is Some ==> lines_of(
            r,
            verbose,
        ).contains(
            "Text references: "@ + decimal(r.text_reference_count as nat) + (" (see "@
                + r.text_refs_report_path->0@ + ")"@),
        ),
{
    if r.relinked_count > 0 && r.relink_log_path is Some {
        let x = relinked_lines(r)[0];
        lemma_in_report(r, verbose, x);
    }
    if r.text_reference_count > 0 && r.text_refs_report_path is Some {
        let x = text_lines(r, verbose)[0];
        lemma_in_report(r, verbose, x);
    }
}

/// A run with nothing to do says that the references are right.
pub proof fn law_idle_run_says_so(r: MigrationReport, verbose: bool)
    requires
        r.nothing_to_do,
    ensures
        lines_of(r, verbose) == seq![
            "Nothing to do — project references are already consistent."@,
        ],
{
}

/// A list of at most ten entries is shown as a whole in every report, and every section
/// starts with how many entries it has.
pub proof fn law_short_lists_are_whole(entries: Seq<Lines>, heading: Seq<char>, verbose: bool)
    ensures
        entries.len() <= 10 ==> shown(entries, verbose) == joined(entries),
        shown(entries, true) == joined(entries),
        entries.len() > 0 ==> section(heading, entries, verbose).len() == 1 + shown(
            entries,
            verbose,
        ).len() && section(heading, entries, verbose)[0] == heading + decimal(entries.len()),
        entries.len() > 0 && entries.len() <= 10 ==> section(heading, entries, verbose) == seq![
            heading + decimal(entries.len()),
        ] + joined(entries),
        section(heading, Seq::empty(), verbose).len() == 0,
{
}

/// Without such a file the count stands by itself.
pub proof fn law_bare_counts_are_told(r: MigrationReport, verbose: bool)
    requires
        !r.nothing_to_do,
    ensures
        r.relinked_count > 0 && r.relink_log_path is None ==> lines_of(r, verbose).contains(
            "Relinked: "@ + decimal(r.relinked_count as nat),
        ),
        r.text_reference_count > 0 && r.text_refs_report_path is None ==> lines_of(
            r,
            verbose,
        ).contains("Text references: "@ + decimal(r.text_reference_count as nat)),
        r.relinked_count == 0 ==> relinked_lines(r).len() == 0,
        r.text_reference_count == 0 ==> text_lines(r, verbose).len() == 0,
{
    if r.relinked_count > 0 && r.relink_log_path is None {
        let x = "Relinked: "@ + decimal(r.relinked_count as nat);
        assert(x + Seq::<char>::empty() =~= x);
        assert(relinked_lines(r)[0] == x);
        lemma_in_report(r, verbose, x);
    }
    if r.text_reference_count > 0 && r.text_refs_report_path is None {
        let x = "Text references: "@ + decimal(r.text_reference_count as nat);
        assert(x + Seq::<char>::empty() =~= x);
        assert(text_lines(r, verbose)[0] == x);
        lemma_in_report(r, verbose, x);
    }
}

} // verus!
