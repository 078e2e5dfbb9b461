//! Reports put into words, line by line.

use vstd::prelude::*;
use vstd::string::*;

use crate::decimal::decimal;
use crate::decimal::push_decimal;
use crate::decimal::push_long_decimal;
use crate::fs::texts;
use crate::links::TextReference;
use crate::migration::MigrationReport;
use crate::migration::MoveReport;
use crate::migration::RelinkCandidateReport;
use crate::path::FilePath;
use crate::relink::RelinkFailure;
use crate::updater::UpdateReport;

verus! {

/// How many entries of a list are shown before it is cut short.
pub const LIST_SHOWN: usize = 10;

/// Lines of text.
pub type Lines = Seq<Seq<char>>;

pub open spec fn line_views(lines: Seq<String>) -> Lines {
    lines.map_values(|s: String| s@)
}

/// The lines of the entries, one entry after the other.
pub open spec fn joined(entries: Seq<Lines>) -> Lines
    decreases entries.len(),
{
    if entries.len() == 0 {
        Seq::empty()
    } else {
        joined(entries.drop_last()) + entries.last()
    }
}

/// A list, cut short unless all of it is asked for.
pub open spec fn shown(entries: Seq<Lines>, verbose: bool) -> Lines {
    if verbose || entries.len() <= LIST_SHOWN {
        joined(entries)
    } else {
        joined(entries.take(LIST_SHOWN as int)).push(
            "  ... ("@ + decimal((entries.len() - LIST_SHOWN) as nat) + " more, use -v for all)"@,
        )
    }
}

/// `shown` under a heading that counts the entries; nothing where there are
/// none.
pub open spec fn section(heading: Seq<char>, entries: Seq<Lines>, verbose: bool) -> Lines {
    if entries.len() == 0 {
        Seq::empty()
    } else {
        seq![heading + decimal(entries.len())] + shown(entries, verbose)
    }
}

pub open spec fn move_lines(m: MoveReport) -> Lines {
    seq!["  "@ + m.source@ + " -> "@ + m.target@] + (match m.global_dir_rename {
        Some((old, new)) => seq!["    "@ + old@ + " -> "@ + new@],
        None => Seq::empty(),
    })
}

pub open spec fn file_lines(r: UpdateReport) -> Lines {
    seq!["  "@ + r.file@ + " ("@ + decimal(r.replacements as nat) + " replacements)"@]
}

pub open spec fn candidate_lines(c: RelinkCandidateReport) -> Lines {
    seq!["  "@ + c.old@ + " -> "@ + c.new@]
}

pub open spec fn failure_lines(f: RelinkFailure) -> Lines {
    seq!["  "@ + f.path@ + ": "@ + f.error@]
}

pub open spec fn reference_lines(t: TextReference) -> Lines {
    seq![
        "  "@ + t.file@ + ":"@ + decimal(t.line as nat) + " "@ + t.old@ + " -> "@ + t.new@,
    ]
}

/// The files that were changed.
pub open spec fn changed(files: Seq<UpdateReport>) -> Seq<UpdateReport> {
    files.filter(|r: UpdateReport| !r.skipped)
}

pub open spec fn total(files: Seq<UpdateReport>) -> nat
    decreases files.len(),
{
    if files.len() == 0 {
        0
    } else {
        total(files.drop_last()) + files.last().replacements as nat
    }
}

/// A count, with the file that says more about it, where there is one.
pub open spec fn counted(heading: Seq<char>, n: nat, path: Option<FilePath>) -> Seq<char> {
    heading + decimal(n) + (match path {
        Some(p) => " (see "@ + p@ + ")"@,
        None => Seq::empty(),
    })
}

/// What was done, in one line.
pub open spec fn action_line(r: MigrationReport) -> Seq<char> {
    "Action: "@ + r.action@ + (if r.moves@.len() <= 1 {
        Seq::empty()
    } else {
        " "@ + decimal(r.moves@.len()) + " projects"@
    })
}

/// A line about a dry run, in front of everything else.
pub open spec fn dry_lines(r: MigrationReport) -> Lines {
    if r.dry_run {
        seq!["Dry run — no changes made."@, ""@]
    } else {
        Seq::empty()
    }
}

/// How many links were repointed, and where that is logged.
pub open spec fn relinked_lines(r: MigrationReport) -> Lines {
    if r.relinked_count > 0 {
        seq![counted("Relinked: "@, r.relinked_count as nat, r.relink_log_path)]
    } else {
        Seq::empty()
    }
}

/// How many references were found, and where they are reported or what they
/// are.
pub open spec fn text_lines(r: MigrationReport, verbose: bool) -> Lines {
    if r.text_reference_count > 0 {
        seq![
            counted("Text references: "@, r.text_reference_count as nat, r.text_refs_report_path),
        ] + shown(
            r.text_reference_findings@.map_values(|t: TextReference| reference_lines(t)),
            verbose,
        )
    } else {
        Seq::empty()
    }
}

/// The lines that report on a run.
pub open spec fn lines_of(r: MigrationReport, verbose: bool) -> Lines {
    if r.nothing_to_do {
        seq!["Nothing to do — project references are already consistent."@]
    } else {
        dry_lines(r) + seq![action_line(r)] + shown(
            r.moves@.map_values(|m: MoveReport| move_lines(m)),
            verbose,
        ) + r.backup_paths@.map_values(|p: FilePath| "Backup: "@ + p@) + section(
            "Files updated: "@,
            changed(r.files_updated@).map_values(|f: UpdateReport| file_lines(f)),
            verbose,
        ) + seq!["Total path replacements: "@ + decimal(total(changed(r.files_updated@)))]
            + section(
            "Relink candidates: "@,
            r.relink_candidates@.map_values(|c: RelinkCandidateReport| candidate_lines(c)),
            verbose,
        ) + relinked_lines(r) + section(
            "Relink failures: "@,
            r.relink_failures@.map_values(|f: RelinkFailure| failure_lines(f)),
            verbose,
        ) + text_lines(r, verbose)
    }
}

/// What the lines of some entries are in the model.
pub open spec fn entry_views(entries: Seq<Vec<String>>) -> Seq<Lines> {
    entries.map_values(|e: Vec<String>| line_views(e@))
}

/// Appends a line.
fn push_line(out: &mut Vec<String>, line: String)
    ensures
        line_views(final(out)@) == line_views(old(out)@) + seq![line@],
{
    out.push(line);
    assert(line_views(out@) =~= line_views(old(out)@) + seq![line@]);
}

/// An entry of one line.
fn one_line(line: String) -> (r: Vec<String>)
    ensures
        line_views(r@) == seq![line@],
{
    let mut r: Vec<String> = Vec::new();
    r.push(line);
    assert(line_views(r@) =~= seq![line@]);
    r
}

/// Appends the entries, cut short unless all of them are asked for.
fn push_shown(out: &mut Vec<String>, entries: Vec<Vec<String>>, verbose: bool)
    ensures
        line_views(final(out)@) == line_views(old(out)@) + shown(entry_views(entries@), verbose),
{
    let ghost start = line_views(out@);
    let ghost all = entry_views(entries@);
    let count: usize = entries.len();
    let limit: usize = if verbose || count <= LIST_SHOWN {
        count
    } else {
        LIST_SHOWN
    };
    let ghost given = entries@;
    let mut rest = entries;
    let mut i: usize = 0;
    proof {
        assert(all.take(0) =~= Seq::empty());
        assert(given.skip(0) =~= given);
        assert(line_views(out@) =~= start + joined(all.take(0)));
    }
    while i < limit
        invariant
            all == entry_views(given),
            given.len() == count,
            limit <= count,
            i <= limit,
            rest@ == given.skip(i as int),
            line_views(out@) == start + joined(all.take(i as int)),
        decreases limit - i,
    {
        let mut entry = rest.remove(0);
        let ghost e = entry@;
        let ghost before = out@;
        assert(given.skip(i as int).remove(0) =~= given.skip(i + 1));
        out.append(&mut entry);
        assert(line_views(out@) =~= line_views(before) + line_views(e));
        i = i + 1;
        proof {
            assert(all.take(i as int).drop_last() =~= all.take(i - 1));
            assert(all.take(i as int).last() == line_views(e));
            assert(line_views(out@) =~= start + joined(all.take(i as int)));
        }
    }
    if limit < count {
        let mut line = "  ... (".to_owned();
        push_decimal(&mut line, count - limit);
        line.append(" more, use -v for all)");
        push_line(out, line);
    } else {
        assert(all.take(i as int) =~= all);
    }
    assert(line_views(out@) =~= start + shown(all, verbose));
}

/// Appends a section: a heading with the number of entries, and the entries.
fn push_section(out: &mut Vec<String>, heading: &str, entries: Vec<Vec<String>>, verbose: bool)
    ensures
        line_views(final(out)@) == line_views(old(out)@) + section(
            heading@,
            entry_views(entries@),
            verbose,
        ),
{
    let ghost start = line_views(out@);
    let ghost all = entry_views(entries@);
    if entries.len() > 0 {
        let mut line = heading.to_owned();
        push_decimal(&mut line, entries.len());
        push_line(out, line);
        push_shown(out, entries, verbose);
    }
    assert(line_views(out@) =~= start + section(heading@, all, verbose));
}

fn arrow_line(indent: &str, from: &FilePath, to: &FilePath) -> (r: String)
    ensures
        r@ == indent@ + from@ + " -> "@ + to@,
{
    let mut r = indent.to_owned();
    r.append(from.as_str());
    r.append(" -> ");
    r.append(to.as_str());
    r
}

fn move_entries(moves: &Vec<MoveReport>) -> (r: Vec<Vec<String>>)
    ensures
        entry_views(r@) == moves@.map_values(|m: MoveReport| move_lines(m)),
{
    let mut r: Vec<Vec<String>> = Vec::new();
    let mut i: usize = 0;
    while i < moves.len()
        invariant
            i <= moves@.len(),
            r@.len() == i,
            forall|x: int| 0 <= x < i ==> line_views((#[trigger] r@[x])@) == move_lines(moves@[x]),
        decreases moves@.len() - i,
    {
        let m = &moves[i];
        let mut entry = one_line(arrow_line("  ", &m.source, &m.target));
        if let Some((old, new)) = &m.global_dir_rename {
            push_line(&mut entry, arrow_line("    ", old, new));
        }
        assert(line_views(entry@) =~= move_lines(*m));
        r.push(entry);
        i = i + 1;
    }
    assert(entry_views(r@) =~= moves@.map_values(|m: MoveReport| move_lines(m)));
    r
}

fn candidate_entries(list: &Vec<RelinkCandidateReport>) -> (r: Vec<Vec<String>>)
    ensures
        entry_views(r@) == list@.map_values(|c: RelinkCandidateReport| candidate_lines(c)),
{
    let mut r: Vec<Vec<String>> = Vec::new();
    let mut i: usize = 0;
    while i < list.len()
        invariant
            i <= list@.len(),
            r@.len() == i,
            forall|x: int|
                0 <= x < i ==> line_views((#[trigger] r@[x])@) == candidate_lines(list@[x]),
        decreases list@.len() - i,
    {
        r.push(one_line(arrow_line("  ", &list[i].old, &list[i].new)));
        i = i + 1;
    }
    assert(entry_views(r@) =~= list@.map_values(|c: RelinkCandidateReport| candidate_lines(c)));
    r
}

fn failure_entries(list: &Vec<RelinkFailure>) -> (r: Vec<Vec<String>>)
    ensures
        entry_views(r@) == list@.map_values(|f: RelinkFailure| failure_lines(f)),
{
    let mut r: Vec<Vec<String>> = Vec::new();
    let mut i: usize = 0;
    while i < list.len()
        invariant
            i <= list@.len(),
            r@.len() == i,
            forall|x: int|
                0 <= x < i ==> line_views((#[trigger] r@[x])@) == failure_lines(list@[x]),
        decreases list@.len() - i,
    {
        let mut line = "  ".to_owned();
        line.append(list[i].path.as_str());
        line.append(": ");
        line.append(list[i].error.as_str());
        r.push(one_line(line));
        i = i + 1;
    }
    assert(entry_views(r@) =~= list@.map_values(|f: RelinkFailure| failure_lines(f)));
    r
}

fn reference_entries(list: &Vec<TextReference>) -> (r: Vec<Vec<String>>)
    ensures
        entry_views(r@) == list@.map_values(|t: TextReference| reference_lines(t)),
{
    let mut r: Vec<Vec<String>> = Vec::new();
    let mut i: usize = 0;
    while i < list.len()
        invariant
            i <= list@.len(),
            r@.len() == i,
            forall|x: int|
                0 <= x < i ==> line_views((#[trigger] r@[x])@) == reference_lines(list@[x]),
        decreases list@.len() - i,
    {
        let t = &list[i];
        let mut line = "  ".to_owned();
        line.append(t.file.as_str());
        line.append(":");
        push_decimal(&mut line, t.line);
        line.append(" ");
        line.append(t.old.as_str());
        line.append(" -> ");
        line.append(t.new.as_str());
        r.push(one_line(line));
        i = i + 1;
    }
    assert(entry_views(r@) =~= list@.map_values(|t: TextReference| reference_lines(t)));
    r
}

/// The entries of the files that were changed, and how many references were
/// replaced in them.
fn file_entries(files: &Vec<UpdateReport>) -> (r: (Vec<Vec<String>>, u128))
    ensures
        entry_views(r.0@) == changed(files@).map_values(|f: UpdateReport| file_lines(f)),
        r.1 == total(changed(files@)),
{
    let ghost all = files@;
    let ghost f = |r: UpdateReport| !r.skipped;
    let ghost g = |f: UpdateReport| file_lines(f);
    let count: usize = files.len();
    let mut r: Vec<Vec<String>> = Vec::new();
    let mut sum: u128 = 0;
    let mut i: usize = 0;
    proof {
        assert(all.take(0) =~= Seq::empty());
        reveal(Seq::filter);
        assert(all.take(0).filter(f) =~= Seq::empty());
        assert(entry_views(r@) =~= all.take(0).filter(f).map_values(g));
    }
    while i < count
        invariant
            all == files@,
            count == files@.len(),
            f == (|r: UpdateReport| !r.skipped),
            g == (|f: UpdateReport| file_lines(f)),
            i <= count,
            entry_views(r@) == all.take(i as int).filter(f).map_values(g),
            sum == total(all.take(i as int).filter(f)),
            sum <= i * usize::MAX,
        decreases count - i,
    {
        let file = &files[i];
        let ghost done = all.take(i as int).filter(f);
        let ghost now = all.take(i + 1).filter(f);
        proof {
            reveal(Seq::filter);
            assert(all.take(i + 1).drop_last() =~= all.take(i as int));
            assert(all.take(i + 1).last() == *file);
            assert((i + 1) * usize::MAX == i * usize::MAX + usize::MAX) by (nonlinear_arith);
            assert((i + 1) * usize::MAX <= 0xffff_ffff_ffff_ffff * 0xffff_ffff_ffff_ffff)
                by (nonlinear_arith)
                requires
                    i + 1 <= 0xffff_ffff_ffff_ffff,
                    usize::MAX <= 0xffff_ffff_ffff_ffff,
            ;
        }
        if !file.skipped {
            let ghost before = r@;
            let mut line = "  ".to_owned();
            line.append(file.file.as_str());
            line.append(" (");
            push_decimal(&mut line, file.replacements);
            line.append(" replacements)");
            r.push(one_line(line));
            sum = sum + file.replacements as u128;
            proof {
                assert(now == done.push(*file));
                assert(now.drop_last() =~= done);
                assert(entry_views(r@) =~= entry_views(before).push(file_lines(*file)));
                assert(now.map_values(g) =~= done.map_values(g).push(file_lines(*file)));
            }
        } else {
            assert(now == done);
        }
        i = i + 1;
    }
    assert(all.take(i as int) =~= all);
    (r, sum)
}

fn counted_line(heading: &str, n: usize, path: &Option<FilePath>) -> (r: String)
    ensures
        r@ == counted(heading@, n as nat, *path),
{
    let mut r = heading.to_owned();
    push_decimal(&mut r, n);
    if let Some(p) = path {
        r.append(" (see ");
        r.append(p.as_str());
        r.append(")");
    }
    assert(r@ =~= counted(heading@, n as nat, *path));
    r
}

/// The lines about a dry run, the action and the moves.
fn head_lines(report: &MigrationReport, verbose: bool) -> (out: Vec<String>)
    ensures
        line_views(out@) == dry_lines(*report) + seq![action_line(*report)] + shown(
            report.moves@.map_values(|m: MoveReport| move_lines(m)),
            verbose,
        ),
{
    let mut out: Vec<String> = Vec::new();
    if report.dry_run {
        push_line(&mut out, "Dry run — no changes made.".to_owned());
        push_line(&mut out, "".to_owned());
    }
    assert(line_views(out@) =~= dry_lines(*report));
    let mut action = "Action: ".to_owned();
    action.append(report.action.as_str());
    if report.moves.len() > 1 {
        action.append(" ");
        push_decimal(&mut action, report.moves.len());
        action.append(" projects");
    }
    assert(action@ =~= action_line(*report));
    push_line(&mut out, action);
    push_shown(&mut out, move_entries(&report.moves), verbose);
    out
}

/// Appends the paths of the archives.
fn push_backups(out: &mut Vec<String>, paths: &Vec<FilePath>)
    ensures
        line_views(final(out)@) == line_views(old(out)@) + paths@.map_values(
            |p: FilePath| "Backup: "@ + p@,
        ),
{
    let ghost before = line_views(out@);
    let ghost backups = paths@.map_values(|p: FilePath| "Backup: "@ + p@);
    let mut i: usize = 0;
    assert(line_views(out@) =~= before + backups.take(0));
    while i < paths.len()
        invariant
            backups == paths@.map_values(|p: FilePath| "Backup: "@ + p@),
            i <= paths@.len(),
            line_views(out@) == before + backups.take(i as int),
        decreases paths@.len() - i,
    {
        let mut line = "Backup: ".to_owned();
        line.append(paths[i].as_str());
        push_line(out, line);
        i = i + 1;
        assert(line_views(out@) =~= before + backups.take(i as int));
    }
    assert(backups.take(i as int) =~= backups);
}

/// Appends what is to be said of repointed links.
fn push_relinked(out: &mut Vec<String>, report: &MigrationReport)
    ensures
        line_views(final(out)@) == line_views(old(out)@) + relinked_lines(*report),
{
    if report.relinked_count > 0 {
        push_line(
            out,
            counted_line("Relinked: ", report.relinked_count, &report.relink_log_path),
        );
    }
    assert(line_views(out@) =~= line_views(old(out)@) + relinked_lines(*report));
}

/// Appends what is to be said of references in texts.
fn push_references(out: &mut Vec<String>, report: &MigrationReport, verbose: bool)
    ensures
        line_views(final(out)@) == line_views(old(out)@) + text_lines(*report, verbose),
{
    if report.text_reference_count > 0 {
        push_line(
            out,
            counted_line(
                "Text references: ",
                report.text_reference_count,
                &report.text_refs_report_path,
            ),
        );
        push_shown(out, reference_entries(&report.text_reference_findings), verbose);
    }
    assert(line_views(out@) =~= line_views(old(out)@) + text_lines(*report, verbose));
}

/// Puts a report into words. Lists are cut short unless `verbose` asks for all
/// of them: a long plan touches thousands of files.
pub fn report_lines(report: &MigrationReport, verbose: bool) -> (r: Vec<String>)
    ensures
        line_views(r@) == lines_of(*report, verbose),
{
    if report.nothing_to_do {
        return one_line("Nothing to do — project references are already consistent.".to_owned());
    }
    let mut out = head_lines(report, verbose);
    push_backups(&mut out, &report.backup_paths);
    let (files, sum) = file_entries(&report.files_updated);
    push_section(&mut out, "Files updated: ", files, verbose);
    let mut line = "Total path replacements: ".to_owned();
    push_long_decimal(&mut line, sum);
    push_line(&mut out, line);
    push_section(
        &mut out,
        "Relink candidates: ",
        candidate_entries(&report.relink_candidates),
        verbose,
    );
    push_relinked(&mut out, report);
    push_section(
        &mut out,
        "Relink failures: ",
        failure_entries(&report.relink_failures),
        verbose,
    );
    push_references(&mut out, report, verbose);
    out
}

} // verus!
