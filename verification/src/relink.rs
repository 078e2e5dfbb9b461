//! Repointing links, and the logs that a run leaves behind.

use vstd::prelude::*;
use vstd::string::*;
use vstd::utf8::encode_utf8;

use crate::apply::active;
use crate::backup::backup_dir;
use crate::backup::made_room;
use crate::decimal::decimal;
use crate::decimal::push_decimal;
use crate::encoder::encode;
use crate::encoder::encoded;
use crate::encoder::EncoderError;
use crate::error::Error;
use crate::error::FsError;
use crate::fs::law_write_reads_back;
use crate::fs::replaced_file;
use crate::fs::same_books;
use crate::fs::same_entry;
use crate::fs::texts;
use crate::fs::Fs;
use crate::fs::FsView;
use crate::links::finding;
use crate::links::link_dir;
use crate::links::path_text;
use crate::links::relative;
use crate::links::relative_target;
use crate::links::Finding;
use crate::links::LinkCandidate;
use crate::links::TextReference;
use crate::order::key_lt;
use crate::order::lemma_sorted_map;
use crate::order::path_before;
use crate::order::sorted;
use crate::order::stable_sort;
use crate::path::components;
use crate::path::dot;
use crate::path::has_parent;
use crate::path::is_name;
use crate::path::is_plain;
use crate::path::join_text;
use crate::path::lemma_components_join;
use crate::path::lemma_components_join_name;
use crate::path::lemma_components_plain;
use crate::path::opt_text;
use crate::path::slash;
use crate::path::under;
use crate::path::FilePath;
use crate::path::Key;
use crate::plan::reference_views;
use crate::plan::Migration;
use crate::substitution::rebased;
use crate::substitution::Pairs;
use crate::unit::is_absolute;
use crate::unit::Unit;

verus! {

/// A link that could not be repointed, or a log that could not be written.
#[derive(Debug)]
pub struct RelinkFailure {
    pub path: FilePath,
    pub error: String,
}

impl RelinkFailure {
    /// The failure at `path`, in the words of the file system.
    pub fn of(path: FilePath, e: &FsError) -> (r: Self)
        ensures
            r.path == path,
            r.error@ == e@,
    {
        RelinkFailure { path, error: e.message() }
    }
}

/// A link that was repointed: where it is, where it led before, as an absolute
/// path, and what is now written in it.
///
/// What was written in a relative link before would lead astray from its new
/// place, so the log keeps where it led instead.
pub struct RelinkLogEntry {
    pub path: FilePath,
    pub old: FilePath,
    pub new: FilePath,
}

/// A row of the relink log.
pub type LogRow = (Seq<char>, Seq<char>, Seq<char>);

pub open spec fn rows_of(entries: Seq<RelinkLogEntry>) -> Seq<LogRow> {
    entries.map_values(|e: RelinkLogEntry| (e.path@, e.old@, e.new@))
}

/// Where a link is after the move: one that lies in a moving project has moved
/// with it.
pub open spec fn link_place(subs: Pairs, c: LinkCandidate) -> Seq<char> {
    match rebased(subs, c.path@) {
        Some(p) => p,
        None => c.path@,
    }
}

/// What is written in a repointed link: a relative one stays relative.
pub open spec fn link_text(subs: Pairs, c: LinkCandidate) -> Seq<char> {
    if c.is_relative {
        path_text(relative(components(link_dir(link_place(subs, c))), c.new_target.key()))
    } else {
        c.new_target@
    }
}

pub open spec fn log_row(subs: Pairs, c: LinkCandidate) -> LogRow {
    (link_place(subs, c), c.resolved_target@, link_text(subs, c))
}

/// The candidates whose targets were there before the move.
pub open spec fn alive(c: Seq<LinkCandidate>) -> Seq<LinkCandidate> {
    c.filter(|c: LinkCandidate| c.alive)
}

/// The link at `path` is made to say `target`, or the file system refuses.
pub open spec fn link_step(a: FsView, b: FsView, path: Key, target: Seq<char>, ok: bool) -> bool {
    if ok {
        &&& b.links == a.links.insert(path, target)
        &&& forall|q: Key| !under(q, path) ==> #[trigger] same_entry(a, b, q)
        &&& same_books(a, b)
    } else {
        b == a && !a.accepts.contains(path)
    }
}

/// The states that repointing goes through, and which links it worked on.
pub struct RelinkTrace {
    pub vs: Seq<FsView>,
    pub oks: Seq<bool>,
}

pub open spec fn relink_trace(t: RelinkTrace, subs: Pairs, list: Seq<LinkCandidate>) -> bool {
    &&& t.vs.len() == t.oks.len() + 1
    &&& t.oks.len() == list.len()
    &&& forall|i: int|
        #![trigger t.oks[i]]
        0 <= i < list.len() ==> link_step(
            t.vs[i],
            t.vs[i + 1],
            components(link_place(subs, list[i])),
            link_text(subs, list[i]),
            t.oks[i],
        )
}

/// The rows of the links that were repointed.
pub open spec fn repointed(subs: Pairs, list: Seq<LinkCandidate>, oks: Seq<bool>) -> Seq<LogRow>
    decreases oks.len(),
{
    if oks.len() == 0 {
        Seq::empty()
    } else {
        let before = repointed(subs, list, oks.drop_last());
        if oks.last() {
            before.push(log_row(subs, list[oks.len() - 1]))
        } else {
            before
        }
    }
}

/// The places of the links that were not.
pub open spec fn refused(subs: Pairs, list: Seq<LinkCandidate>, oks: Seq<bool>) -> Seq<Seq<char>>
    decreases oks.len(),
{
    if oks.len() == 0 {
        Seq::empty()
    } else {
        let before = refused(subs, list, oks.drop_last());
        if oks.last() {
            before
        } else {
            before.push(link_place(subs, list[oks.len() - 1]))
        }
    }
}

/// The paths of some failures.
pub open spec fn failed_paths(f: Seq<RelinkFailure>) -> Seq<Seq<char>> {
    f.map_values(|f: RelinkFailure| f.path@)
}

/// What repointing does to the file system, and what comes of it.
pub open spec fn repoint_step(
    a: FsView,
    b: FsView,
    m: Migration,
    c: Seq<LinkCandidate>,
    entries: Seq<RelinkLogEntry>,
    failures: Seq<RelinkFailure>,
) -> bool {
    if m.dry_run {
        b == a && entries.len() == 0 && failures.len() == 0
    } else {
        exists|t: RelinkTrace| #[trigger]
            relink_trace(t, m.subs@, alive(c)) && t.vs[0] == a && t.vs.last() == b && rows_of(
                entries,
            ) == repointed(m.subs@, alive(c), t.oks) && failed_paths(failures) == refused(
                m.subs@,
                alive(c),
                t.oks,
            )
    }
}

impl Migration {
    /// Repoints every candidate that was alive, now that the move has landed.
    /// One that fails does not stop the others: the move cannot be taken back.
    pub fn repoint_candidates<F: Fs>(&self, fs: &mut F, candidates: &Vec<LinkCandidate>) -> (r: (
        Vec<RelinkLogEntry>,
        Vec<RelinkFailure>,
    ))
        ensures
            repoint_step(old(fs).view(), final(fs).view(), *self, candidates@, r.0@, r.1@),
    {
        let mut entries: Vec<RelinkLogEntry> = Vec::new();
        let mut failures: Vec<RelinkFailure> = Vec::new();
        if self.dry_run {
            return (entries, failures);
        }
        let ghost start = fs.view();
        let ghost subs = self.subs@;
        let ghost all = candidates@;
        let ghost f = |c: LinkCandidate| c.alive;
        let ghost mut t = RelinkTrace { vs: seq![fs.view()], oks: Seq::empty() };
        let mut i: usize = 0;
        proof {
            assert(all.take(0) =~= Seq::empty());
            reveal(Seq::filter);
            assert(all.take(0).filter(f) =~= Seq::empty());
            assert(rows_of(entries@) =~= Seq::empty());
            assert(failed_paths(failures@) =~= Seq::empty());
        }
        while i < candidates.len()
            invariant
                start == old(fs).view(),
                subs == self.subs@,
                all == candidates@,
                f == (|c: LinkCandidate| c.alive),
                i <= all.len(),
                relink_trace(t, subs, all.take(i as int).filter(f)),
                t.vs[0] == start,
                t.vs.last() == fs.view(),
                rows_of(entries@) == repointed(subs, all.take(i as int).filter(f), t.oks),
                failed_paths(failures@) == refused(subs, all.take(i as int).filter(f), t.oks),
            decreases all.len() - i,
        {
            let c = &candidates[i];
            let ghost done = all.take(i as int).filter(f);
            let ghost now = all.take(i + 1).filter(f);
            proof {
                reveal(Seq::filter);
                assert(all.take(i + 1).drop_last() =~= all.take(i as int));
                assert(all.take(i + 1).last() == *c);
            }
            if c.alive {
                let ghost before = t;
                let ghost had = entries@;
                let ghost had_failed = failures@;
                let write_path = match self.subs.rebase(&c.path) {
                    Some(path) => path,
                    None => c.path.clone(),
                };
                let raw_target = if c.is_relative {
                    relative_target(&write_path, &c.new_target)
                } else {
                    c.new_target.clone()
                };
                let r = fs.replace_symlink(&write_path, &raw_target);
                let ok = r.is_ok();
                match r {
                    Ok(_) => {
                        entries.push(
                            RelinkLogEntry {
                                path: write_path,
                                old: c.resolved_target.clone(),
                                new: raw_target,
                            },
                        );
                    },
                    Err(e) => {
                        failures.push(RelinkFailure::of(write_path, &e));
                    },
                }
                proof {
                    t = RelinkTrace { vs: before.vs.push(fs.view()), oks: before.oks.push(ok) };
                    assert(now == done.push(*c));
                    assert(t.oks.drop_last() =~= before.oks);
                    lemma_longer_list(subs, done, *c, before.oks);
                    assert forall|x: int| #![trigger t.oks[x]] 0 <= x < now.len() implies
                        link_step(
                        t.vs[x],
                        t.vs[x + 1],
                        components(link_place(subs, now[x])),
                        link_text(subs, now[x]),
                        t.oks[x],
                    ) by {
                        if x < done.len() {
                            assert(t.oks[x] == before.oks[x]);
                            assert(t.vs[x] == before.vs[x] && t.vs[x + 1] == before.vs[x + 1]);
                            assert(now[x] == done[x]);
                        }
                    }
                    if ok {
                        assert(rows_of(entries@) =~= rows_of(had).push(log_row(subs, *c)));
                    } else {
                        assert(failed_paths(failures@) =~= failed_paths(had_failed).push(
                            link_place(subs, *c),
                        ));
                    }
                }
            } else {
                assert(now == done);
            }
            i = i + 1;
        }
        proof {
            assert(all.take(i as int) =~= all);
            assert(relink_trace(t, subs, alive(all)));
        }
        (entries, failures)
    }
}

/// What the links give does not depend on what comes behind them.
proof fn lemma_longer_list(
    subs: Pairs,
    list: Seq<LinkCandidate>,
    c: LinkCandidate,
    oks: Seq<bool>,
)
    requires
        oks.len() <= list.len(),
    ensures
        repointed(subs, list.push(c), oks) == repointed(subs, list, oks),
        refused(subs, list.push(c), oks) == refused(subs, list, oks),
    decreases oks.len(),
{
    if oks.len() > 0 {
        lemma_longer_list(subs, list, c, oks.drop_last());
        assert(list.push(c)[oks.len() - 1] == list[oks.len() - 1]);
    }
}

/// What ends the name of a backup.
pub open spec fn archive_suffix() -> Seq<char> {
    ".tar.gz"@
}

/// The name of a backup without what ends it.
pub open spec fn stem(name: Seq<char>) -> Option<Seq<char>> {
    let n = name.len() - archive_suffix().len();
    if n >= 0 && name.skip(n) == archive_suffix() {
        Some(name.take(n))
    } else {
        None
    }
}

/// What names the files that a run leaves: its first backup, else its first
/// unit and the time.
pub open spec fn artifact_stem(m: Migration, backups: Seq<Seq<char>>) -> Option<Seq<char>> {
    if backups.len() > 0 {
        let k = components(backups[0]);
        if k.len() > 0 && is_name(k.last()) {
            stem(k.last())
        } else {
            None
        }
    } else if active(m.units@).len() > 0 && is_absolute(active(m.units@)[0].source) {
        Some(encoded(active(m.units@)[0].source@) + "-"@ + m.timestamp@)
    } else {
        None
    }
}

/// Where a file that the run leaves is put: next to the backups, under the same
/// name.
pub open spec fn artifact_path(
    m: Migration,
    backups: Seq<Seq<char>>,
    suffix: Seq<char>,
) -> Option<Seq<char>> {
    match artifact_stem(m, backups) {
        Some(s) => Some(join_text(backup_dir(m.claude_home@.path), s + "."@ + suffix)),
        None => None,
    }
}

/// `e` reports why the files that the run leaves cannot be named.
pub open spec fn artifact_error(e: Error, m: Migration, backups: Seq<Seq<char>>) -> bool {
    if backups.len() > 0 {
        let k = components(backups[0]);
        if k.len() > 0 && is_name(k.last()) {
            e matches Error::BackupSuffix(p) && p@ == backups[0]
        } else {
            e matches Error::NamelessBackup(p) && p@ == backups[0]
        }
    } else if active(m.units@).len() == 0 {
        e is NothingToMigrate
    } else {
        e matches Error::Encoder(EncoderError::RelativePath(p)) && p@ == active(m.units@)[0].source@
    }
}

/// A file that the run leaves lies beside the backups.
pub(crate) proof fn lemma_artifact_place(m: Migration, backups: Seq<Seq<char>>, suffix: Seq<char>)
    requires
        artifact_path(m, backups, suffix) is Some,
    ensures
        has_parent(components(artifact_path(m, backups, suffix)->0)),
        under(
            components(artifact_path(m, backups, suffix)->0),
            components(backup_dir(m.claude_home@.path)),
        ),
{
    reveal_strlit("backups");
    reveal_strlit("ccmv");
    reveal_strlit("backups/ccmv");
    reveal_strlit("-");
    reveal_strlit(".");
    assert(dot()[0] == '.' && slash()[0] == '/');
    let home = m.claude_home@.path;
    let dir = backup_dir(home);
    let backups_dir = join_text(home, "backups"@);
    assert(is_plain("backups"@)) by {
        assert("backups"@[0] != dot()[0]);
    }
    assert(is_plain("ccmv"@)) by {
        assert("ccmv"@[0] != dot()[0]);
    }
    lemma_components_join_name(home, "backups"@);
    lemma_components_join_name(backups_dir, "ccmv"@);
    assert("backups/ccmv"@ =~= "backups"@.push('/') + "ccmv"@);
    assert(dir =~= join_text(backups_dir, "ccmv"@)) by {
        assert(backups_dir.last() == "backups"@.last());
    }
    let s = artifact_stem(m, backups)->0;
    let name = s + "."@ + suffix;
    assert(name[0] != '/') by {
        if s.len() == 0 {
            assert(name[0] == "."@[0]);
        } else {
            assert(name[0] == s[0]);
            if backups.len() > 0 {
                let k = components(backups[0]);
                lemma_components_plain(backups[0], k.len() - 1);
                assert(k.last().contains(k.last()[0]));
            } else {
                let enc = encoded(active(m.units@)[0].source@);
                assert(s[0] == if enc.len() > 0 {
                    enc[0]
                } else {
                    "-"@[0]
                });
            }
        }
    }
    lemma_components_join(dir, name);
    let k = components(join_text(dir, name));
    assert(k.subrange(0, components(dir).len() as int) =~= components(dir));
    lemma_components_plain(join_text(dir, name), k.len() - 1);
    if k.last() == slash() {
        assert(k.last().contains(k.last()[0]));
    }
}

fn name_stem(name: &String) -> (r: Option<String>)
    ensures
        match r {
            Some(s) => stem(name@) == Some(s@),
            None => stem(name@) is None,
        },
{
    let chars = crate::text::chars_of(name.as_str());
    let end = crate::text::chars_of(".tar.gz");
    if chars.len() < end.len() {
        return None;
    }
    let n: usize = chars.len() - end.len();
    if crate::substitution::holds_at(&chars, n, &end) {
        assert(name@.skip(n as int) =~= name@.subrange(n as int, name@.len() as int));
        let s = crate::text::string_of(&chars, 0, n);
        assert(s@ =~= name@.take(n as int));
        Some(s)
    } else {
        assert(name@.skip(n as int) =~= name@.subrange(n as int, name@.len() as int));
        None
    }
}

impl Migration {
    /// The first unit that has work left.
    fn first_active(&self) -> (r: Option<&Unit>)
        ensures
            match r {
                Some(u) => active(self.units@).len() > 0 && *u == active(self.units@)[0],
                None => active(self.units@).len() == 0,
            },
    {
        let ghost units = self.units@;
        let ghost f = |u: Unit| !u.nothing_to_do;
        let mut i: usize = 0;
        proof {
            assert(units.take(0) =~= Seq::empty());
            reveal(Seq::filter);
            assert(units.take(0).filter(f) =~= Seq::empty());
        }
        while i < self.units.len()
            invariant
                units == self.units@,
                f == (|u: Unit| !u.nothing_to_do),
                i <= units.len(),
                units.take(i as int).filter(f).len() == 0,
            decreases units.len() - i,
        {
            proof {
                reveal(Seq::filter);
                assert(units.take(i + 1).drop_last() =~= units.take(i as int));
                assert(units.take(i + 1).last() == units[i as int]);
            }
            if !self.units[i].nothing_to_do {
                proof {
                    let now = units.take(i + 1).filter(f);
                    assert(now[0] == units[i as int]);
                    assert(units =~= units.take(i + 1) + units.skip(i + 1));
                    Seq::filter_distributes_over_add(units.take(i + 1), units.skip(i + 1), f);
                    assert(active(units)[0] == now[0]);
                }
                return Some(&self.units[i]);
            }
            i = i + 1;
        }
        assert(units.take(i as int) =~= units);
        None
    }

    /// Where a file that the run leaves is put.
    pub fn artifact_log_path(&self, backup_paths: &Vec<FilePath>, suffix: &str) -> (r: Result<
        FilePath,
        Error,
    >)
        ensures
            match r {
                Ok(path) => artifact_path(*self, texts(backup_paths@), suffix@) == Some(path@),
                Err(e) => artifact_path(*self, texts(backup_paths@), suffix@) is None
                    && artifact_error(e, *self, texts(backup_paths@)),
            },
    {
        let dir = self.claude_home.path.join("backups/ccmv");
        if backup_paths.len() > 0 {
            assert(texts(backup_paths@)[0] == backup_paths@[0]@);
            let name = match backup_paths[0].file_name() {
                Some(name) => name,
                None => {
                    return Err(Error::NamelessBackup(backup_paths[0].clone()));
                },
            };
            let mut file = match name_stem(&name) {
                Some(s) => s,
                None => {
                    return Err(Error::BackupSuffix(backup_paths[0].clone()));
                },
            };
            file.append(".");
            file.append(suffix);
            return Ok(dir.join(file.as_str()));
        }
        let unit = match self.first_active() {
            Some(unit) => unit,
            None => {
                return Err(Error::NothingToMigrate);
            },
        };
        let mut file = match encode(&unit.source) {
            Ok(name) => name,
            Err(e) => {
                return Err(Error::Encoder(e));
            },
        };
        file.append("-");
        file.append(self.timestamp.as_str());
        file.append(".");
        file.append(suffix);
        Ok(dir.join(file.as_str()))
    }
}

/// Rows are sorted by the path in their first column.
pub open spec fn by_first() -> spec_fn(LogRow, LogRow) -> bool {
    |a: LogRow, b: LogRow| key_lt(components(a.0), components(b.0))
}

/// The rows, each on a line of its own, the columns separated by tabs.
pub open spec fn row_lines(rows: Seq<LogRow>) -> Seq<char>
    decreases rows.len(),
{
    if rows.len() == 0 {
        Seq::empty()
    } else {
        let row = rows.last();
        row_lines(rows.drop_last()) + (row.0 + "\t"@ + row.1 + "\t"@ + row.2 + "\n"@)
    }
}

/// The text of the relink log.
pub open spec fn relink_log(rows: Seq<LogRow>) -> Seq<char> {
    row_lines(sorted(rows, by_first()))
}

/// The text of the relink log: one row for each repointed link, in the order of
/// their paths.
fn relink_log_text(entries: Vec<RelinkLogEntry>) -> (r: String)
    ensures
        r@ == relink_log(rows_of(entries@)),
{
    let ghost given = entries@;
    let ghost lt = |a: RelinkLogEntry, b: RelinkLogEntry| key_lt(a.path.key(), b.path.key());
    let before = |a: &RelinkLogEntry, b: &RelinkLogEntry| -> (r: bool)
        ensures
            r == lt(*a, *b),
        { path_before(&a.path, &b.path) };
    let list = stable_sort(entries, before, Ghost(lt));
    let ghost rows = rows_of(list@);
    proof {
        lemma_sorted_map(given, |e: RelinkLogEntry| (e.path@, e.old@, e.new@), lt, by_first());
        assert(rows == sorted(rows_of(given), by_first()));
    }
    let mut r = String::new();
    let mut i: usize = 0;
    assert(rows.take(0) =~= Seq::empty());
    assert(r@ =~= row_lines(rows.take(0)));
    while i < list.len()
        invariant
            rows == rows_of(list@),
            rows.len() == list@.len(),
            i <= list@.len(),
            r@ == row_lines(rows.take(i as int)),
        decreases list@.len() - i,
    {
        let entry = &list[i];
        r.append(entry.path.as_str());
        r.append("\t");
        r.append(entry.old.as_str());
        r.append("\t");
        r.append(entry.new.as_str());
        r.append("\n");
        i = i + 1;
        proof {
            assert(rows.take(i as int).drop_last() =~= rows.take(i - 1));
            assert(rows.take(i as int).last() == rows[i - 1]);
            assert(r@ =~= row_lines(rows.take(i as int)));
        }
    }
    assert(rows.take(i as int) =~= rows);
    r
}

/// A reference with its file.
pub type RefRow = (Seq<char>, Finding);

/// References are sorted by their file, then by their line.
pub open spec fn by_place() -> spec_fn(RefRow, RefRow) -> bool {
    |a: RefRow, b: RefRow|
        key_lt(components(a.0), components(b.0)) || (components(a.0) == components(b.0) && a.1.0
            < b.1.0)
}

pub open spec fn ref_lines(rows: Seq<RefRow>) -> Seq<char>
    decreases rows.len(),
{
    if rows.len() == 0 {
        Seq::empty()
    } else {
        let row = rows.last();
        ref_lines(rows.drop_last()) + (row.0 + "\t"@ + decimal(row.1.0) + "\t"@ + row.1.1 + "\t"@
            + row.1.2 + "\n"@)
    }
}

/// The text of the report on references.
pub open spec fn refs_report(rows: Seq<RefRow>) -> Seq<char> {
    ref_lines(sorted(rows, by_place()))
}

fn copy_references(list: &Vec<TextReference>) -> (r: Vec<TextReference>)
    ensures
        reference_views(r@) == reference_views(list@),
{
    let mut r: Vec<TextReference> = Vec::new();
    let mut i: usize = 0;
    while i < list.len()
        invariant
            i <= list@.len(),
            r@.len() == i,
            forall|x: int|
                0 <= x < i ==> (#[trigger] r@[x]).file@ == list@[x].file@ && finding(r@[x])
                    == finding(list@[x]),
        decreases list@.len() - i,
    {
        let t = &list[i];
        r.push(
            TextReference {
                file: t.file.clone(),
                line: t.line,
                old: t.old.clone(),
                new: t.new.clone(),
            },
        );
        i = i + 1;
    }
    assert(reference_views(r@) =~= reference_views(list@));
    r
}

/// The text of the report on references: one row for each, in the order of the
/// files and of the lines in them.
pub fn text_refs_report(findings: &Vec<TextReference>) -> (r: String)
    ensures
        r@ == refs_report(reference_views(findings@)),
{
    let copy = copy_references(findings);
    let ghost given = copy@;
    let ghost lt = |a: TextReference, b: TextReference|
        key_lt(a.file.key(), b.file.key()) || (a.file.key() == b.file.key() && a.line < b.line);
    let before = |a: &TextReference, b: &TextReference| -> (r: bool)
        ensures
            r == lt(*a, *b),
        { path_before(&a.file, &b.file) || (a.file.same(&b.file) && a.line < b.line) };
    let list = stable_sort(copy, before, Ghost(lt));
    let ghost rows = reference_views(list@);
    proof {
        lemma_sorted_map(given, |t: TextReference| (t.file@, finding(t)), lt, by_place());
        assert(rows == sorted(reference_views(given), by_place()));
    }
    let mut r = String::new();
    let mut i: usize = 0;
    assert(rows.take(0) =~= Seq::empty());
    assert(r@ =~= ref_lines(rows.take(0)));
    while i < list.len()
        invariant
            rows == reference_views(list@),
            rows.len() == list@.len(),
            i <= list@.len(),
            r@ == ref_lines(rows.take(i as int)),
        decreases list@.len() - i,
    {
        let t = &list[i];
        r.append(t.file.as_str());
        r.append("\t");
        push_decimal(&mut r, t.line);
        r.append("\t");
        r.append(t.old.as_str());
        r.append("\t");
        r.append(t.new.as_str());
        r.append("\n");
        i = i + 1;
        proof {
            assert(rows.take(i as int).drop_last() =~= rows.take(i - 1));
            assert(rows.take(i as int).last() == rows[i - 1]);
            assert(r@ =~= ref_lines(rows.take(i as int)));
        }
    }
    assert(rows.take(i as int) =~= rows);
    r
}

/// What writing a log does to the file system, and what comes of it. It is
/// written where its place can be told, unless the file system refuses.
pub open spec fn log_step(
    a: FsView,
    b: FsView,
    m: Migration,
    backups: Seq<Seq<char>>,
    suffix: Seq<char>,
    text: Seq<char>,
    r: Result<Option<FilePath>, Error>,
) -> bool {
    match artifact_path(m, backups, suffix) {
        Some(place) => match r {
            Ok(path) => opt_text(path) == Some(place) && log_written(a, b, components(place), text),
            Err(e) => {
                &&& e is Fs
                &&& made_room(a, b, components(place))
                &&& !(a.accepts.contains(components(place).drop_last()) && a.accepts.contains(
                    components(place),
                ))
            },
        },
        None => b == a && (r matches Err(e) && artifact_error(e, m, backups)),
    }
}

/// The log is written, in a directory that is made for it.
pub open spec fn log_written(a: FsView, b: FsView, path: Key, text: Seq<char>) -> bool {
    exists|mid: FsView| #[trigger]
        made_room(a, mid, path) && replaced_file(mid, b, path, encode_utf8(text))
}

impl Migration {
    fn write_log<F: Fs>(
        &self,
        fs: &mut F,
        backup_paths: &Vec<FilePath>,
        suffix: &str,
        text: &String,
    ) -> (r: Result<Option<FilePath>, Error>)
        ensures
            log_step(
                old(fs).view(),
                final(fs).view(),
                *self,
                texts(backup_paths@),
                suffix@,
                text@,
                r,
            ),
    {
        let ghost a = fs.view();
        let log_path = match self.artifact_log_path(backup_paths, suffix) {
            Ok(path) => path,
            Err(e) => {
                return Err(e);
            },
        };
        proof {
            lemma_artifact_place(*self, texts(backup_paths@), suffix@);
        }
        let dir = match log_path.parent() {
            Some(dir) => dir,
            None => {
                return Err(Error::NoParent(log_path));
            },
        };
        if let Err(e) = fs.create_dir_all(&dir) {
            return Err(Error::Fs(e));
        }
        let ghost mid = fs.view();
        assert(made_room(a, mid, log_path.key()));
        match fs.write_atomically(&log_path, text.as_str()) {
            Ok(_) => {
                assert(log_written(a, fs.view(), log_path.key(), text@));
                Ok(Some(log_path))
            },
            Err(e) => Err(Error::Fs(e)),
        }
    }

    /// Writes the relink log. Without a repointed link there is none: an empty
    /// log would read like a failed run.
    pub fn write_relink_log<F: Fs>(
        &self,
        fs: &mut F,
        entries: Vec<RelinkLogEntry>,
        backup_paths: &Vec<FilePath>,
    ) -> (r: Result<Option<FilePath>, Error>)
        ensures
            if entries@.len() == 0 {
                final(fs).view() == old(fs).view() && (r matches Ok(path) && path is None)
            } else {
                log_step(
                    old(fs).view(),
                    final(fs).view(),
                    *self,
                    texts(backup_paths@),
                    "relink.tsv"@,
                    relink_log(rows_of(entries@)),
                    r,
                )
            },
    {
        if entries.len() == 0 {
            return Ok(None);
        }
        let text = relink_log_text(entries);
        self.write_log(fs, backup_paths, "relink.tsv", &text)
    }

    /// Writes the report on references. Without one there is none, and in a dry
    /// run nothing is written.
    pub fn write_text_refs_log<F: Fs>(
        &self,
        fs: &mut F,
        findings: &Vec<TextReference>,
        backup_paths: &Vec<FilePath>,
    ) -> (r: Result<Option<FilePath>, Error>)
        ensures
            if self.dry_run || findings@.len() == 0 {
                final(fs).view() == old(fs).view() && (r matches Ok(path) && path is None)
            } else {
                log_step(
                    old(fs).view(),
                    final(fs).view(),
                    *self,
                    texts(backup_paths@),
                    "textrefs.tsv"@,
                    refs_report(reference_views(findings@)),
                    r,
                )
            },
    {
        if self.dry_run || findings.len() == 0 {
            return Ok(None);
        }
        let text = text_refs_report(findings);
        self.write_log(fs, backup_paths, "textrefs.tsv", &text)
    }
}

/// A log is written where it can be named and nothing is refused there.
pub proof fn law_log_is_written(
    a: FsView,
    b: FsView,
    m: Migration,
    backups: Seq<Seq<char>>,
    suffix: Seq<char>,
    text: Seq<char>,
    r: Result<Option<FilePath>, Error>,
)
    requires
        log_step(a, b, m, backups, suffix, text, r),
        artifact_path(m, backups, suffix) is Some,
        a.accepts.contains(components(artifact_path(m, backups, suffix)->0)),
        a.accepts.contains(components(artifact_path(m, backups, suffix)->0).drop_last()),
    ensures
        r matches Ok(path) && opt_text(path) == artifact_path(m, backups, suffix),
        b.text(components(artifact_path(m, backups, suffix)->0)) == Some(text),
{
    let path = components(artifact_path(m, backups, suffix)->0);
    assert(log_written(a, b, path, text));
    let mid = choose|mid: FsView| #[trigger]
        made_room(a, mid, path) && replaced_file(mid, b, path, encode_utf8(text));
    law_write_reads_back(mid, b, path, text);
}

} // verus!
