//! What a run does to the files that all projects share.

use vstd::prelude::*;
use vstd::utf8::encode_utf8;

use crate::error::Error;
use crate::frame::lemma_prepared_away;
use crate::frame::lemma_units_done_quiet;
use crate::frame::lies_apart;
use crate::frame::units_found;
use crate::fs::counted;
use crate::fs::law_write_reads_back;
use crate::fs::same_record;
use crate::fs::FsView;
use crate::json::parsed;
use crate::json::pretty;
use crate::migration::all_fresh;
use crate::migration::all_settled;
use crate::migration::goes_through;
use crate::migration::is_prepared;
use crate::migration::ran;
use crate::migration::run_trace;
use crate::migration::MigrationReport;
use crate::migration::RunTrace;
use crate::path::is_plain;
use crate::path::FilePath;
use crate::path::Key;
use crate::plan::all_absolute;
use crate::plan::Migration;
use crate::substitution::replaced;
use crate::unit::Unit;
use crate::updater::file_step;
use crate::updater::is_renamed_document;
use crate::updater::key_replacements;
use crate::updater::keys_step;
use crate::updater::replacements;
use crate::updater::UpdateReport;

verus! {

/// The file at `k` is in `b` what it is in `a`, and it was not replaced between.
pub open spec fn is_unwritten(a: FsView, b: FsView, k: Key) -> bool {
    b.file(k) == a.file(k) && same_record(a, b, k)
}

/// The file at `k` was replaced as a whole between `a` and `b`, exactly once.
pub open spec fn is_written_once(a: FsView, b: FsView, k: Key) -> bool {
    b.writes.contains_key(k) && b.writes[k] == counted(a.writes, k)
}

/// What a run goes by when it comes to a shared file: a real run that goes
/// through, with a file in none of the places that it works on.
pub open spec fn comes_to(
    m: Migration,
    a: FsView,
    b: FsView,
    r: Result<MigrationReport, Error>,
    k: Key,
) -> bool {
    &&& ran(m, a, b, r) && r is Ok
    &&& !m.dry_run && !all_settled(m)
    &&& m.claude_home@.path.len() > 0 && is_plain(m.claude_home@.local_dir)
    &&& all_absolute(m.units@) && all_fresh(m.units@) && units_found(m, a)
    &&& lies_apart(k, m, a)
    &&& a.present.contains(k) && !a.links.contains_key(k)
}

/// The history is written exactly once in a run, however many projects move, and
/// then with every reference replaced. It is not written at all where nothing in
/// it matches.
pub proof fn law_history_is_written_once(
    m: Migration,
    a: FsView,
    b: FsView,
    r: Result<MigrationReport, Error>,
    p: FilePath,
)
    requires
        comes_to(m, a, b, r, p.key()),
        m.history_jsonl == Some(p),
        m.claude_json matches Some(other) ==> other.key() != p.key(),
    ensures
        replacements(a, p, m.subs@) == 0 ==> is_unwritten(a, b, p.key()),
        replacements(a, p, m.subs@) > 0 && a.accepts.contains(p.key()) ==> {
            &&& is_written_once(a, b, p.key())
            &&& b.text(p.key()) == Some(replaced(m.subs@, a.text(p.key())->0))
        },
{
    let k = p.key();
    let report = r->Ok_0;
    let (n, marked) = choose|n: Migration, marked: Seq<Unit>| #[trigger]
        is_prepared(m, n, marked, a) && goes_through(n, a, b, report);
    lemma_prepared_away(m, n, marked, a, k);
    let t = choose|t: RunTrace| #[trigger] run_trace(t, n, a, b, report);
    lemma_units_done_quiet(t, n, a, b, k);
    assert(t.reported.text(k) == a.text(k));
    let done = choose|done: Result<UpdateReport, Error>| #[trigger]
        file_step(t.reported, t.history, p, m.subs@, false, done) && t.history_reports
            == crate::apply::ok_reports(done);
    assert(replacements(t.reported, p, m.subs@) == replacements(a, p, m.subs@));
    assert(is_unwritten(t.history, b, k));
    if replacements(a, p, m.subs@) > 0 && a.accepts.contains(k) {
        assert(done is Ok);
        law_write_reads_back(t.reported, t.history, k, replaced(m.subs@, a.text(k)->0));
    }
}

/// The registry is written exactly once in a run, however many projects move, and
/// then with every key renamed. It is not written at all where no key is due.
pub proof fn law_registry_is_written_once(
    m: Migration,
    a: FsView,
    b: FsView,
    r: Result<MigrationReport, Error>,
    p: FilePath,
)
    requires
        comes_to(m, a, b, r, p.key()),
        m.claude_json == Some(p),
        m.history_jsonl matches Some(other) ==> other.key() != p.key(),
    ensures
        key_replacements(a, p, m.subs@) == 0 ==> is_unwritten(a, b, p.key()),
        key_replacements(a, p, m.subs@) > 0 && a.accepts.contains(p.key())
            ==> exists|w: serde_json::Value| #[trigger]
            is_renamed_document(parsed(a.text(p.key())->0)->0, w, m.subs@) && is_written_once(
                a,
                b,
                p.key(),
            ) && b.file(p.key()) == Some(encode_utf8(pretty(w))),
{
    let k = p.key();
    let report = r->Ok_0;
    let (n, marked) = choose|n: Migration, marked: Seq<Unit>| #[trigger]
        is_prepared(m, n, marked, a) && goes_through(n, a, b, report);
    lemma_prepared_away(m, n, marked, a, k);
    let t = choose|t: RunTrace| #[trigger] run_trace(t, n, a, b, report);
    lemma_units_done_quiet(t, n, a, b, k);
    crate::frame::lemma_optional_quiet(
        t.reported,
        t.history,
        n.history_jsonl,
        n,
        t.history_reports,
        k,
    );
    let x = t.history;
    assert(is_unwritten(a, x, k));
    assert(x.text(k) == a.text(k));
    let done = choose|done: Result<UpdateReport, Error>| #[trigger]
        keys_step(x, b, p, m.subs@, false, done) && t.json_reports == crate::apply::ok_reports(
            done,
        );
    assert(key_replacements(x, p, m.subs@) == key_replacements(a, p, m.subs@));
}

} // verus!
