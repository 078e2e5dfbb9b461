//! Rewrites the path references in a project's files.

use vstd::prelude::*;
use vstd::string::*;
use vstd::utf8::encode_utf8;

use crate::error::Error;
use crate::fs::counted;
use crate::fs::replaced_file;
use crate::fs::Fs;
use crate::fs::FsView;
use crate::json::ascending;
use crate::json::has_projects;
use crate::json::insert_member;
use crate::json::lists_keys;
use crate::json::member;
use crate::json::members;
use crate::json::object_keys;
use crate::json::parse_json;
use crate::json::parsed;
use crate::json::pretty;
use crate::json::print_pretty;
use crate::json::projects;
use crate::json::reads_alike;
use crate::json::remove_member;
use crate::order::lemma_text_lt_total;
use crate::order::text_lt;
use crate::path::FilePath;
use crate::substitution::matches_in;
use crate::substitution::rebased;
use crate::substitution::replace_paths;
use crate::substitution::replaced;
use crate::substitution::Pairs;
use crate::substitution::Substitutions;

verus! {

/// What became of one file.
#[derive(Debug)]
pub struct UpdateReport {
    pub file: FilePath,
    pub replacements: usize,
    /// The file was not there, or nothing in it matched.
    pub skipped: bool,
}

/// The report on a file in which `n` references were replaced.
pub open spec fn is_report(r: UpdateReport, file: Seq<char>, n: nat) -> bool {
    r.file@ == file && r.replacements == n && r.skipped == (n == 0)
}

/// How many references in the file at `path` are replaced.
pub open spec fn replacements(v: FsView, path: FilePath, subs: Pairs) -> nat {
    if subs.len() == 0 || !v.present.contains(path.key()) || v.text(path.key()) is None {
        0
    } else {
        matches_in(subs, v.text(path.key())->0).len()
    }
}

/// What updating the file at `path` does to the file system, and what comes
/// of it.
pub open spec fn file_step(
    a: FsView,
    b: FsView,
    path: FilePath,
    subs: Pairs,
    dry_run: bool,
    r: Result<UpdateReport, Error>,
) -> bool {
    let n = replacements(a, path, subs);
    let text = a.text(path.key());
    match r {
        Ok(report) => {
            &&& subs.len() == 0 || !a.present.contains(path.key()) || text is Some
            &&& is_report(report, path@, n)
            &&& if dry_run || n == 0 {
                b == a
            } else {
                replaced_file(a, b, path.key(), encode_utf8(replaced(subs, text->0)))
            }
        },
        Err(e) => {
            &&& b == a
            &&& e is Fs
            &&& subs.len() > 0 && a.present.contains(path.key())
            &&& text is None || (!dry_run && n > 0 && !a.accepts.contains(path.key()))
        },
    }
}

fn report_on(file: &FilePath, replacements: usize) -> (r: UpdateReport)
    ensures
        is_report(r, file@, replacements as nat),
{
    UpdateReport { file: file.clone(), replacements, skipped: replacements == 0 }
}

/// Updates the path references in one file: reads it, replaces every match in
/// one pass, and writes it back only when something changed. A dry run counts
/// and writes nothing.
pub fn update_file<F: Fs>(
    fs: &mut F,
    file: &FilePath,
    subs: &Substitutions,
    dry_run: bool,
) -> (r: Result<UpdateReport, Error>)
    ensures
        file_step(old(fs).view(), final(fs).view(), *file, subs@, dry_run, r),
{
    if subs.is_empty() || !fs.path_exists(file) {
        return Ok(report_on(file, 0));
    }
    let content = match fs.read_to_string(file) {
        Ok(content) => content,
        Err(e) => {
            return Err(Error::Fs(e));
        },
    };
    let (count, new_content) = replace_paths(content.as_str(), subs);
    if count == 0 || dry_run {
        return Ok(report_on(file, count));
    }
    match fs.write_atomically(file, new_content.as_str()) {
        Ok(_) => Ok(report_on(file, count)),
        Err(e) => Err(Error::Fs(e)),
    }
}

/// `vs` are the states that updating the files one after the other goes
/// through, with the given reports.
pub open spec fn file_steps(
    vs: Seq<FsView>,
    files: Seq<FilePath>,
    subs: Pairs,
    dry_run: bool,
    reports: Seq<UpdateReport>,
) -> bool {
    &&& vs.len() == reports.len() + 1
    &&& reports.len() <= files.len()
    &&& forall|i: int|
        #![trigger reports[i]]
        0 <= i < reports.len() ==> file_step(
            vs[i],
            vs[i + 1],
            files[i],
            subs,
            dry_run,
            Ok(reports[i]),
        )
}

/// What updating several files does, and what comes of it: a report for each,
/// or the error of the first that could not be updated.
pub open spec fn files_step(
    a: FsView,
    b: FsView,
    files: Seq<FilePath>,
    subs: Pairs,
    dry_run: bool,
    r: Result<Vec<UpdateReport>, Error>,
) -> bool {
    match r {
        Ok(reports) => reports@.len() == files.len() && exists|vs: Seq<FsView>| #[trigger]
            file_steps(vs, files, subs, dry_run, reports@) && vs[0] == a && vs.last() == b,
        Err(e) => exists|vs: Seq<FsView>, reports: Seq<UpdateReport>| #[trigger]
            file_steps(vs, files, subs, dry_run, reports) && vs[0] == a && vs.last() == b
                && reports.len() < files.len() && file_step(
                b,
                b,
                files[reports.len() as int],
                subs,
                dry_run,
                Err(e),
            ),
    }
}

/// Updates the path references in several files. They are independent of one
/// another; the first that fails ends the work.
pub fn update_files_parallel<F: Fs>(
    fs: &mut F,
    files: &Vec<FilePath>,
    subs: &Substitutions,
    dry_run: bool,
) -> (r: Result<Vec<UpdateReport>, Error>)
    ensures
        files_step(old(fs).view(), final(fs).view(), files@, subs@, dry_run, r),
{
    let mut reports: Vec<UpdateReport> = Vec::new();
    let ghost mut vs: Seq<FsView> = seq![fs.view()];
    let ghost start = fs.view();
    let mut i: usize = 0;
    while i < files.len()
        invariant
            i <= files@.len(),
            reports@.len() == i,
            start == old(fs).view(),
            vs[0] == start,
            vs.last() == fs.view(),
            file_steps(vs, files@, subs@, dry_run, reports@),
        decreases files@.len() - i,
    {
        let ghost before = vs;
        let ghost had = reports@;
        match update_file(fs, &files[i], subs, dry_run) {
            Ok(report) => {
                reports.push(report);
                proof {
                    vs = vs.push(fs.view());
                    assert forall|j: int| 0 <= j < reports@.len() implies file_step(
                        vs[j],
                        vs[j + 1],
                        files@[j],
                        subs@,
                        dry_run,
                        Ok(#[trigger] reports@[j]),
                    ) by {
                        if j < i {
                            assert(had[j] == reports@[j]);
                            assert(before[j] == vs[j] && before[j + 1] == vs[j + 1]);
                        }
                    }
                }
            },
            Err(e) => {
                assert(file_steps(vs, files@, subs@, dry_run, reports@));
                return Err(e);
            },
        }
        i = i + 1;
    }
    assert(file_steps(vs, files@, subs@, dry_run, reports@));
    Ok(reports)
}

/// A dry run counts what a real run replaces, in every file, and changes
/// nothing.
pub proof fn law_dry_run_counts_alike(
    a: FsView,
    b: FsView,
    c: FsView,
    path: FilePath,
    subs: Pairs,
    dry: UpdateReport,
    wet: UpdateReport,
)
    requires
        file_step(a, b, path, subs, true, Ok(dry)),
        file_step(a, c, path, subs, false, Ok(wet)),
    ensures
        b == a,
        dry.file@ == wet.file@,
        dry.replacements == wet.replacements,
        dry.skipped == wet.skipped,
{
}

/// A file in which nothing matches is not written.
pub proof fn law_unmatched_file_is_not_written(
    a: FsView,
    b: FsView,
    path: FilePath,
    subs: Pairs,
    dry_run: bool,
    r: Result<UpdateReport, Error>,
)
    requires
        file_step(a, b, path, subs, dry_run, r),
        replacements(a, path, subs) == 0,
    ensures
        b == a,
{
}

/// An update goes through where the file can be read as text and nothing is refused
/// there. The file is then written once, with every reference replaced, or not at
/// all where nothing matches.
pub proof fn law_update_goes_through(
    a: FsView,
    b: FsView,
    path: FilePath,
    subs: Pairs,
    r: Result<UpdateReport, Error>,
)
    requires
        file_step(a, b, path, subs, false, r),
        a.text(path.key()) is Some,
        a.accepts.contains(path.key()),
    ensures
        r is Ok,
        if replacements(a, path, subs) == 0 {
            b == a
        } else {
            replaced_file(a, b, path.key(), encode_utf8(replaced(subs, a.text(path.key())->0)))
        },
{
}

/// The object `m` with its keys renamed gives `r`: each key that is or lies
/// below an old path is moved to the new one, with its value; the others stay.
/// Where two keys end up the same, a moved one wins over one that stayed, and
/// of two moved ones the later in ascending order.
pub open spec fn is_renamed(
    m: Map<Seq<char>, serde_json::Value>,
    r: Map<Seq<char>, serde_json::Value>,
    subs: Pairs,
) -> bool {
    &&& forall|q: Seq<char>| #[trigger]
        r.contains_key(q) <==> (m.contains_key(q) && rebased(subs, q) is None) || moves_to(
            m,
            subs,
            q,
        )
    &&& forall|q: Seq<char>|
        m.contains_key(q) && rebased(subs, q) is None && !moves_to(m, subs, q)
            ==> #[trigger] r[q] == m[q]
    &&& forall|k: Seq<char>| #[trigger] moves_last(m, subs, k) ==> r[rebased(subs, k)->0] == m[k]
}

/// Some key is moved to `q`.
pub open spec fn moves_to(
    m: Map<Seq<char>, serde_json::Value>,
    subs: Pairs,
    q: Seq<char>,
) -> bool {
    exists|k: Seq<char>| m.contains_key(k) && #[trigger] rebased(subs, k) == Some(q)
}

/// The key `k` is moved, and no later key to the same place.
pub open spec fn moves_last(
    m: Map<Seq<char>, serde_json::Value>,
    subs: Pairs,
    k: Seq<char>,
) -> bool {
    &&& m.contains_key(k)
    &&& rebased(subs, k) is Some
    &&& forall|j: Seq<char>|
        m.contains_key(j) && #[trigger] rebased(subs, j) == rebased(subs, k) ==> !text_lt(k, j)
}

/// The keys that are moved.
pub open spec fn moved_keys(m: Map<Seq<char>, serde_json::Value>, subs: Pairs) -> Set<Seq<char>> {
    m.dom().filter(|k: Seq<char>| rebased(subs, k) is Some)
}

/// The document `w` is `root` with the project paths renamed.
pub open spec fn is_renamed_document(
    root: serde_json::Value,
    w: serde_json::Value,
    subs: Pairs,
) -> bool {
    if has_projects(root) {
        &&& members(w) is Some
        &&& members(w)->0.dom() == members(root)->0.dom()
        &&& forall|k: Seq<char>|
            members(root)->0.contains_key(k) && k != "projects"@ ==> #[trigger] members(w)->0[k]
                == members(root)->0[k]
        &&& members(members(w)->0["projects"@]) is Some
        &&& is_renamed(
            members(members(root)->0["projects"@])->0,
            members(members(w)->0["projects"@])->0,
            subs,
        )
    } else {
        &&& members(root) is Some
        &&& members(w) is Some
        &&& is_renamed(members(root)->0, members(w)->0, subs)
    }
}

/// The keys that are moved, found in order: their new names and values, and
/// where they stand among all keys.
spec fn taken(
    m: Map<Seq<char>, serde_json::Value>,
    subs: Pairs,
    keys: Seq<String>,
    n: int,
    out: Seq<(String, serde_json::Value)>,
    at: Seq<int>,
) -> bool {
    &&& out.len() == at.len()
    &&& forall|x: int|
        0 <= x < out.len() ==> 0 <= #[trigger] at[x] < n && rebased(subs, keys[at[x]]@) == Some(
            out[x].0@,
        ) && out[x].1 == m[keys[at[x]]@]
    &&& forall|x: int, y: int| 0 <= x < y < at.len() ==> at[x] < at[y]
    &&& forall|j: int|
        0 <= j < n && rebased(subs, (#[trigger] keys[j])@) is Some ==> at.contains(j)
}

/// Renames the keys of an object.
fn rename_keys(obj: &mut serde_json::Value, keys: &Vec<String>, subs: &Substitutions)
    requires
        members(*old(obj)) is Some,
        lists_keys(keys@, members(*old(obj))->0),
    ensures
        members(*final(obj)) is Some,
        is_renamed(members(*old(obj))->0, members(*final(obj))->0, subs@),
{
    let ghost m = members(*obj)->0;
    let ghost s = subs@;
    // All moved values are taken out before the first is put in, so that no
    // value is moved twice.
    let mut out: Vec<(String, serde_json::Value)> = Vec::new();
    let ghost mut at: Seq<int> = Seq::empty();
    let mut i: usize = 0;
    while i < keys.len()
        invariant
            i <= keys@.len(),
            s == subs@,
            lists_keys(keys@, m),
            taken(m, s, keys@, i as int, out@, at),
            members(*obj) is Some,
            forall|q: Seq<char>| #[trigger]
                members(*obj)->0.contains_key(q) == (m.contains_key(q) && !gone(
                    s,
                    keys@,
                    i as int,
                    q,
                )),
            forall|q: Seq<char>|
                members(*obj)->0.contains_key(q) ==> #[trigger] members(*obj)->0[q] == m[q],
        decreases keys@.len() - i,
    {
        let key = &keys[i];
        let path = FilePath::new(key.as_str());
        let ghost before = members(*obj)->0;
        let ghost at_before = at;
        let ghost out_before = out@;
        assert(m.contains_key(keys@[i as int]@));
        match subs.rebase(&path) {
            Some(new_key) => {
                proof {
                    assert(!gone(s, keys@, i as int, key@)) by {
                        if gone(s, keys@, i as int, key@) {
                            let j = choose|j: int|
                                0 <= j < i && (#[trigger] keys@[j])@ == key@ && rebased(
                                    s,
                                    key@,
                                ) is Some;
                            assert(text_lt(keys@[j]@, keys@[i as int]@));
                            lemma_text_lt_total(key@, key@);
                        }
                    }
                }
                if let Some(value) = remove_member(obj, key.as_str()) {
                    out.push((new_key.as_str().to_owned(), value));
                    proof {
                        at = at.push(i as int);
                        assert(at[at.len() - 1] == i);
                    }
                }
            },
            None => {},
        }
        proof {
            assert forall|q: Seq<char>| gone(s, keys@, i + 1, q) == (gone(s, keys@, i as int, q)
                || (q == key@ && rebased(s, q) is Some)) by {
                lemma_gone_step(s, keys@, i as int, q);
            }
            assert forall|j: int| 0 <= j < i + 1 && rebased(
                s,
                (#[trigger] keys@[j])@,
            ) is Some implies at.contains(j) by {
                if j < i {
                    assert(at_before.contains(j));
                    let x = choose|x: int| 0 <= x < at_before.len() && at_before[x] == j;
                    assert(at[x] == j);
                } else {
                    assert(at[at.len() - 1] == i);
                }
            }
            assert forall|x: int| 0 <= x < out@.len() implies 0 <= #[trigger] at[x] < i + 1
                && rebased(s, keys@[at[x]]@) == Some(out@[x].0@) && out@[x].1 == m[keys@[at[x]]@] by {
                if x < at_before.len() {
                    assert(at[x] == at_before[x]);
                    assert(out@[x] == out_before[x]);
                }
            }
            assert forall|x: int, y: int| 0 <= x < y < at.len() implies at[x] < at[y] by {
                if y < at_before.len() {
                    assert(at_before[x] < at_before[y]);
                } else {
                    assert(at[x] == at_before[x]);
                }
            }
        }
        i = i + 1;
    }
    let ghost base = members(*obj)->0;
    let ghost all = out@;
    let ghost mut n: int = 0;
    assert(all.skip(0) =~= all);
    while out.len() > 0
        invariant
            0 <= n <= all.len(),
            out@ == all.skip(n),
            members(*obj) is Some,
            forall|q: Seq<char>| #[trigger]
                members(*obj)->0.contains_key(q) == (base.contains_key(q) || put(all, n, q)),
            forall|q: Seq<char>|
                base.contains_key(q) && !put(all, n, q) ==> #[trigger] members(*obj)->0[q]
                    == base[q],
            forall|x: int|
                0 <= x < n && put_last(all, n, x) ==> members(*obj)->0[(#[trigger] all[x]).0@]
                    == all[x].1,
        decreases out@.len(),
    {
        let (key, value) = out.remove(0);
        let ghost before = members(*obj)->0;
        proof {
            assert((key, value) == all[n]);
            assert(all.skip(n).remove(0) =~= all.skip(n + 1));
        }
        insert_member(obj, key, value);
        proof {
            let now = members(*obj)->0;
            assert forall|q: Seq<char>| put(all, n + 1, q) == (put(all, n, q) || q == key@) by {
                lemma_put_step(all, n, q);
            }
            assert forall|x: int| 0 <= x < n + 1 && put_last(all, n + 1, x) implies now[(
            #[trigger] all[x]).0@] == all[x].1 by {
                if x < n {
                    assert(all[n].0@ != all[x].0@);
                    assert(put_last(all, n, x));
                }
            }
            n = n + 1;
        }
    }
    proof {
        lemma_renamed(m, s, keys@, base, all, at, members(*obj)->0);
    }
}

/// One of the first `n` keys is `q`, and it is moved.
spec fn gone(subs: Pairs, keys: Seq<String>, n: int, q: Seq<char>) -> bool {
    exists|j: int| 0 <= j < n && (#[trigger] keys[j])@ == q && rebased(subs, q) is Some
}

proof fn lemma_gone_step(subs: Pairs, keys: Seq<String>, n: int, q: Seq<char>)
    requires
        0 <= n < keys.len(),
    ensures
        gone(subs, keys, n + 1, q) == (gone(subs, keys, n, q) || (q == keys[n]@ && rebased(
            subs,
            q,
        ) is Some)),
{
    if gone(subs, keys, n, q) {
        let j = choose|j: int|
            0 <= j < n && (#[trigger] keys[j])@ == q && rebased(subs, q) is Some;
        assert(0 <= j < n + 1 && keys[j]@ == q);
    }
    if q == keys[n]@ && rebased(subs, q) is Some {
        assert(keys[n]@ == q);
    }
}

/// One of the first `n` values goes to `q`.
spec fn put(all: Seq<(String, serde_json::Value)>, n: int, q: Seq<char>) -> bool {
    exists|x: int| 0 <= x < n && (#[trigger] all[x]).0@ == q
}

/// None of the first `n` values after `x` goes where that one does.
spec fn put_last(all: Seq<(String, serde_json::Value)>, n: int, x: int) -> bool {
    forall|y: int| x < y < n ==> (#[trigger] all[y]).0@ != all[x].0@
}

proof fn lemma_put_step(all: Seq<(String, serde_json::Value)>, n: int, q: Seq<char>)
    requires
        0 <= n < all.len(),
    ensures
        put(all, n + 1, q) == (put(all, n, q) || q == all[n].0@),
{
    if put(all, n, q) {
        let x = choose|x: int| 0 <= x < n && (#[trigger] all[x]).0@ == q;
        assert(0 <= x < n + 1 && all[x].0@ == q);
    }
    if q == all[n].0@ {
        assert(all[n].0@ == q);
    }
}

proof fn lemma_renamed(
    m: Map<Seq<char>, serde_json::Value>,
    s: Pairs,
    keys: Seq<String>,
    base: Map<Seq<char>, serde_json::Value>,
    all: Seq<(String, serde_json::Value)>,
    at: Seq<int>,
    r: Map<Seq<char>, serde_json::Value>,
)
    requires
        lists_keys(keys, m),
        taken(m, s, keys, keys.len() as int, all, at),
        forall|q: Seq<char>| #[trigger]
            base.contains_key(q) == (m.contains_key(q) && !gone(s, keys, keys.len() as int, q)),
        forall|q: Seq<char>| base.contains_key(q) ==> #[trigger] base[q] == m[q],
        forall|q: Seq<char>| #[trigger]
            r.contains_key(q) == (base.contains_key(q) || put(all, all.len() as int, q)),
        forall|q: Seq<char>|
            base.contains_key(q) && !put(all, all.len() as int, q) ==> #[trigger] r[q] == base[q],
        forall|x: int|
            0 <= x < all.len() && put_last(all, all.len() as int, x) ==> r[(
            #[trigger] all[x]).0@] == all[x].1,
    ensures
        is_renamed(m, r, s),
{
    let n = all.len() as int;
    assert forall|q: Seq<char>| put(all, n, q) == moves_to(m, s, q) by {
        if put(all, n, q) {
            let x = choose|x: int| 0 <= x < n && (#[trigger] all[x]).0@ == q;
            assert(0 <= at[x] < keys.len());
            assert(m.contains_key(keys[at[x]]@));
            assert(rebased(s, keys[at[x]]@) == Some(q));
        }
        if moves_to(m, s, q) {
            let k = choose|k: Seq<char>| m.contains_key(k) && #[trigger] rebased(s, k) == Some(q);
            let j = choose|j: int| 0 <= j < keys.len() && (#[trigger] keys[j])@ == k;
            assert(at.contains(j));
            let x = choose|x: int| 0 <= x < at.len() && at[x] == j;
            assert(all[x].0@ == q);
        }
    }
    assert forall|q: Seq<char>| m.contains_key(q) implies gone(s, keys, keys.len() as int, q) == (
    rebased(s, q) is Some) by {
        let j = choose|j: int| 0 <= j < keys.len() && (#[trigger] keys[j])@ == q;
        assert(keys[j]@ == q);
    }
    assert forall|q: Seq<char>| #[trigger] r.contains_key(q) <==> (m.contains_key(q) && rebased(
        s,
        q,
    ) is None) || moves_to(m, s, q) by {
        assert(base.contains_key(q) == (m.contains_key(q) && !gone(s, keys, keys.len() as int, q)));
        assert(put(all, n, q) == moves_to(m, s, q));
    }
    assert forall|q: Seq<char>|
        m.contains_key(q) && rebased(s, q) is None && !moves_to(m, s, q) implies #[trigger] r[q]
        == m[q] by {
        assert(base.contains_key(q));
        assert(put(all, n, q) == moves_to(m, s, q));
        assert(base[q] == m[q]);
    }
    assert forall|k: Seq<char>| #[trigger] moves_last(m, s, k) implies r[rebased(s, k)->0]
        == m[k] by {
        let j = choose|j: int| 0 <= j < keys.len() && (#[trigger] keys[j])@ == k;
        assert(at.contains(j));
        let x = choose|x: int| 0 <= x < at.len() && at[x] == j;
        assert(all[x].0@ == rebased(s, k)->0);
        assert forall|y: int| x < y < n implies (#[trigger] all[y]).0@ != all[x].0@ by {
            assert(at[x] < at[y]);
            let later = keys[at[y]]@;
            assert(text_lt(keys[at[x]]@, keys[at[y]]@));
            assert(m.contains_key(later));
            if all[y].0@ == all[x].0@ {
                assert(rebased(s, later) == rebased(s, k));
            }
        }
        assert(put_last(all, n, x));
        assert(r[all[x].0@] == all[x].1);
    }
}

/// How many of the keys are moved.
fn count_moved(keys: &Vec<String>, subs: &Substitutions, Ghost(m): Ghost<
    Map<Seq<char>, serde_json::Value>,
>) -> (r: usize)
    requires
        lists_keys(keys@, m),
    ensures
        moved_keys(m, subs@).finite(),
        r == moved_keys(m, subs@).len(),
{
    let mut count: usize = 0;
    let mut i: usize = 0;
    let ghost mut seen: Set<Seq<char>> = Set::empty();
    while i < keys.len()
        invariant
            lists_keys(keys@, m),
            i <= keys@.len(),
            count <= i,
            seen.finite(),
            seen.len() == count,
            forall|q: Seq<char>| #[trigger] seen.contains(q) == gone(subs@, keys@, i as int, q),
        decreases keys@.len() - i,
    {
        let key = &keys[i];
        let path = FilePath::new(key.as_str());
        proof {
            if gone(subs@, keys@, i as int, key@) {
                let j = choose|j: int|
                    0 <= j < i && (#[trigger] keys@[j])@ == key@ && rebased(
                        subs@,
                        key@,
                    ) is Some;
                assert(text_lt(keys@[j]@, keys@[i as int]@));
                lemma_text_lt_total(key@, key@);
            }
            assert forall|q: Seq<char>| gone(subs@, keys@, i + 1, q) == (gone(
                subs@,
                keys@,
                i as int,
                q,
            ) || (q == key@ && rebased(subs@, q) is Some)) by {
                lemma_gone_step(subs@, keys@, i as int, q);
            }
        }
        if subs.rebase(&path).is_some() {
            count = count + 1;
            proof {
                seen = seen.insert(key@);
            }
        }
        i = i + 1;
    }
    proof {
        assert forall|q: Seq<char>| #[trigger] seen.contains(q) == moved_keys(
            m,
            subs@,
        ).contains(q) by {
            if m.contains_key(q) {
                let j = choose|j: int| 0 <= j < keys@.len() && (#[trigger] keys@[j])@ == q;
                assert(keys@[j]@ == q);
            }
            if gone(subs@, keys@, keys@.len() as int, q) {
                let j = choose|j: int|
                    0 <= j < keys@.len() && (#[trigger] keys@[j])@ == q && rebased(
                        subs@,
                        q,
                    ) is Some;
                assert(m.contains_key(keys@[j]@));
            }
        }
        assert(seen =~= moved_keys(m, subs@));
    }
    count
}

/// How many keys of the document at `path` are moved.
pub open spec fn key_replacements(v: FsView, path: FilePath, subs: Pairs) -> nat {
    if subs.len() == 0 || !v.present.contains(path.key()) || v.text(path.key()) is None {
        0
    } else {
        match parsed(v.text(path.key())->0) {
            Some(root) => match projects(root) {
                Some(m) => moved_keys(m, subs).len(),
                None => 0,
            },
            None => 0,
        }
    }
}

/// What renaming the keys of the document at `path` does to the file system,
/// and what comes of it.
pub open spec fn keys_step(
    a: FsView,
    b: FsView,
    path: FilePath,
    subs: Pairs,
    dry_run: bool,
    r: Result<UpdateReport, Error>,
) -> bool {
    let n = key_replacements(a, path, subs);
    let text = a.text(path.key());
    match r {
        Ok(report) => {
            &&& subs.len() == 0 || !a.present.contains(path.key()) || (text is Some && parsed(
                text->0,
            ) is Some)
            &&& is_report(report, path@, n)
            &&& if dry_run || n == 0 {
                b == a
            } else {
                exists|w: serde_json::Value| #[trigger]
                    is_renamed_document(parsed(text->0)->0, w, subs) && replaced_file(
                        a,
                        b,
                        path.key(),
                        encode_utf8(pretty(w)),
                    ) && (parsed(pretty(w)) matches Some(x) ==> reads_alike(w, x))
            }
        },
        Err(e) => {
            &&& b == a
            &&& subs.len() > 0 && a.present.contains(path.key())
            &&& if text is None {
                e is Fs
            } else if parsed(text->0) is None {
                e is Json
            } else {
                e is Fs && !dry_run && n > 0 && !a.accepts.contains(path.key())
            }
        },
    }
}

/// Renames the keys of a JSON document that are an old path or lie below one.
/// Keys that only start the same way stay, and no value is changed.
///
/// The project paths of the registry file are such keys, under `projects` or at
/// the top.
pub fn rename_json_keys<F: Fs>(
    fs: &mut F,
    path: &FilePath,
    subs: &Substitutions,
    dry_run: bool,
) -> (r: Result<UpdateReport, Error>)
    ensures
        keys_step(old(fs).view(), final(fs).view(), *path, subs@, dry_run, r),
{
    if subs.is_empty() || !fs.path_exists(path) {
        return Ok(report_on(path, 0));
    }
    let content = match fs.read_to_string(path) {
        Ok(content) => content,
        Err(e) => {
            return Err(Error::Fs(e));
        },
    };
    let mut root = match parse_json(content.as_str()) {
        Ok(root) => root,
        Err(message) => {
            return Err(Error::Json(message));
        },
    };
    let ghost first = root;
    let nested = match member(&root, "projects") {
        Some(p) => object_keys(p),
        None => None,
    };
    let count: usize;
    if let Some(keys) = nested {
        count = count_moved(&keys, subs, Ghost(projects(root)->0));
        if count == 0 || dry_run {
            return Ok(report_on(path, count));
        }
        if let Some(mut p) = remove_member(&mut root, "projects") {
            rename_keys(&mut p, &keys, subs);
            insert_member(&mut root, "projects".to_owned(), p);
            proof {
                assert(members(root)->0.dom() =~= members(first)->0.dom());
            }
        }
    } else if let Some(keys) = object_keys(&root) {
        count = count_moved(&keys, subs, Ghost(projects(root)->0));
        if count == 0 || dry_run {
            return Ok(report_on(path, count));
        }
        rename_keys(&mut root, &keys, subs);
    } else {
        return Ok(report_on(path, 0));
    }
    assert(is_renamed_document(first, root, subs@));
    let new_content = match print_pretty(&root) {
        Ok(text) => text,
        Err(message) => {
            return Err(Error::Json(message));
        },
    };
    match fs.write_atomically(path, new_content.as_str()) {
        Ok(_) => Ok(report_on(path, count)),
        Err(e) => Err(Error::Fs(e)),
    }
}

/// Renaming keys loses no value as long as no two keys end up the same: each
/// value is under the key that its own became, once and for all, and no key is
/// moved on from there.
pub proof fn law_renaming_keeps_values(
    m: Map<Seq<char>, serde_json::Value>,
    r: Map<Seq<char>, serde_json::Value>,
    subs: Pairs,
    k: Seq<char>,
)
    requires
        is_renamed(m, r, subs),
        m.contains_key(k),
        forall|j: Seq<char>| #[trigger]
            m.contains_key(j) && j != k ==> new_key(subs, j) != new_key(subs, k),
    ensures
        r.contains_key(new_key(subs, k)),
        r[new_key(subs, k)] == m[k],
{
    let q = new_key(subs, k);
    match rebased(subs, k) {
        Some(_) => {
            assert(moves_to(m, subs, q));
            assert(moves_last(m, subs, k)) by {
                assert forall|j: Seq<char>|
                    m.contains_key(j) && #[trigger] rebased(subs, j) == rebased(subs, k) implies
                    !text_lt(k, j) by {
                    if j != k {
                        assert(new_key(subs, j) == new_key(subs, k));
                    }
                    lemma_text_lt_total(k, k);
                }
            }
        },
        None => {
            if moves_to(m, subs, q) {
                let j = choose|j: Seq<char>|
                    m.contains_key(j) && #[trigger] rebased(subs, j) == Some(q);
                assert(new_key(subs, j) == q);
                assert(j == k);
            }
        },
    }
}

/// Renaming the keys of a document goes through where it can be read and nothing is
/// refused there. The file is then written once, or not at all where no key is due.
pub proof fn law_key_renaming_goes_through(
    a: FsView,
    b: FsView,
    path: FilePath,
    subs: Pairs,
    r: Result<UpdateReport, Error>,
)
    requires
        keys_step(a, b, path, subs, false, r),
        a.text(path.key()) is Some,
        parsed(a.text(path.key())->0) is Some,
        a.accepts.contains(path.key()),
    ensures
        r is Ok,
        key_replacements(a, path, subs) == 0 ==> b == a,
        key_replacements(a, path, subs) > 0 ==> b.writes == a.writes.insert(
            path.key(),
            counted(a.writes, path.key()),
        ),
{
}

/// What a key becomes.
pub open spec fn new_key(subs: Pairs, k: Seq<char>) -> Seq<char> {
    match rebased(subs, k) {
        Some(q) => q,
        None => k,
    }
}

} // verus!
