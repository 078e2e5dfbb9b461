//! What becomes of a text in which paths are replaced, from its first character on.

use vstd::prelude::*;

use crate::error::Error;
use crate::finding::below;
use crate::fs::FsView;
use crate::json::parsed;
use crate::json::projects;
use crate::order::lemma_text_lt_total;
use crate::path::FilePath;
use crate::scanner::mentions;
use crate::substitution::boundary;
use crate::substitution::hits_path;
use crate::substitution::hits_text;
use crate::substitution::law_longest_match_wins;
use crate::substitution::law_longest_prefix_wins;
use crate::substitution::lemma_match_path;
use crate::substitution::lemma_match_text;
use crate::substitution::match_path;
use crate::substitution::match_text;
use crate::substitution::matches_from;
use crate::substitution::matches_in;
use crate::substitution::rebased;
use crate::substitution::replaced;
use crate::substitution::replaced_from;
use crate::substitution::text_at;
use crate::substitution::Pairs;
use crate::text::unicode_alphanumeric;
use crate::updater::file_step;
use crate::updater::is_renamed;
use crate::updater::keys_step;
use crate::updater::moved_keys;
use crate::updater::moves_last;
use crate::updater::moves_to;
use crate::updater::UpdateReport;

verus! {

/// A character that the name of a file goes on with: a letter, a digit, `_`, `-` or `.`.
pub open spec fn goes_on(c: char) -> bool {
    let n = c as int;
    if n < 128 {
        48 <= n <= 57 || 65 <= n <= 90 || 97 <= n <= 122 || n == 95 || n == 45 || n == 46
    } else {
        unicode_alphanumeric(c)
    }
}

/// The text starts with the path `old`, and the path ends there.
pub open spec fn refers(s: Seq<char>, old: Seq<char>) -> bool {
    &&& 0 < old.len() <= s.len()
    &&& forall|i: int| 0 <= i < old.len() ==> s[i] == #[trigger] old[i]
    &&& old.len() < s.len() ==> !goes_on(s[old.len() as int])
}

/// Of the old paths that the text starts with, `set[e].0` is the longest, the first
/// given among equals.
pub open spec fn refers_best(set: Pairs, s: Seq<char>, e: int) -> bool {
    &&& 0 <= e < set.len()
    &&& refers(s, set[e].0)
    &&& forall|f: int|
        0 <= f < set.len() && refers(s, #[trigger] set[f].0) ==> set[f].0.len() < set[e].0.len()
            || (set[f].0.len() == set[e].0.len() && e <= f)
}

/// The path `p` is `old` or lies below it.
pub open spec fn belongs(p: Seq<char>, old: Seq<char>) -> bool {
    p == old || exists|rest: Seq<char>| p == #[trigger] below(old, rest)
}

/// Of the old paths that `p` belongs to, `set[e].0` is the longest, the first given
/// among equals.
pub open spec fn belongs_best(set: Pairs, p: Seq<char>, e: int) -> bool {
    &&& 0 <= e < set.len()
    &&& belongs(p, set[e].0)
    &&& forall|f: int|
        0 <= f < set.len() && belongs(p, #[trigger] set[f].0) ==> set[f].0.len() < set[e].0.len()
            || (set[f].0.len() == set[e].0.len() && e <= f)
}

proof fn lemma_boundary(s: Seq<char>, j: int)
    requires
        0 <= j,
    ensures
        boundary(s, j) <==> j >= s.len() || !goes_on(s[j]),
{
}

proof fn lemma_refers(s: Seq<char>, i: int, old: Seq<char>)
    requires
        0 <= i <= s.len(),
    ensures
        hits_text(s, i, old) == refers(s.skip(i), old),
{
    let rest = s.skip(i);
    lemma_boundary(s, i + old.len());
    if i + old.len() <= s.len() {
        assert(s.subrange(i, i + old.len()) =~= rest.take(old.len() as int));
        if refers(rest, old) {
            assert(s.subrange(i, i + old.len()) =~= old);
        }
        if hits_text(s, i, old) {
            assert forall|k: int| 0 <= k < old.len() implies rest[k] == #[trigger] old[k] by {
                assert(s.subrange(i, i + old.len())[k] == old[k]);
            }
        }
    }
}

/// An old path is replaced where it stands as a whole: what follows it does not go on
/// with the name.
pub proof fn law_a_reference_is_a_whole_path(pre: Seq<char>, old: Seq<char>, post: Seq<char>)
    requires
        old.len() > 0,
    ensures
        hits_text(pre + old + post, pre.len() as int, old) <==> post.len() == 0 || !goes_on(
            post[0],
        ),
        mentions(pre + old + post, old) <== post.len() == 0 || !goes_on(post[0]),
{
    let s = pre + old + post;
    let i = pre.len() as int;
    lemma_refers(s, i, old);
    assert(s.skip(i) =~= old + post);
    if post.len() > 0 {
        assert((old + post)[old.len() as int] == post[0]);
    }
    if post.len() == 0 || !goes_on(post[0]) {
        assert(hits_text(s, i, old));
        assert(text_at(s, i, old) && boundary(s, i + old.len()));
    }
}

/// A text names a path only where it holds the whole of it.
pub proof fn law_a_mention_is_a_whole_path(text: Seq<char>, p: Seq<char>)
    requires
        p.len() > 0,
    ensures
        mentions(text, p) ==> exists|pre: Seq<char>, post: Seq<char>|
            text == #[trigger] (pre + p + post) && (post.len() == 0 || !goes_on(post[0])),
{
    if mentions(text, p) {
        let i = choose|i: int|
            0 <= i <= text.len() && #[trigger] text_at(text, i, p) && boundary(text, i + p.len());
        let pre = text.take(i);
        let post = text.skip(i + p.len());
        assert(text =~= pre + p + post);
        lemma_boundary(text, i + p.len());
    }
}

proof fn lemma_match_suffix(set: Pairs, s: Seq<char>, i: int, j: int)
    requires
        0 <= i,
        0 <= j,
        i + j <= s.len(),
    ensures
        match_text(set, s, i + j) == match_text(set, s.skip(i), j),
{
    let t = s.skip(i);
    let f = |old: Seq<char>| hits_text(s, i + j, old);
    let g = |old: Seq<char>| hits_text(t, j, old);
    assert forall|old: Seq<char>| #[trigger] f(old) == g(old) by {
        lemma_refers(s, i + j, old);
        lemma_refers(t, j, old);
        assert(s.skip(i + j) =~= t.skip(j));
    }
    assert(f =~= g);
}

proof fn lemma_suffix(set: Pairs, s: Seq<char>, i: int, j: int)
    requires
        0 <= i,
        0 <= j,
        i + j <= s.len(),
    ensures
        matches_from(set, s, i + j).len() == matches_from(set, s.skip(i), j).len(),
        replaced_from(set, s, i + j) == replaced_from(set, s.skip(i), j),
    decreases s.len() - i - j,
{
    let t = s.skip(i);
    lemma_match_suffix(set, s, i, j);
    lemma_match_text(set, s, i + j);
    if i + j < s.len() {
        match match_text(set, s, i + j) {
            Some(e) if set[e].0.len() > 0 => {
                lemma_suffix(set, s, i, j + set[e].0.len());
            },
            _ => {
                lemma_suffix(set, s, i, j + 1);
            },
        }
    }
}

/// References are replaced from left to right, each once. Where the text starts with
/// old paths, the longest of them gives way to its new path, and the rest goes on
/// behind it; where it starts with none, its first character stays.
pub proof fn law_references_are_replaced_in_turn(set: Pairs, s: Seq<char>, e: int)
    ensures
        replaced(set, Seq::empty()) == Seq::<char>::empty(),
        matches_in(set, Seq::empty()).len() == 0,
        refers_best(set, s, e) ==> {
            let rest = s.skip(set[e].0.len() as int);
            &&& replaced(set, s) == set[e].1 + replaced(set, rest)
            &&& matches_in(set, s).len() == 1 + matches_in(set, rest).len()
        },
        s.len() > 0 && (forall|f: int| 0 <= f < set.len() ==> !refers(s, #[trigger] set[f].0))
            ==> {
            &&& replaced(set, s) == seq![s[0]] + replaced(set, s.skip(1))
            &&& matches_in(set, s).len() == matches_in(set, s.skip(1)).len()
        },
{
    assert(s.skip(0) =~= s);
    lemma_match_text(set, s, 0);
    if refers_best(set, s, e) {
        lemma_refers(s, 0, set[e].0);
        law_longest_match_wins(set, s, 0, e);
        let g = match_text(set, s, 0)->0;
        lemma_refers(s, 0, set[g].0);
        assert(g == e);
        lemma_suffix(set, s, set[e].0.len() as int, 0);
    }
    if s.len() > 0 && (forall|f: int| 0 <= f < set.len() ==> !refers(s, #[trigger] set[f].0)) {
        if match_text(set, s, 0) is Some {
            let g = match_text(set, s, 0)->0;
            lemma_refers(s, 0, set[g].0);
            assert(refers(s, set[g].0));
        }
        lemma_suffix(set, s, 1, 0);
    }
}

pub(crate) proof fn lemma_belongs(p: Seq<char>, old: Seq<char>)
    ensures
        hits_path(p, old) == belongs(p, old),
{
    if hits_path(p, old) && p != old {
        let rest = p.skip(old.len() as int + 1);
        assert(p.subrange(0, old.len() as int) == old);
        assert(p =~= p.subrange(0, old.len() as int) + seq!['/'] + rest);
        assert(p == below(old, rest));
    }
    if belongs(p, old) && p != old {
        let rest = choose|rest: Seq<char>| p == #[trigger] below(old, rest);
        assert(p.subrange(0, old.len() as int) =~= old);
        assert(p[old.len() as int] == '/');
    }
}

/// A path that is an old path, or lies below one at any depth, moves along with it: the
/// longest such old path gives way to its new one, and the rest is kept. Any other path
/// stays.
pub proof fn law_paths_move_with_what_they_lie_below(set: Pairs, p: Seq<char>, e: int)
    ensures
        belongs_best(set, p, e) ==> rebased(set, p) == Some(
            set[e].1 + p.skip(set[e].0.len() as int),
        ),
        belongs_best(set, p, e) && p == set[e].0 ==> rebased(set, p) == Some(set[e].1),
        belongs_best(set, p, e) ==> forall|rest: Seq<char>|
            p == #[trigger] below(set[e].0, rest) ==> rebased(set, p) == Some(
                below(set[e].1, rest),
            ),
        rebased(set, p) is Some <==> exists|f: int|
            0 <= f < set.len() && belongs(p, #[trigger] set[f].0),
{
    lemma_match_path(set, p);
    if exists|f: int| 0 <= f < set.len() && belongs(p, #[trigger] set[f].0) {
        let f = choose|f: int| 0 <= f < set.len() && belongs(p, #[trigger] set[f].0);
        lemma_belongs(p, set[f].0);
        law_longest_prefix_wins(set, p, f);
    }
    if rebased(set, p) is Some {
        let g = match_path(set, p)->0;
        lemma_belongs(p, set[g].0);
        assert(belongs(p, set[g].0));
    }
    if belongs_best(set, p, e) {
        lemma_belongs(p, set[e].0);
        law_longest_prefix_wins(set, p, e);
        let g = match_path(set, p)->0;
        lemma_belongs(p, set[g].0);
        assert(g == e);
        if p == set[e].0 {
            assert(set[e].1 + p.skip(set[e].0.len() as int) =~= set[e].1);
        }
        assert forall|rest: Seq<char>| p == #[trigger] below(set[e].0, rest) implies rebased(set, p)
            == Some(below(set[e].1, rest)) by {
            assert(set[e].1 + p.skip(set[e].0.len() as int) =~= below(set[e].1, rest));
        }
    }
}

/// The keys of a registry that are renamed are those of the projects at or below an old
/// path.
pub proof fn law_renamed_keys_belong_to_moved_projects(
    m: Map<Seq<char>, serde_json::Value>,
    subs: Pairs,
    k: Seq<char>,
)
    ensures
        moved_keys(m, subs).contains(k) <==> m.contains_key(k) && exists|f: int|
            0 <= f < subs.len() && belongs(k, #[trigger] subs[f].0),
{
    law_paths_move_with_what_they_lie_below(subs, k, 0);
}

/// The report on a file gives its path and the number of references in it, and calls
/// the file skipped exactly where there are none.
pub proof fn law_reports_count_references(
    a: FsView,
    b: FsView,
    path: FilePath,
    subs: Pairs,
    dry_run: bool,
    report: UpdateReport,
)
    requires
        file_step(a, b, path, subs, dry_run, Ok::<UpdateReport, Error>(report)),
    ensures
        report.file@ == path@,
        report.skipped <==> report.replacements == 0,
        a.present.contains(path.key()) && a.text(path.key()) is Some && subs.len() > 0
            ==> report.replacements == matches_in(subs, a.text(path.key())->0).len(),
        !a.present.contains(path.key()) ==> report.skipped,
        report.skipped || dry_run ==> b == a,
        !report.skipped && !dry_run ==> b.text(path.key()) == Some(
            replaced(subs, a.text(path.key())->0),
        ),
{
    if !report.skipped && !dry_run {
        let text = replaced(subs, a.text(path.key())->0);
        vstd::utf8::encode_utf8_valid_utf8(text);
        vstd::utf8::encode_utf8_decode_utf8(text);
    }
}

/// The report on a registry counts the keys that are renamed.
pub proof fn law_reports_count_renamed_keys(
    a: FsView,
    b: FsView,
    path: FilePath,
    subs: Pairs,
    dry_run: bool,
    report: UpdateReport,
    root: serde_json::Value,
)
    requires
        keys_step(a, b, path, subs, dry_run, Ok::<UpdateReport, Error>(report)),
        a.present.contains(path.key()),
        a.text(path.key()) is Some,
        parsed(a.text(path.key())->0) == Some(root),
        subs.len() > 0,
    ensures
        report.file@ == path@,
        report.skipped <==> report.replacements == 0,
        projects(root) matches Some(m) ==> report.replacements == moved_keys(m, subs).len(),
        projects(root) is None ==> report.skipped,
        report.skipped || dry_run ==> b == a,
{
}

/// A key that is renamed takes its value along, and wins over one that was there; its
/// old name is gone, unless another key takes it.
pub proof fn law_renamed_key_takes_its_value_along(
    m: Map<Seq<char>, serde_json::Value>,
    r: Map<Seq<char>, serde_json::Value>,
    subs: Pairs,
    k: Seq<char>,
    q: Seq<char>,
)
    requires
        is_renamed(m, r, subs),
        m.contains_key(k),
        rebased(subs, k) == Some(q),
        forall|j: Seq<char>| m.contains_key(j) && j != k ==> #[trigger] rebased(subs, j) != Some(q),
    ensures
        r.contains_key(q),
        r[q] == m[k],
        (forall|j: Seq<char>| m.contains_key(j) ==> #[trigger] rebased(subs, j) != Some(k))
            ==> !r.contains_key(k),
{
    assert(moves_to(m, subs, q));
    lemma_text_lt_total(k, k);
    assert(moves_last(m, subs, k));
}

/// A key that is at or below no old path stays with its value, unless another key comes
/// to its name.
pub proof fn law_other_keys_stay(
    m: Map<Seq<char>, serde_json::Value>,
    r: Map<Seq<char>, serde_json::Value>,
    subs: Pairs,
    k: Seq<char>,
)
    requires
        is_renamed(m, r, subs),
        m.contains_key(k),
        forall|f: int| 0 <= f < subs.len() ==> !belongs(k, #[trigger] subs[f].0),
        forall|j: Seq<char>| m.contains_key(j) ==> #[trigger] rebased(subs, j) != Some(k),
    ensures
        r.contains_key(k),
        r[k] == m[k],
{
    law_paths_move_with_what_they_lie_below(subs, k, 0);
    assert(!moves_to(m, subs, k));
}

} // verus!
