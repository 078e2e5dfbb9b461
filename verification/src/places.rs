//! Where the global directories lie.

use vstd::prelude::*;
use vstd::string::*;

use crate::backup::backup_dir;
use crate::encoder::encoded;
use crate::path::components;
use crate::path::dot;
use crate::path::is_plain;
use crate::path::join_text;
use crate::path::lemma_components_concat;
use crate::path::lemma_components_join_name;
use crate::path::under;
use crate::path::Key;

verus! {

/// Where the global directories lie.
pub open spec fn projects_dir(home: Seq<char>) -> Key {
    components(home).push("projects"@)
}

/// The global directory of an absolute path is one of those in the directory
/// for them.
pub(crate) proof fn lemma_global_place(p: Seq<char>, home: Seq<char>)
    requires
        p.len() > 0 && p[0] == '/',
    ensures
        components(crate::scanner::global_dir_in(p, home)) == projects_dir(home).push(encoded(p)),
{
    reveal_strlit("projects");
    assert(dot()[0] == '.');
    assert(is_plain("projects"@)) by {
        assert("projects"@[0] != dot()[0]);
    }
    lemma_components_join_name(home, "projects"@);
    let e = encoded(p);
    assert(is_plain(e)) by {
        assert(e[0] == '-');
        assert(e[0] != dot()[0]);
        assert(!e.contains('/')) by {
            if e.contains('/') {
                let i = choose|i: int| 0 <= i < e.len() && e[i] == '/';
                assert(crate::encoder::kept(e[i]));
            }
        }
    }
    lemma_components_join_name(join_text(home, "projects"@), e);
}

/// What lies among the global directories is neither a backup nor above one, and
/// it is not the history.
pub(crate) proof fn lemma_apart_from_backups(home: Seq<char>, q: Key)
    requires
        home.len() > 0,
        under(q, projects_dir(home)),
    ensures
        !under(q, components(backup_dir(home))),
        !under(components(backup_dir(home)), q),
        q != components(join_text(home, "history.jsonl"@)),
{
    reveal_strlit("projects");
    reveal_strlit("backups");
    reveal_strlit("ccmv");
    reveal_strlit("backups/ccmv");
    reveal_strlit("history.jsonl");
    assert(dot()[0] == '.');
    let h = components(home);
    let n = h.len() as int;
    let b = components(backup_dir(home));
    let backups = join_text(home, "backups"@);
    assert(is_plain("backups"@)) by {
        assert("backups"@[0] != dot()[0]);
    }
    assert(is_plain("history.jsonl"@)) by {
        assert("history.jsonl"@[0] != dot()[0]);
    }
    lemma_components_join_name(home, "backups"@);
    lemma_components_join_name(home, "history.jsonl"@);
    assert("backups/ccmv"@ =~= "backups"@.push('/') + "ccmv"@);
    assert(backup_dir(home) =~= backups.push('/') + "ccmv"@);
    lemma_components_concat(backups, "ccmv"@);
    assert(b[n] == "backups"@);
    assert(q.subrange(0, n + 1)[n] == "projects"@);
    assert(q[n] == "projects"@);
    assert("projects"@[0] != "backups"@[0]);
    if under(q, b) {
        assert(q.subrange(0, b.len() as int)[n] == b[n]);
    }
    if under(b, q) {
        assert(b.subrange(0, q.len() as int)[n] == q[n]);
    }
    let history = components(join_text(home, "history.jsonl"@));
    assert(history[n] == "history.jsonl"@);
    assert("projects"@[0] != "history.jsonl"@[0]);
}

} // verus!
