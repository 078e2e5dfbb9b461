//! The data directory, and what the files around it are called.

use vstd::prelude::*;

use crate::path::dot_dot;
use crate::path::is_plain;
use crate::path::FilePath;

verus! {

/// Where the data about all projects is kept, and the names that go with it.
#[derive(Debug)]
pub struct Home {
    /// The data directory.
    pub path: FilePath,
    /// The directory with local settings inside each project.
    pub local_dir: String,
    /// The file beside the data directory in which projects are registered.
    pub registry: String,
    /// What that file is called in an archive.
    pub archived_registry: String,
    /// What the manifest of an archive is called.
    pub manifest: String,
}

/// The texts of a `Home`.
pub struct HomeView {
    pub path: Seq<char>,
    pub local_dir: Seq<char>,
    pub registry: Seq<char>,
    pub archived_registry: Seq<char>,
    pub manifest: Seq<char>,
}

impl View for Home {
    type V = HomeView;

    open spec fn view(&self) -> HomeView {
        HomeView {
            path: self.path@,
            local_dir: self.local_dir@,
            registry: self.registry@,
            archived_registry: self.archived_registry@,
            manifest: self.manifest@,
        }
    }
}

impl Clone for Home {
    fn clone(&self) -> (r: Self)
        ensures
            r == *self,
    {
        Home {
            path: self.path.clone(),
            local_dir: self.local_dir.clone(),
            registry: self.registry.clone(),
            archived_registry: self.archived_registry.clone(),
            manifest: self.manifest.clone(),
        }
    }
}

/// The names are names of files: single components, and those in an archive
/// differ.
pub open spec fn names_sound(h: HomeView) -> bool {
    &&& is_plain(h.local_dir)
    &&& is_plain(h.manifest)
    &&& h.manifest != dot_dot()
    &&& !h.manifest.contains('\0')
    &&& !h.manifest.contains('\\')
    &&& h.manifest != h.archived_registry
}

} // verus!
