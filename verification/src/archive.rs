//! Compressed archives, written and read by `tar` and `flate2`.

use std::io::Read;

use vstd::prelude::*;
use vstd::string::*;

use crate::path::dot_dot;
use crate::path::is_plain;
use crate::text::split;

verus! {

/// The files of an archive: the name and the contents of each, in order.
pub type Entries = Seq<(Seq<char>, Seq<u8>)>;

/// An archive that is being written, in memory.
#[verifier::external_body]
pub struct ArchiveWriter {
    builder: tar::Builder<flate2::write::GzEncoder<Vec<u8>>>,
}

/// What was put into an archive so far.
pub uninterp spec fn held(w: ArchiveWriter) -> Entries;

/// What reading an archive gives: its files, up to its end or to the first place
/// that cannot be read, and whether that was its end.
pub uninterp spec fn unpacked(data: Seq<u8>) -> (Entries, bool);

/// The files that can be read from an archive.
pub open spec fn archived(data: Seq<u8>) -> Entries {
    unpacked(data).0
}

/// Whether an archive can be read to its end.
pub open spec fn whole(data: Seq<u8>) -> bool {
    unpacked(data).1
}

/// A name that an archive keeps as it is: names separated by single slashes,
/// none of them `.` or `..`, without a NUL character and without a backslash,
/// which some systems take for a separator.
pub open spec fn storable(name: Seq<char>) -> bool {
    &&& !name.contains('\0')
    &&& !name.contains('\\')
    &&& forall|i: int|
        0 <= i < split(name, '/').len() ==> is_plain(#[trigger] split(name, '/')[i]) && split(
            name,
            '/',
        )[i] != dot_dot()
}

/// Whether the names of all the files can be kept.
pub open spec fn all_storable(e: Entries) -> bool {
    forall|i: int| 0 <= i < e.len() ==> storable((#[trigger] e[i]).0)
}

/// The archive `data` holds the files `e`, as far as their names can be kept.
pub open spec fn archives(data: Seq<u8>, e: Entries) -> bool {
    all_storable(e) ==> whole(data) && archived(data) == e
}

/// `tar::Builder::new` over `flate2::write::GzEncoder::new` starts an archive
/// without files.
#[verifier::external_body]
pub(crate) fn new_archive() -> (r: ArchiveWriter)
    ensures
        held(r) == Entries::empty(),
{
    let encoder = flate2::write::GzEncoder::new(Vec::new(), flate2::Compression::default());
    ArchiveWriter { builder: tar::Builder::new(encoder) }
}

/// `tar::Builder::append_data` puts a file at the end of an archive. It takes any
/// name that can be kept: what is written goes to memory, which refuses nothing.
/// It may refuse another name; what the archive holds then is left open.
#[verifier::external_body]
pub(crate) fn append_file(w: &mut ArchiveWriter, name: &str, data: &Vec<u8>) -> (r: Result<
    (),
    String,
>)
    ensures
        r is Ok ==> held(*final(w)) == held(*old(w)).push((name@, data@)),
        storable(name@) ==> r is Ok,
{
    let mut header = tar::Header::new_gnu();
    header.set_size(data.len() as u64);
    header.set_mode(0o644);
    header.set_cksum();
    w.builder.append_data(&mut header, name, data.as_slice()).map_err(|e| e.to_string())
}

/// `tar::Builder::into_inner` and `flate2::write::GzEncoder::finish` end an
/// archive, which in memory always succeeds. Read again, it gives the files that
/// were put in, where their names can be kept.
#[verifier::external_body]
pub(crate) fn finish_archive(w: ArchiveWriter) -> (r: Result<Vec<u8>, String>)
    ensures
        r is Ok,
        r matches Ok(data) ==> archives(data@, held(w)),
{
    w.builder.into_inner().and_then(|encoder| encoder.finish()).map_err(|e| e.to_string())
}

/// What some files read from an archive are in the model.
pub open spec fn entry_views(e: Seq<(String, Vec<u8>)>) -> Entries {
    e.map_values(|x: (String, Vec<u8>)| (x.0@, x.1@))
}

/// `tar::Archive::entries` over `flate2::read::GzDecoder` reads the files of an
/// archive. With them comes the error that ended the reading early, if one did.
#[verifier::external_body]
pub(crate) fn read_archive(data: &Vec<u8>) -> (r: (Vec<(String, Vec<u8>)>, Option<String>))
    ensures
        unpacked(data@) == (entry_views(r.0@), r.1 is None),
{
    let mut files = Vec::new();
    let mut read_all = || -> std::io::Result<()> {
        for entry in tar::Archive::new(flate2::read::GzDecoder::new(data.as_slice())).entries()? {
            let mut entry = entry?;
            let name = entry.path()?.to_string_lossy().into_owned();
            let mut content = Vec::new();
            entry.read_to_end(&mut content)?;
            files.push((name, content));
        }
        Ok(())
    };
    let error = read_all().err().map(|e| e.to_string());
    (files, error)
}

} // verus!
