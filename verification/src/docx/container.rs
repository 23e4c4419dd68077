//! The ZIP container of a `.docx`, read through the `zip` crate.

use std::io::{Cursor, Read};
use vstd::prelude::*;
use zip::result::ZipError;
use zip::ZipArchive;

verus! {

#[verifier::external_type_specification]
#[verifier::external_body]
#[verifier::reject_recursive_types(R)]
pub struct ExZipArchive<R>(ZipArchive<R>);

#[verifier::external_type_specification]
#[verifier::external_body]
#[verifier::reject_recursive_types(T)]
pub struct ExCursor<T>(Cursor<T>);

/// What reading one named entry of an archive gives.
pub ghost enum EntryView {
    /// The entry's decompressed bytes.
    Data(Seq<u8>),
    /// The entry could not be located or opened; the `zip` crate's message.
    LookupError(Seq<char>),
    /// Reading the entry's bytes failed with an I/O error.
    ReadError,
}

/// The entries of a ZIP archive held in memory: each name present in the
/// archive, with what reading it gives.
pub type ArchiveView = Map<Seq<char>, EntryView>;

/// What `zip::ZipArchive::new` makes of `data`: the archive's entries, or the
/// crate's message when `data` is not a readable ZIP archive.
pub uninterp spec fn zip_read(data: Seq<u8>) -> Result<ArchiveView, Seq<char>>;

/// The entries of an opened archive.
pub uninterp spec fn zip_entries(z: ZipArchive<Cursor<&[u8]>>) -> ArchiveView;

/// Why reading an entry failed.
pub enum EntryError {
    /// Locating or opening the entry failed (with the `zip` crate's message).
    Lookup(String),
    /// Reading its bytes failed.
    Read(std::io::Error),
}

/// `zip::ZipArchive::new` over the bytes. The contract claims that it
/// succeeds exactly when the bytes are a ZIP archive the crate can read, with
/// that archive's entries, and fails with the crate's message otherwise.
#[verifier::external_body]
pub(crate) fn open_archive<'a>(data: &'a [u8]) -> (r: Result<ZipArchive<Cursor<&'a [u8]>>, String>)
    ensures
        match r {
            Ok(z) => zip_read(data@) == Ok::<ArchiveView, Seq<char>>(zip_entries(z)),
            Err(m) => zip_read(data@) == Err::<ArchiveView, Seq<char>>(m@),
        },
{
    ZipArchive::new(Cursor::new(data)).map_err(|e| e.to_string())
}

/// `ZipArchive::by_name` followed by `Read::read_to_end` on the entry. The
/// contract claims: a name the archive lacks gives `Ok(None)`; otherwise the
/// result is what the archive holds for the name; the archive's entries are
/// unchanged.
#[verifier::external_body]
pub(crate) fn read_named_entry(z: &mut ZipArchive<Cursor<&[u8]>>, name: &str) -> (r: Result<Option<Vec<u8>>, EntryError>)
    ensures
        zip_entries(*final(z)) == zip_entries(*old(z)),
        !zip_entries(*old(z)).contains_key(name@) ==> r matches Ok(None),
        zip_entries(*old(z)).contains_key(name@) ==> match zip_entries(*old(z))[name@] {
            EntryView::Data(d) => r matches Ok(Some(b)) && b@ == d,
            EntryView::LookupError(m) => r matches Err(EntryError::Lookup(e)) && e@ == m,
            EntryView::ReadError => r matches Err(EntryError::Read(_)),
        },
{
    match z.by_name(name) {
        Ok(mut file) => {
            let mut buf = Vec::new();
            file.read_to_end(&mut buf).map_err(EntryError::Read)?;
            Ok(Some(buf))
        },
        Err(ZipError::FileNotFound) => Ok(None),
        Err(e) => Err(EntryError::Lookup(e.to_string())),
    }
}

} // verus!
