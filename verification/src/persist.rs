//! The file format of documents.
//!
//! A file holds a version and the document as plain data. Each store is a list
//! of slots, with the item of a slot if it is occupied and the generation of
//! the slot; the slot at the first place is never occupied. Geometry is not
//! stored: it is built again when a document is read.
use vstd::prelude::*;

use crate::document::{Document, DocumentData, DocumentView};
use crate::expr::Expr;
use crate::geometry::SolidPlan;
use crate::ids::FeatureId;
use crate::mesh::TriMesh;
use crate::rebuild::{
    RebuildEntry, RebuildOps, is_rebuilt, is_up_to_date, lemma_up_to_date_alike, same_entry,
    works_alike,
};
use crate::text::{decimal, decimal_spec};

verus! {

/// The version of the format that is written. Version 1 had no dimensions;
/// files of that version can be read.
pub const FORMAT_VERSION: u32 = 2;

/// Why a document could not be written or read.
pub enum PersistError {
    /// The file system failed.
    Io(String),
    /// The document could not be turned into text.
    Serialize(String),
    /// The text is not a document.
    Deserialize(String),
    /// The file has a newer version of the format.
    UnsupportedVersion(u32),
}

/// The message of an error.
pub open spec fn message_spec(error: PersistError) -> Seq<char> {
    match error {
        PersistError::Io(reason) => "E/A-Fehler: "@ + reason@,
        PersistError::Serialize(reason) => "Serialisierung fehlgeschlagen: "@ + reason@,
        PersistError::Deserialize(reason) => "Datei nicht lesbar: "@ + reason@,
        PersistError::UnsupportedVersion(version) => "Dateiformat-Version "@ + decimal_spec(
            version as nat,
        ) + " wird nicht unterstützt (max. "@ + decimal_spec(FORMAT_VERSION as nat) + ")"@,
    }
}

impl PersistError {
    /// The message for the user.
    pub fn message(&self) -> (text: String)
        ensures
            text@ == message_spec(*self),
    {
        match self {
            PersistError::Io(reason) => {
                let mut text = String::from_str("E/A-Fehler: ");
                text.append(reason.as_str());
                text
            },
            PersistError::Serialize(reason) => {
                let mut text = String::from_str("Serialisierung fehlgeschlagen: ");
                text.append(reason.as_str());
                text
            },
            PersistError::Deserialize(reason) => {
                let mut text = String::from_str("Datei nicht lesbar: ");
                text.append(reason.as_str());
                text
            },
            PersistError::UnsupportedVersion(version) => {
                let mut text = String::from_str("Dateiformat-Version ");
                text.append(decimal(*version as u128).as_str());
                text.append(" wird nicht unterstützt (max. ");
                text.append(decimal(FORMAT_VERSION as u128).as_str());
                text.append(")");
                text
            },
        }
    }
}

/// What a file holds.
pub struct DocumentFile<T> {
    /// The version of the format.
    pub format_version: u32,
    /// The document.
    pub document: DocumentData<T>,
}

/// The file that a document is written to.
pub open spec fn is_written<T>(doc: DocumentView<T>, file: DocumentFile<T>) -> bool {
    &&& file.format_version == FORMAT_VERSION
    &&& file.document.valid()
    &&& file.document@ == doc
}

/// What is read from a file: its document if the version is not newer than
/// the present one and the data describe a document.
pub open spec fn is_read<T>(
    file: DocumentFile<T>,
    result: Result<DocumentView<T>, PersistError>,
) -> bool {
    if file.format_version > FORMAT_VERSION {
        result == Err::<DocumentView<T>, PersistError>(
            PersistError::UnsupportedVersion(file.format_version),
        )
    } else if file.document.valid() {
        result == Ok::<DocumentView<T>, PersistError>(file.document@)
    } else {
        result matches Err(PersistError::Deserialize(_))
    }
}

/// What a reading gave.
pub open spec fn read_view<T>(result: Result<Document<T>, PersistError>) -> Result<
    DocumentView<T>,
    PersistError,
> {
    match result {
        Ok(doc) => Ok(doc@),
        Err(error) => Err(error),
    }
}

/// The file that a document is written to.
pub fn pack_document<T: Copy>(doc: &Document<T>) -> (file: DocumentFile<T>)
    requires
        doc.wf(),
    ensures
        is_written(doc@, file),
        doc.is_listed_by(file.document),
{
    DocumentFile { format_version: FORMAT_VERSION, document: doc.to_data() }
}

/// The document that a file holds. Geometry is not built yet.
pub fn unpack_document<T: Copy>(file: DocumentFile<T>) -> (result: Result<
    Document<T>,
    PersistError,
>)
    ensures
        is_read(file, read_view(result)),
        result matches Ok(doc) ==> doc.wf() && doc.goes_on_from(file.document),
{
    if file.format_version > FORMAT_VERSION {
        return Err(PersistError::UnsupportedVersion(file.format_version));
    }
    match Document::from_data(file.document) {
        Some(doc) => Ok(doc),
        None => Err(PersistError::Deserialize(String::from_str("Daten passen nicht zusammen"))),
    }
}

/// A reading gives back what was written: the same history with the same
/// features, down to every coordinate, constraint, dimension and key.
pub proof fn lemma_read_gives_back<T>(
    doc: DocumentView<T>,
    file: DocumentFile<T>,
    result: Result<DocumentView<T>, PersistError>,
)
    requires
        is_written(doc, file),
        is_read(file, result),
    ensures
        result == Ok::<DocumentView<T>, PersistError>(doc),
{
}

/// The id of a feature, or of a part of a sketch, that was deleted before a
/// document was written is not given out after it was read.
pub proof fn lemma_read_keeps_retired<T>(doc: Document<T>, file: DocumentFile<T>, back: Document<T>)
    requires
        doc.wf(),
        is_written(doc@, file),
        doc.is_listed_by(file.document),
        back.wf(),
        is_read(file, Ok(back@)),
        back.goes_on_from(file.document),
    ensures
        doc.keeps_ids(back),
        doc.keeps_sketch_ids(back),
{
    doc.lemma_retired_read(file.document, back);
}

/// A document that was written and read rebuilds to the same: of every feature
/// the same status and the same body as before, if doing the same has one
/// result each time.
pub proof fn lemma_read_rebuilds_alike<
    T,
    V,
    E: Fn(&Expr<T>, &Vec<T>) -> T,
    L: Fn(&T, &T) -> bool,
    M: Fn(&T, &T) -> bool,
    K: Fn(&SolidPlan<T>) -> Result<TriMesh<V>, String>,
>(
    ops: RebuildOps<E, L, M, K>,
    doc: DocumentView<T>,
    file: DocumentFile<T>,
    back: DocumentView<T>,
    stale: Seq<RebuildEntry<V>>,
    before: Seq<RebuildEntry<V>>,
    other: Seq<RebuildEntry<V>>,
    after: Seq<RebuildEntry<V>>,
)
    requires
        works_alike::<T, V, E, L, M, K>(ops),
        is_written(doc, file),
        is_read(file, Ok(back)),
        is_rebuilt(ops, doc, 0, stale, before),
        is_rebuilt(ops, back, 0, other, after),
    ensures
        before.len() == after.len(),
        forall|i: int| 0 <= i < before.len() ==> same_entry(#[trigger] before[i], after[i]),
{
    lemma_read_gives_back(doc, file, Ok(back));
    assert(is_up_to_date(ops, doc, before));
    assert(is_up_to_date(ops, doc, after));
    lemma_up_to_date_alike(ops, doc, before, after);
}

} // verus!
