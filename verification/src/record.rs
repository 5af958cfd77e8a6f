//! The data model: one record per file, and the library's error type.

use vstd::prelude::*;
use crate::bytes::{NL, BT};

verus! {

/// Spec-level image of a record's content.
pub ghost enum KindModel {
    Text { payload: Seq<u8>, tag: Seq<u8> },
    Binary,
}

/// Spec-level image of one file record.
pub ghost struct RecordModel {
    pub path: Seq<u8>,
    pub kind: KindModel,
}

/// The content of one file record.
///
/// A text record carries its payload bytes verbatim plus a cosmetic dialect
/// tag; a binary record carries nothing but the fact of its existence.
#[derive(Debug, Clone, PartialEq, Eq)]
pub enum ContentKind {
    Text { payload: Vec<u8>, tag: Vec<u8> },
    Binary,
}

/// One entry to be encoded into a container, or one entry recovered from it.
#[derive(Debug, Clone, PartialEq, Eq)]
pub struct FileRecord {
    /// Forward-slash relative path, non-empty, free of line separators.
    pub relative_path: Vec<u8>,
    pub kind: ContentKind,
}

impl View for ContentKind {
    type V = KindModel;

    open spec fn view(&self) -> KindModel {
        match self {
            ContentKind::Text { payload, tag } => KindModel::Text {
                payload: payload@,
                tag: tag@,
            },
            ContentKind::Binary => KindModel::Binary,
        }
    }
}

impl View for FileRecord {
    type V = RecordModel;

    open spec fn view(&self) -> RecordModel {
        RecordModel { path: self.relative_path@, kind: self.kind@ }
    }
}

/// View of a vector of records as a sequence of record models.
pub open spec fn records_view(v: Seq<FileRecord>) -> Seq<RecordModel> {
    v.map_values(|r: FileRecord| r@)
}

/// A usable relative path: non-empty and free of line separators, so that it
/// fits on one heading line.
pub open spec fn wf_path(p: Seq<u8>) -> bool {
    &&& p.len() > 0
    &&& forall|i: int| 0 <= i < p.len() ==> p[i] != NL
}

/// A usable dialect tag: free of line separators and of fence bytes, so that
/// an opening fence line parses back into the same fence and tag.
pub open spec fn wf_tag(t: Seq<u8>) -> bool {
    forall|i: int| 0 <= i < t.len() ==> t[i] != NL && t[i] != BT
}

/// A record that the encoder accepts.
pub open spec fn wf_record(r: RecordModel) -> bool {
    &&& wf_path(r.path)
    &&& match r.kind {
        KindModel::Text { payload, tag } => wf_tag(tag),
        KindModel::Binary => true,
    }
}

pub open spec fn wf_records(rs: Seq<RecordModel>) -> bool {
    forall|i: int| 0 <= i < rs.len() ==> wf_record(#[trigger] rs[i])
}

/// Whether `b` occurs in `s`.
pub fn contains_byte(s: &[u8], b: u8) -> (r: bool)
    ensures
        r == exists|i: int| 0 <= i < s@.len() && s@[i] == b,
{
    let j = crate::bytes::find_byte_in(s, 0, b);
    proof {
        crate::bytes::lemma_find_byte(s@, b);
        assert(s@.skip(0) =~= s@);
        if j < s@.len() {
            assert(s@[j as int] == b);
        }
    }
    j < s.len()
}

/// Whether the encoder accepts `r`.
pub fn record_is_wf(r: &FileRecord) -> (b: bool)
    ensures
        b == wf_record(r@),
{
    if r.relative_path.len() == 0 {
        return false;
    }
    if contains_byte(r.relative_path.as_slice(), NL) {
        return false;
    }
    match &r.kind {
        ContentKind::Text { payload: _, tag } => {
            !contains_byte(tag.as_slice(), NL) && !contains_byte(tag.as_slice(), BT)
        },
        ContentKind::Binary => true,
    }
}

/// Spec-level image of a decoding or encoding failure.
pub ghost enum ErrModel {
    NotAContainer,
    MalformedSection { path: Option<Seq<u8>> },
    Encoding,
}

/// Why a container could not be decoded, or a record not be built.
///
/// `NotAContainer`: the input does not begin with the magic marker.
/// `MalformedSection`: a section is truncated or shaped wrongly; the last
/// heading successfully read, if any, names the neighbourhood of the fault.
/// `Encoding`: a buffer classified as text does not decode as UTF-8.
#[derive(Debug, Clone, PartialEq, Eq)]
pub enum CodecError {
    NotAContainer,
    MalformedSection { path: Option<Vec<u8>> },
    Encoding,
}

impl View for CodecError {
    type V = ErrModel;

    open spec fn view(&self) -> ErrModel {
        match self {
            CodecError::NotAContainer => ErrModel::NotAContainer,
            CodecError::MalformedSection { path } => ErrModel::MalformedSection {
                path: match path {
                    Some(p) => Some(p@),
                    None => None,
                },
            },
            CodecError::Encoding => ErrModel::Encoding,
        }
    }
}

} // verus!
