//! The encoder: file records to container bytes.
//!
//! A container is the magic marker line followed by one section per record,
//! in input order.  A section is a `## path` heading line and a blank line,
//! then either the binary placeholder line and a blank line, or an opening
//! fence line carrying the dialect tag, the payload bytes verbatim, a
//! closing fence line, and a blank line.

use vstd::prelude::*;
use crate::bytes::{NL, lit, lit_vec, range_eq};
use crate::record::{FileRecord, ContentKind, RecordModel, KindModel, CodecError, ErrModel,
    records_view, wf_path, wf_record};
use crate::fence::{fence_seq, fence_len, calculate_fence};
use crate::classify::{classify, spec_is_binary};
use crate::lang::{get_language_tag, spec_tag_for};
use vstd::utf8::valid_utf8;

verus! {

/// The magic marker: the fixed first line of every container, newline
/// included.  Changing it would break recognition of older containers.
pub open spec fn magic_marker() -> Seq<u8> {
    lit("<!-- src2md:container -->\n")
}

/// The binary placeholder line, without its newline.
pub open spec fn placeholder() -> Seq<u8> {
    lit("(binary file omitted)")
}

/// The heading of a section: `## `, the path, a newline, and a blank line.
pub open spec fn heading_of(path: Seq<u8>) -> Seq<u8> {
    lit("## ") + path + seq![NL, NL]
}

/// The body of a section, after its heading.
pub open spec fn body_of(kind: KindModel) -> Seq<u8> {
    match kind {
        KindModel::Binary => placeholder() + seq![NL, NL],
        KindModel::Text { payload, tag } => {
            let f = fence_seq(fence_len(payload));
            f + tag + seq![NL] + payload + seq![NL] + f + seq![NL, NL]
        },
    }
}

/// One record's section.
pub open spec fn section_of(r: RecordModel) -> Seq<u8> {
    heading_of(r.path) + body_of(r.kind)
}

/// All sections, in order.
pub open spec fn sections_of(rs: Seq<RecordModel>) -> Seq<u8>
    decreases rs.len(),
{
    if rs.len() == 0 {
        Seq::<u8>::empty()
    } else {
        section_of(rs[0]) + sections_of(rs.skip(1))
    }
}

/// The whole container for a sequence of records.
pub open spec fn document_of(rs: Seq<RecordModel>) -> Seq<u8> {
    magic_marker() + sections_of(rs)
}

/// A record the encoder can turn into a section: well formed, with a payload
/// short enough that a one-longer fence still has a representable length.
pub open spec fn encodable(r: RecordModel) -> bool {
    &&& wf_record(r)
    &&& match r.kind {
        KindModel::Text { payload, tag } => payload.len() < usize::MAX,
        KindModel::Binary => true,
    }
}

pub open spec fn encodable_all(rs: Seq<FileRecord>) -> bool {
    forall|i: int| 0 <= i < rs.len() ==> encodable(#[trigger] rs[i]@)
}

/// Whether the encoder accepts `r`.
pub fn record_is_encodable(r: &FileRecord) -> (b: bool)
    ensures
        b == encodable(r@),
{
    if !crate::record::record_is_wf(r) {
        return false;
    }
    match &r.kind {
        ContentKind::Text { payload, tag: _ } => payload.len() < usize::MAX,
        ContentKind::Binary => true,
    }
}

/// The magic marker as bytes.
pub fn magic_marker_bytes() -> (v: Vec<u8>)
    ensures
        v@ == magic_marker(),
{
    proof {
        reveal_strlit("<!-- src2md:container -->\n");
        assert("<!-- src2md:container -->\n".is_ascii());
    }
    lit_vec("<!-- src2md:container -->\n")
}

/// Encodes one record as its section bytes.
///
/// This is the per-record write operation: a caller streaming a container
/// writes the magic marker once and then each record's section in turn,
/// which lets it stop at, or carry on past, any record that fails its own
/// I/O.
pub fn encode_record(r: &FileRecord) -> (out: Vec<u8>)
    requires
        encodable(r@),
    ensures
        out@ == section_of(r@),
{
    proof {
        reveal_strlit("## ");
        assert("## ".is_ascii());
        reveal_strlit("(binary file omitted)");
        assert("(binary file omitted)".is_ascii());
    }
    let mut out = lit_vec("## ");
    out.extend_from_slice(r.relative_path.as_slice());
    out.push(NL);
    out.push(NL);
    proof {
        assert(out@ =~= heading_of(r@.path));
    }
    match &r.kind {
        ContentKind::Binary => {
            let p = lit_vec("(binary file omitted)");
            out.extend_from_slice(p.as_slice());
            out.push(NL);
            out.push(NL);
            proof {
                assert(out@ =~= section_of(r@));
            }
        },
        ContentKind::Text { payload, tag } => {
            let f = calculate_fence(payload.as_slice());
            out.extend_from_slice(f.as_slice());
            out.extend_from_slice(tag.as_slice());
            out.push(NL);
            out.extend_from_slice(payload.as_slice());
            out.push(NL);
            out.extend_from_slice(f.as_slice());
            out.push(NL);
            out.push(NL);
            proof {
                assert(out@ =~= section_of(r@));
            }
        },
    }
    out
}

pub proof fn lemma_sections_snoc(rs: Seq<RecordModel>, i: int)
    requires
        0 <= i < rs.len(),
    ensures
        sections_of(rs.take(i + 1)) == sections_of(rs.take(i)) + section_of(rs[i]),
    decreases i,
{
    if i == 0 {
        let t = rs.take(1);
        assert(t[0] == rs[0]);
        assert(t.skip(1) =~= Seq::<RecordModel>::empty());
        assert(rs.take(0) =~= Seq::<RecordModel>::empty());
        assert(sections_of(Seq::<RecordModel>::empty()) == Seq::<u8>::empty());
        assert(sections_of(rs.take(1)) =~= section_of(rs[0]));
        assert(sections_of(rs.take(0)) + section_of(rs[0]) =~= section_of(rs[0]));
    } else {
        let t = rs.take(i + 1);
        assert(t[0] == rs[0]);
        assert(t.skip(1) =~= rs.skip(1).take(i));
        assert(rs.take(i)[0] == rs[0]);
        assert(rs.take(i).skip(1) =~= rs.skip(1).take(i - 1));
        lemma_sections_snoc(rs.skip(1), i - 1);
        assert(rs.skip(1)[i - 1] == rs[i]);
        assert(sections_of(rs.take(i + 1)) =~= sections_of(rs.take(i)) + section_of(rs[i]));
    }
}

/// Encodes a sequence of records as one container: the magic marker, then
/// each record's section, in input order.
pub fn encode(records: &Vec<FileRecord>) -> (out: Vec<u8>)
    requires
        encodable_all(records@),
    ensures
        out@ == document_of(records_view(records@)),
{
    let ghost models = records_view(records@);
    let mut out = magic_marker_bytes();
    let n = records.len();
    let mut i: usize = 0;
    proof {
        assert(models.take(0) =~= Seq::<RecordModel>::empty());
        assert(out@ =~= magic_marker() + sections_of(models.take(0)));
    }
    while i < n
        invariant
            i <= n,
            n == records@.len(),
            models == records_view(records@),
            encodable_all(records@),
            out@ == magic_marker() + sections_of(models.take(i as int)),
        decreases n - i,
    {
        let sec = encode_record(&records[i]);
        proof {
            assert(models[i as int] == records@[i as int]@);
            lemma_sections_snoc(models, i as int);
        }
        out.extend_from_slice(sec.as_slice());
        i += 1;
    }
    proof {
        assert(models.take(n as int) =~= models);
    }
    out
}

/// Whether a buffer begins with the magic marker.
pub open spec fn marker_present(b: Seq<u8>) -> bool {
    b.len() >= magic_marker().len() && b.take(magic_marker().len() as int) == magic_marker()
}

/// Recognises a previously produced container from a leading sample of its
/// bytes: true exactly when the sample begins with the magic marker.  A
/// sample shorter than the marker is never recognised, so a caller need read
/// no more than the marker's length.
pub fn is_container_prefix(sample: &[u8]) -> (r: bool)
    ensures
        r == marker_present(sample@),
{
    let m = magic_marker_bytes();
    if sample.len() < m.len() {
        return false;
    }
    range_eq(sample, 0, m.len(), m.as_slice())
}

/// Every encoded container is recognised by the marker check, whatever its
/// records: a later run that samples at least the marker's length from a
/// previous output sees the marker and can exclude that file.
pub proof fn lemma_self_recognition(rs: Seq<RecordModel>)
    ensures
        marker_present(document_of(rs)),
        forall|n: int|
            magic_marker().len() <= n <= document_of(rs).len() ==> marker_present(
                #[trigger] document_of(rs).take(n),
            ),
{
    assert(document_of(rs).take(magic_marker().len() as int) =~= magic_marker());
    assert forall|n: int|
        magic_marker().len() <= n <= document_of(rs).len() implies marker_present(
        document_of(rs).take(n),
    ) by {
        assert(document_of(rs).take(n).take(magic_marker().len() as int) =~= magic_marker());
    }
}

/// Relies on `core::str::from_utf8`: it returns `Ok` exactly on the byte
/// sequences that are valid UTF-8.
#[verifier::external_body]
fn utf8_is_valid(bytes: &[u8]) -> (r: bool)
    ensures
        r == valid_utf8(bytes@),
{
    core::str::from_utf8(bytes).is_ok()
}

/// Builds the record for one enumerated file: classifies its bytes, and for
/// text attaches the payload verbatim and the dialect tag for the path.
///
/// Returns the `Encoding` error exactly when the bytes classify as text but
/// are not valid UTF-8.
pub fn make_record(relative_path: Vec<u8>, content: Vec<u8>) -> (r: Result<FileRecord, CodecError>)
    requires
        wf_path(relative_path@),
    ensures
        match r {
            Ok(rec) => {
                &&& rec@.path == relative_path@
                &&& rec@.kind == if spec_is_binary(content@) {
                    KindModel::Binary
                } else {
                    KindModel::Text { payload: content@, tag: spec_tag_for(relative_path@) }
                }
                &&& wf_record(rec@)
                &&& spec_is_binary(content@) || valid_utf8(content@)
            },
            Err(e) => {
                &&& e@ == ErrModel::Encoding
                &&& !spec_is_binary(content@)
                &&& !valid_utf8(content@)
            },
        },
{
    if classify(content.as_slice()) {
        Ok(FileRecord { relative_path, kind: ContentKind::Binary })
    } else if utf8_is_valid(content.as_slice()) {
        let tag = get_language_tag(relative_path.as_slice());
        Ok(FileRecord { relative_path, kind: ContentKind::Text { payload: content, tag } })
    } else {
        Err(CodecError::Encoding)
    }
}

} // verus!
