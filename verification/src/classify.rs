//! Binary-versus-text classification.
//!
//! A buffer is judged from a sample of at most its first 8192 bytes.  The
//! judgment itself is made by `content_inspector::inspect`: a leading byte
//! order mark means text; otherwise a null byte among the first 1024 sample
//! bytes, or a leading PDF or PNG magic number, means binary; anything else,
//! the empty buffer included, means text.

use vstd::prelude::*;

verus! {

/// How many leading bytes of a buffer form the classification sample.
pub const SAMPLE_LEN: usize = 8192;

/// How many leading sample bytes are scanned for a null byte.
pub const NULL_SCAN_LEN: usize = 1024;

/// Whether `b` starts with one of the byte order marks that
/// `content_inspector` recognises (UTF-8, UTF-16, or UTF-32, either order).
pub open spec fn starts_with_bom(b: Seq<u8>) -> bool {
    ||| (b.len() >= 3 && b[0] == 0xEF && b[1] == 0xBB && b[2] == 0xBF)
    ||| (b.len() >= 4 && b[0] == 0x00 && b[1] == 0x00 && b[2] == 0xFE && b[3] == 0xFF)
    ||| (b.len() >= 4 && b[0] == 0xFF && b[1] == 0xFE && b[2] == 0x00 && b[3] == 0x00)
    ||| (b.len() >= 2 && b[0] == 0xFE && b[1] == 0xFF)
    ||| (b.len() >= 2 && b[0] == 0xFF && b[1] == 0xFE)
}

/// Whether a null byte occurs among the first `NULL_SCAN_LEN` bytes of `b`.
pub open spec fn has_null_in_scan(b: Seq<u8>) -> bool {
    exists|i: int| 0 <= i < b.len() && i < NULL_SCAN_LEN && b[i] == 0
}

/// Whether `b` starts with the PDF (`%PDF`) or PNG magic number.
pub open spec fn starts_with_magic_number(b: Seq<u8>) -> bool {
    ||| (b.len() >= 4 && b[0] == 0x25 && b[1] == 0x50 && b[2] == 0x44 && b[3] == 0x46)
    ||| (b.len() >= 4 && b[0] == 0x89 && b[1] == 0x50 && b[2] == 0x4E && b[3] == 0x47)
}

/// What `content_inspector::inspect(b).is_binary()` returns.
pub open spec fn inspect_binary(b: Seq<u8>) -> bool {
    !starts_with_bom(b) && (has_null_in_scan(b) || starts_with_magic_number(b))
}

/// The first `SAMPLE_LEN` bytes of `b`, or all of `b` if it is shorter.
pub open spec fn sample_of(b: Seq<u8>) -> Seq<u8> {
    if b.len() <= SAMPLE_LEN {
        b
    } else {
        b.take(SAMPLE_LEN as int)
    }
}

/// Whether a buffer with sample `b` is classified as binary.
pub open spec fn spec_is_binary(b: Seq<u8>) -> bool {
    inspect_binary(sample_of(b))
}

/// Relies on `content_inspector::inspect`: it reports a buffer that starts
/// with a UTF byte order mark as text; otherwise as binary exactly when a
/// null byte occurs among the buffer's first 1024 bytes or the buffer starts
/// with the PDF or PNG magic number.
#[verifier::external_body]
fn inspect_is_binary(buf: &[u8]) -> (r: bool)
    ensures
        r == inspect_binary(buf@),
{
    content_inspector::inspect(buf).is_binary()
}

/// Classifies `buf` as binary or text from a sample of at most its first
/// `SAMPLE_LEN` bytes.  The empty buffer is text.
pub fn classify(buf: &[u8]) -> (binary: bool)
    ensures
        binary == spec_is_binary(buf@),
{
    let n = buf.len();
    let sample_len = if n <= SAMPLE_LEN {
        n
    } else {
        SAMPLE_LEN
    };
    let sample = vstd::slice::slice_subrange(buf, 0, sample_len);
    proof {
        assert(sample@ =~= sample_of(buf@));
    }
    inspect_is_binary(sample)
}

/// A null byte among the first 1024 bytes of a buffer without a leading byte
/// order mark makes it binary.
pub proof fn lemma_null_means_binary(b: Seq<u8>, i: int)
    requires
        0 <= i < b.len(),
        i < NULL_SCAN_LEN,
        b[i] == 0,
        !starts_with_bom(b),
    ensures
        spec_is_binary(b),
{
    let s = sample_of(b);
    assert(s[i] == 0);
    assert(has_null_in_scan(s));
}

/// A buffer of plain text bytes — no null bytes, no leading PDF or PNG
/// magic number — is classified as text.  The empty buffer is text.
pub proof fn lemma_plain_text_is_text(b: Seq<u8>)
    requires
        forall|i: int| 0 <= i < b.len() ==> b[i] != 0,
        !starts_with_magic_number(b),
    ensures
        !spec_is_binary(b),
{
    let s = sample_of(b);
    assert(!has_null_in_scan(s));
    assert(!starts_with_magic_number(s));
}

} // verus!
