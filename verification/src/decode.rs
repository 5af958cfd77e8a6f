//! The decoder: container bytes back to file records.
//!
//! Decoding is strict: the input must begin with the magic marker
//! (`NotAContainer` otherwise), and after it the sections must follow the
//! exact shape the encoder emits (`MalformedSection` otherwise, naming the
//! last heading read when one was).  The opening fence's actual length is
//! read from the document, so fences longer than the three-byte minimum
//! decode correctly.  The payload is everything strictly between the fence
//! lines, minus the newline the encoder appended before the closing fence.

use vstd::prelude::*;
use crate::bytes::{NL, BT, lit, find_byte, run_len, split_bytes, lemma_find_byte,
    lemma_find_byte_is, lemma_find_byte_concat, lemma_run_len_is, lemma_split_len,
    lemma_split_terminated, find_byte_in, run_len_in, range_eq, copy_range, lit_vec};
use crate::record::{FileRecord, ContentKind, RecordModel, KindModel, CodecError, ErrModel,
    records_view, wf_path, wf_tag, wf_record, wf_records};
use crate::fence::{fence_seq, fence_len, line_run, lemma_fence_safety, lemma_line_run_of_fence};
use crate::encode::{magic_marker, placeholder, section_of, sections_of,
    document_of, marker_present, magic_marker_bytes};

verus! {

/// Scans `s` line by line for a line that is exactly `f`.  Returns the
/// region of complete lines before that line (newlines included) and what
/// follows the closing line's newline; `None` if no line equals `f` (a
/// trailing fragment without a newline is never a closing line).
pub open spec fn find_close(f: Seq<u8>, s: Seq<u8>) -> Option<(Seq<u8>, Seq<u8>)>
    decreases s.len(),
{
    let k = find_byte(s, NL);
    if k == s.len() {
        None
    } else if s.take(k as int) == f {
        Some((Seq::<u8>::empty(), s.skip(k as int + 1)))
    } else {
        proof {
            lemma_find_byte(s, NL);
        }
        match find_close(f, s.skip(k as int + 1)) {
            None => None,
            Some(ra) => Some((s.take(k as int + 1) + ra.0, ra.1)),
        }
    }
}

pub proof fn lemma_find_close_len(f: Seq<u8>, s: Seq<u8>)
    ensures
        match find_close(f, s) {
            Some(ra) => ra.1.len() < s.len(),
            None => true,
        },
    decreases s.len(),
{
    let k = find_byte(s, NL);
    lemma_find_byte(s, NL);
    if k == s.len() {
    } else if s.take(k as int) == f {
    } else {
        lemma_find_close_len(f, s.skip(k as int + 1));
    }
}

/// One parsed section prepended to the rest of a parse.
pub open spec fn prepend_record(
    r: RecordModel,
    rest: Result<Seq<RecordModel>, ErrModel>,
) -> Result<Seq<RecordModel>, ErrModel> {
    match rest {
        Ok(t) => Ok(seq![r] + t),
        Err(e) => Err(e),
    }
}

/// Parses the sections that follow the magic marker.
///
/// The empty rest is a complete parse.  Otherwise a section must follow:
/// a heading line `## path` with a non-empty path, a blank line, and then
/// either the placeholder line and a blank line, or a fence block — an
/// opening fence of at least three backticks with the tag after it, the
/// payload region, a line exactly equal to the opening fence, and a blank
/// line.
pub open spec fn parse_sections(s: Seq<u8>) -> Result<Seq<RecordModel>, ErrModel>
    decreases s.len(),
{
    if s.len() == 0 {
        Ok(Seq::<RecordModel>::empty())
    } else {
        let i = find_byte(s, NL);
        if i == s.len() {
            Err(ErrModel::MalformedSection { path: None })
        } else {
            let line = s.take(i as int);
            if !(line.len() > 3 && line.take(3) == lit("## ")) {
                Err(ErrModel::MalformedSection { path: None })
            } else {
                let path = line.skip(3);
                let rest = s.skip(i as int + 1);
                if rest.len() == 0 || rest[0] != NL {
                    Err(ErrModel::MalformedSection { path: Some(path) })
                } else {
                    proof {
                        lemma_find_byte(s, NL);
                    }
                    let body = rest.skip(1);
                    let j = find_byte(body, NL);
                    if j == body.len() {
                        Err(ErrModel::MalformedSection { path: Some(path) })
                    } else {
                        let bline = body.take(j as int);
                        let brest = body.skip(j as int + 1);
                        if bline == placeholder() {
                            if brest.len() == 0 || brest[0] != NL {
                                Err(ErrModel::MalformedSection { path: Some(path) })
                            } else {
                                proof {
                                    lemma_find_byte(body, NL);
                                }
                                prepend_record(
                                    RecordModel { path, kind: KindModel::Binary },
                                    parse_sections(brest.skip(1)),
                                )
                            }
                        } else {
                            let flen = run_len(bline, BT);
                            if flen < 3 {
                                Err(ErrModel::MalformedSection { path: Some(path) })
                            } else {
                                let fseq = bline.take(flen as int);
                                let tag = bline.skip(flen as int);
                                match find_close(fseq, brest) {
                                    None => Err(ErrModel::MalformedSection { path: Some(path) }),
                                    Some(ra) => {
                                        let region = ra.0;
                                        let after = ra.1;
                                        if after.len() == 0 || after[0] != NL {
                                            Err(ErrModel::MalformedSection { path: Some(path) })
                                        } else {
                                            proof {
                                                lemma_find_byte(s, NL);
                                                lemma_find_byte(body, NL);
                                                lemma_find_close_len(fseq, brest);
                                            }
                                            let payload = if region.len() == 0 {
                                                region
                                            } else {
                                                region.take(region.len() - 1)
                                            };
                                            prepend_record(
                                                RecordModel {
                                                    path,
                                                    kind: KindModel::Text { payload, tag },
                                                },
                                                parse_sections(after.skip(1)),
                                            )
                                        }
                                    },
                                }
                            }
                        }
                    }
                }
            }
        }
    }
}

/// What decoding a byte stream yields: `NotAContainer` unless it begins
/// with the magic marker, otherwise the parse of what follows the marker.
pub open spec fn spec_decode(doc: Seq<u8>) -> Result<Seq<RecordModel>, ErrModel> {
    if !marker_present(doc) {
        Err(ErrModel::NotAContainer)
    } else {
        parse_sections(doc.skip(magic_marker().len() as int))
    }
}

/// A region of lines already scanned, prepended to a closing-fence scan.
pub open spec fn close_map(
    pre: Seq<u8>,
    r: Option<(Seq<u8>, Seq<u8>)>,
) -> Option<(Seq<u8>, Seq<u8>)> {
    match r {
        None => None,
        Some(ra) => Some((pre + ra.0, ra.1)),
    }
}

/// Records already parsed, prepended to the parse of the remaining stream.
pub open spec fn prepend_all(
    done: Seq<RecordModel>,
    rest: Result<Seq<RecordModel>, ErrModel>,
) -> Result<Seq<RecordModel>, ErrModel> {
    match rest {
        Ok(t) => Ok(done + t),
        Err(e) => Err(e),
    }
}

proof fn lemma_prepend_all_nil(r: Result<Seq<RecordModel>, ErrModel>)
    ensures
        prepend_all(Seq::<RecordModel>::empty(), r) == r,
{
    match r {
        Ok(t) => {
            assert(Seq::<RecordModel>::empty() + t =~= t);
        },
        Err(_) => {},
    }
}

proof fn lemma_prepend_all_step(
    done: Seq<RecordModel>,
    r: RecordModel,
    rest: Result<Seq<RecordModel>, ErrModel>,
)
    ensures
        prepend_all(done, prepend_record(r, rest)) == prepend_all(done.push(r), rest),
{
    match rest {
        Ok(t) => {
            assert(done + (seq![r] + t) =~= done.push(r) + t);
        },
        Err(_) => {},
    }
}

/// Finds the line that is exactly `f`, scanning from `start`.  Returns the
/// position where that closing line starts and the position just past its
/// newline.
fn scan_close(doc: &[u8], start: usize, f: &[u8]) -> (r: Option<(usize, usize)>)
    requires
        start <= doc@.len(),
    ensures
        match r {
            Some(ca) => {
                &&& start <= ca.0 <= doc@.len()
                &&& ca.0 < ca.1 <= doc@.len()
                &&& find_close(f@, doc@.skip(start as int)) == Some(
                    (doc@.subrange(start as int, ca.0 as int), doc@.skip(ca.1 as int)),
                )
            },
            None => find_close(f@, doc@.skip(start as int)) is None,
        },
{
    let n = doc.len();
    let mut p = start;
    proof {
        assert(doc@.subrange(start as int, start as int) =~= Seq::<u8>::empty());
        match find_close(f@, doc@.skip(start as int)) {
            None => {},
            Some(ra) => {
                assert(Seq::<u8>::empty() + ra.0 =~= ra.0);
            },
        }
    }
    loop
        invariant
            start <= p <= n,
            n == doc@.len(),
            find_close(f@, doc@.skip(start as int)) == close_map(
                doc@.subrange(start as int, p as int),
                find_close(f@, doc@.skip(p as int)),
            ),
        decreases n - p,
    {
        let ghost sp = doc@.skip(p as int);
        let k = find_byte_in(doc, p, NL);
        proof {
            assert(find_byte(sp, NL) == k - p);
        }
        if k == n {
            proof {
                assert(find_close(f@, sp) is None);
            }
            return None;
        }
        proof {
            assert(sp.take(k - p) =~= doc@.subrange(p as int, k as int));
        }
        if range_eq(doc, p, k, f) {
            proof {
                assert(sp.skip(k - p + 1) =~= doc@.skip(k as int + 1));
                assert(find_close(f@, sp) == Some(
                    (Seq::<u8>::empty(), doc@.skip(k as int + 1)),
                ));
                assert(doc@.subrange(start as int, p as int) + Seq::<u8>::empty()
                    =~= doc@.subrange(start as int, p as int));
            }
            return Some((p, k + 1));
        }
        proof {
            assert(sp.take(k - p + 1) =~= doc@.subrange(p as int, k as int + 1));
            assert(sp.skip(k - p + 1) =~= doc@.skip(k as int + 1));
            assert(find_close(f@, sp) == close_map(
                doc@.subrange(p as int, k as int + 1),
                find_close(f@, doc@.skip(k as int + 1)),
            ));
            match find_close(f@, doc@.skip(k as int + 1)) {
                None => {},
                Some(ra) => {
                    assert(doc@.subrange(start as int, p as int) + (doc@.subrange(
                        p as int,
                        k as int + 1,
                    ) + ra.0) =~= doc@.subrange(start as int, k as int + 1) + ra.0);
                },
            }
        }
        p = k + 1;
    }
}

/// Decodes a container into its records.
///
/// Strict: `NotAContainer` exactly when the input does not begin with the
/// magic marker; `MalformedSection` exactly when what follows departs from
/// the section grammar, carrying the last heading read if one was.  On
/// success the records come back in document order, duplicates included.
#[verifier::rlimit(100)]
pub fn decode(doc: &[u8]) -> (r: Result<Vec<FileRecord>, CodecError>)
    ensures
        match r {
            Ok(v) => spec_decode(doc@) == Ok::<Seq<RecordModel>, ErrModel>(records_view(v@)),
            Err(e) => spec_decode(doc@) == Err::<Seq<RecordModel>, ErrModel>(e@),
        },
{
    let n = doc.len();
    let m = magic_marker_bytes();
    let ghost ml = magic_marker().len() as int;
    if n < m.len() {
        return Err(CodecError::NotAContainer);
    }
    if !range_eq(doc, 0, m.len(), m.as_slice()) {
        proof {
            assert(doc@.take(ml) =~= doc@.subrange(0, ml));
        }
        return Err(CodecError::NotAContainer);
    }
    proof {
        assert(doc@.take(ml) =~= doc@.subrange(0, ml));
        assert(marker_present(doc@));
    }
    let ghost s0 = doc@.skip(ml);
    let mut recs: Vec<FileRecord> = Vec::new();
    let mut pos = m.len();
    proof {
        assert(records_view(recs@) =~= Seq::<RecordModel>::empty());
        lemma_prepend_all_nil(parse_sections(doc@.skip(pos as int)));
    }
    let h = {
        proof {
            reveal_strlit("## ");
            assert("## ".is_ascii());
        }
        lit_vec("## ")
    };
    let ph = {
        proof {
            reveal_strlit("(binary file omitted)");
            assert("(binary file omitted)".is_ascii());
        }
        lit_vec("(binary file omitted)")
    };
    loop
        invariant
            m.len() <= pos <= n,
            n == doc@.len(),
            s0 == doc@.skip(ml),
            ml == magic_marker().len(),
            m@ == magic_marker(),
            h@ == lit("## "),
            ph@ == placeholder(),
            marker_present(doc@),
            parse_sections(s0) == prepend_all(
                records_view(recs@),
                parse_sections(doc@.skip(pos as int)),
            ),
        decreases n - pos,
    {
        let ghost s = doc@.skip(pos as int);
        if pos == n {
            proof {
                assert(s =~= Seq::<u8>::empty());
                assert(parse_sections(s) == Ok::<Seq<RecordModel>, ErrModel>(
                    Seq::<RecordModel>::empty(),
                ));
                assert(records_view(recs@) + Seq::<RecordModel>::empty() =~= records_view(recs@));
            }
            return Ok(recs);
        }
        let i = find_byte_in(doc, pos, NL);
        proof {
            assert(find_byte(s, NL) == i - pos);
        }
        if i == n {
            return Err(CodecError::MalformedSection { path: None });
        }
        proof {
            assert(s.take(i - pos) =~= doc@.subrange(pos as int, i as int));
        }
        if i - pos <= 3 {
            proof {
                let line = s.take(i - pos);
                assert(!(line.len() > 3));
            }
            return Err(CodecError::MalformedSection { path: None });
        }
        if !range_eq(doc, pos, pos + 3, h.as_slice()) {
            proof {
                let line = s.take(i - pos);
                assert(line.take(3) =~= doc@.subrange(pos as int, pos + 3));
            }
            return Err(CodecError::MalformedSection { path: None });
        }
        let path = copy_range(doc, pos + 3, i);
        proof {
            let line = s.take(i - pos);
            assert(line.take(3) =~= doc@.subrange(pos as int, pos + 3));
            assert(line.skip(3) =~= doc@.subrange(pos + 3, i as int));
            assert(path@ == line.skip(3));
        }
        if i + 1 == n || doc[i + 1] != NL {
            proof {
                let rest = s.skip(i - pos + 1);
                assert(rest =~= doc@.skip(i as int + 1));
            }
            return Err(CodecError::MalformedSection { path: Some(path) });
        }
        let body_start = i + 2;
        let ghost body = doc@.skip(body_start as int);
        proof {
            let rest = s.skip(i - pos + 1);
            assert(rest =~= doc@.skip(i as int + 1));
            assert(rest[0] == NL);
            assert(rest.skip(1) =~= body);
        }
        let j = find_byte_in(doc, body_start, NL);
        proof {
            assert(find_byte(body, NL) == j - body_start);
        }
        if j == n {
            return Err(CodecError::MalformedSection { path: Some(path) });
        }
        let ghost bline = body.take(j - body_start);
        proof {
            assert(bline =~= doc@.subrange(body_start as int, j as int));
        }
        if range_eq(doc, body_start, j, ph.as_slice()) {
            // The placeholder line: a binary record.
            if j + 1 == n || doc[j + 1] != NL {
                proof {
                    let brest = body.skip(j - body_start + 1);
                    assert(brest =~= doc@.skip(j as int + 1));
                }
                return Err(CodecError::MalformedSection { path: Some(path) });
            }
            let rec = FileRecord { relative_path: path, kind: ContentKind::Binary };
            proof {
                let brest = body.skip(j - body_start + 1);
                assert(brest =~= doc@.skip(j as int + 1));
                assert(brest[0] == NL);
                assert(brest.skip(1) =~= doc@.skip(j as int + 2));
                assert(parse_sections(s) == prepend_record(
                    rec@,
                    parse_sections(doc@.skip(j as int + 2)),
                ));
                lemma_prepend_all_step(
                    records_view(recs@),
                    rec@,
                    parse_sections(doc@.skip(j as int + 2)),
                );
                assert(records_view(recs@.push(rec)) =~= records_view(recs@).push(rec@));
            }
            recs.push(rec);
            pos = j + 2;
        } else {
            // An opening fence line: a text record.
            let flen = run_len_in(doc, body_start, j, BT);
            proof {
                assert(run_len(bline, BT) == flen);
            }
            if flen < 3 {
                return Err(CodecError::MalformedSection { path: Some(path) });
            }
            let fv = copy_range(doc, body_start, body_start + flen);
            let tag = copy_range(doc, body_start + flen, j);
            proof {
                assert(bline.take(flen as int) =~= doc@.subrange(
                    body_start as int,
                    body_start + flen,
                ));
                assert(bline.skip(flen as int) =~= doc@.subrange(body_start + flen, j as int));
                assert(body.skip(j - body_start + 1) =~= doc@.skip(j as int + 1));
            }
            let close = scan_close(doc, j + 1, fv.as_slice());
            match close {
                None => {
                    return Err(CodecError::MalformedSection { path: Some(path) });
                },
                Some((ce, af)) => {
                    if af == n || doc[af] != NL {
                        return Err(CodecError::MalformedSection { path: Some(path) });
                    }
                    let payload = if ce == j + 1 {
                        Vec::new()
                    } else {
                        copy_range(doc, j + 1, ce - 1)
                    };
                    proof {
                        let region = doc@.subrange(j as int + 1, ce as int);
                        if ce == j + 1 {
                            assert(region.len() == 0);
                            assert(payload@ =~= region);
                        } else {
                            assert(region.take(region.len() - 1) =~= doc@.subrange(
                                j as int + 1,
                                ce as int - 1,
                            ));
                        }
                    }
                    let rec = FileRecord {
                        relative_path: path,
                        kind: ContentKind::Text { payload, tag },
                    };
                    proof {
                        let after = doc@.skip(af as int);
                        assert(after[0] == NL);
                        assert(after.skip(1) =~= doc@.skip(af as int + 1));
                        assert(parse_sections(s) == prepend_record(
                            rec@,
                            parse_sections(doc@.skip(af as int + 1)),
                        ));
                        lemma_prepend_all_step(
                            records_view(recs@),
                            rec@,
                            parse_sections(doc@.skip(af as int + 1)),
                        );
                        assert(records_view(recs@.push(rec)) =~= records_view(recs@).push(rec@));
                    }
                    recs.push(rec);
                    pos = af + 1;
                },
            }
        }
    }
}

/// Scanning for a closing fence passes over a newline-terminated region
/// none of whose complete lines equals the fence.
proof fn lemma_find_close_append(f: Seq<u8>, p: Seq<u8>, t: Seq<u8>)
    requires
        f.len() > 0,
        p.len() > 0 ==> p.last() == NL,
        forall|k: int| 0 <= k < split_bytes(p, NL).len() - 1 ==> split_bytes(p, NL)[k] != f,
    ensures
        find_close(f, p + t) == match find_close(f, t) {
            None => None::<(Seq<u8>, Seq<u8>)>,
            Some(ra) => Some((p + ra.0, ra.1)),
        },
    decreases p.len(),
{
    if p.len() == 0 {
        assert(p + t =~= t);
        match find_close(f, t) {
            None => {},
            Some(ra) => {
                assert(p + ra.0 =~= ra.0);
            },
        }
    } else {
        let i0 = find_byte(p, NL);
        lemma_find_byte(p, NL);
        assert(i0 < p.len()) by {
            if i0 == p.len() {
                assert(p[p.len() - 1] != NL);
            }
        }
        lemma_find_byte_concat(p, t, NL);
        let pt = p + t;
        assert(find_byte(pt, NL) == i0);
        assert(pt.take(i0 as int) =~= p.take(i0 as int));
        // The first line of `p` is a complete line, hence differs from `f`.
        lemma_split_len(p.skip(i0 as int + 1), NL);
        assert(split_bytes(p, NL) == seq![p.take(i0 as int)] + split_bytes(p.skip(i0 as int + 1), NL));
        assert(split_bytes(p, NL)[0] == p.take(i0 as int));
        assert(split_bytes(p, NL).len() >= 2);
        assert(p.take(i0 as int) != f);
        let p2 = p.skip(i0 as int + 1);
        assert(pt.skip(i0 as int + 1) =~= p2 + t);
        assert(p2.len() > 0 ==> p2.last() == NL) by {
            if p2.len() > 0 {
                assert(p2.last() == p.last());
            }
        }
        assert forall|k: int| 0 <= k < split_bytes(p2, NL).len() - 1 implies split_bytes(p2, NL)[k]
            != f by {
            assert(split_bytes(p, NL)[k + 1] == split_bytes(p2, NL)[k]);
        }
        lemma_find_close_append(f, p2, t);
        match find_close(f, t) {
            None => {},
            Some(ra) => {
                assert(p.take(i0 as int + 1) + (p2 + ra.0) =~= p + ra.0);
            },
        }
    }
}

/// The bytes of `lit("## ")` and of the placeholder and marker lines.
proof fn lemma_literal_facts()
    ensures
        lit("## ").len() == 3,
        lit("## ")[0] == 35 && lit("## ")[1] == 35 && lit("## ")[2] == 32,
        forall|i: int| 0 <= i < lit("## ").len() ==> lit("## ")[i] != NL,
        placeholder().len() == 21,
        forall|i: int| 0 <= i < placeholder().len() ==> placeholder()[i] != NL,
        placeholder()[0] == 40,
{
    reveal_strlit("## ");
    reveal_strlit("(binary file omitted)");
}

/// Parsing the encoding of one well-formed record peels off exactly that
/// record and leaves the rest of the stream.
proof fn lemma_parse_section(r: RecordModel, rest: Seq<u8>)
    requires
        wf_record(r),
    ensures
        parse_sections(section_of(r) + rest) == prepend_record(r, parse_sections(rest)),
{
    lemma_literal_facts();
    let s = section_of(r) + rest;
    let hd = lit("## ") + r.path;
    let ln = hd.len() as int;
    assert(s.len() > 0);
    // The heading line runs to the first newline.
    assert(forall|j: int| 0 <= j < ln ==> s[j] != NL) by {
        assert(forall|j: int| 0 <= j < 3 ==> s[j] == lit("## ")[j]);
        assert(forall|j: int| 3 <= j < ln ==> s[j] == r.path[j - 3]);
    }
    assert(s[ln] == NL);
    lemma_find_byte_is(s, NL, ln);
    let line = s.take(ln);
    assert(line =~= hd);
    assert(line.len() > 3);
    assert(line.take(3) =~= lit("## "));
    assert(line.skip(3) =~= r.path);
    let rest1 = s.skip(ln + 1);
    assert(rest1[0] == NL);
    let body = rest1.skip(1);
    match r.kind {
        KindModel::Binary => {
            assert(body =~= placeholder() + seq![NL, NL] + rest);
            let pl = placeholder().len() as int;
            assert(forall|j: int| 0 <= j < pl ==> body[j] == placeholder()[j]);
            assert(body[pl] == NL);
            lemma_find_byte_is(body, NL, pl);
            assert(body.take(pl) =~= placeholder());
            let brest = body.skip(pl + 1);
            assert(brest[0] == NL);
            assert(brest.skip(1) =~= rest);
            assert(parse_sections(s) == prepend_record(
                RecordModel { path: line.skip(3), kind: KindModel::Binary },
                parse_sections(rest),
            ));
            assert(RecordModel { path: line.skip(3), kind: KindModel::Binary } == r);
        },
        KindModel::Text { payload, tag } => {
            let fl = fence_len(payload) as int;
            let f = fence_seq(fence_len(payload));
            assert(body =~= f + tag + seq![NL] + payload + seq![NL] + f + seq![NL, NL] + rest);
            let bl = fl + tag.len() as int;
            // The opening fence line runs to the first newline of the body.
            assert(forall|j: int| 0 <= j < fl ==> body[j] == BT);
            assert(forall|j: int| fl <= j < bl ==> body[j] == tag[j - fl]);
            assert(forall|j: int| 0 <= j < bl ==> body[j] != NL);
            assert(body[bl] == NL);
            lemma_find_byte_is(body, NL, bl);
            let bline = body.take(bl);
            assert(bline != placeholder()) by {
                assert(bline[0] == BT);
                assert(placeholder()[0] == 40);
            }
            lemma_run_len_is(bline, BT, fl);
            assert(run_len(bline, BT) >= 3);
            assert(bline.take(fl) =~= f);
            assert(bline.skip(fl) =~= tag);
            let brest = body.skip(bl + 1);
            let p = payload + seq![NL];
            let t = f + seq![NL] + (seq![NL] + rest);
            assert(brest =~= p + t);
            // The closing scan finds the fence line right after the payload.
            assert(forall|j: int| 0 <= j < fl ==> t[j] == BT && t[j] != NL);
            assert(t[fl] == NL);
            lemma_find_byte_is(t, NL, fl);
            assert(t.take(fl) =~= f);
            assert(find_close(f, t) == Some((Seq::<u8>::empty(), t.skip(fl + 1))));
            lemma_split_terminated(payload, NL);
            lemma_fence_safety(payload);
            assert forall|k: int| 0 <= k < split_bytes(p, NL).len() - 1 implies split_bytes(p, NL)[k]
                != f by {
                assert(split_bytes(p, NL)[k] == split_bytes(payload, NL)[k]);
                if split_bytes(payload, NL)[k] == f {
                    lemma_line_run_of_fence(fence_len(payload));
                    assert(line_run(split_bytes(payload, NL)[k]) < fence_len(payload));
                }
            }
            lemma_find_close_append(f, p, t);
            assert(find_close(f, brest) == Some((p + Seq::<u8>::empty(), t.skip(fl + 1))));
            let region = p + Seq::<u8>::empty();
            assert(region =~= p);
            let after = t.skip(fl + 1);
            assert(after =~= seq![NL] + rest);
            assert(after[0] == NL);
            assert(region.len() > 0);
            assert(region.take(region.len() - 1) =~= payload);
            assert(after.skip(1) =~= rest);
            assert(parse_sections(s) == prepend_record(
                RecordModel { path: line.skip(3), kind: KindModel::Text {
                    payload: region.take(region.len() - 1),
                    tag: bline.skip(fl),
                } },
                parse_sections(rest),
            ));
            assert(RecordModel { path: line.skip(3), kind: KindModel::Text {
                payload: region.take(region.len() - 1),
                tag: bline.skip(fl),
            } } == r);
        },
    }
}

proof fn lemma_parse_concat(rs: Seq<RecordModel>)
    requires
        wf_records(rs),
    ensures
        parse_sections(sections_of(rs)) == Ok::<Seq<RecordModel>, ErrModel>(rs),
    decreases rs.len(),
{
    if rs.len() == 0 {
        assert(sections_of(rs).len() == 0);
        assert(rs =~= Seq::<RecordModel>::empty());
        assert(parse_sections(sections_of(rs)) == Ok::<Seq<RecordModel>, ErrModel>(
            Seq::<RecordModel>::empty(),
        ));
    } else {
        assert(wf_records(rs.skip(1))) by {
            assert(forall|i: int| 0 <= i < rs.skip(1).len() ==> rs.skip(1)[i] == rs[i + 1]);
        }
        lemma_parse_concat(rs.skip(1));
        assert(wf_record(rs[0]));
        lemma_parse_section(rs[0], sections_of(rs.skip(1)));
        assert(sections_of(rs) == section_of(rs[0]) + sections_of(rs.skip(1)));
        assert(parse_sections(sections_of(rs)) == prepend_record(
            rs[0],
            parse_sections(sections_of(rs.skip(1))),
        ));
        assert(parse_sections(sections_of(rs)) == Ok::<Seq<RecordModel>, ErrModel>(
            seq![rs[0]] + rs.skip(1),
        ));
        assert(seq![rs[0]] + rs.skip(1) =~= rs);
    }
}

/// The round trip: decoding the container encoded from any well-formed
/// records yields exactly those records — text payloads byte for byte, and
/// binary records as their path with no payload.
pub proof fn lemma_round_trip(rs: Seq<RecordModel>)
    requires
        wf_records(rs),
    ensures
        spec_decode(document_of(rs)) == Ok::<Seq<RecordModel>, ErrModel>(rs),
{
    crate::encode::lemma_self_recognition(rs);
    assert(document_of(rs).skip(magic_marker().len() as int) =~= sections_of(rs));
    lemma_parse_concat(rs);
}

} // verus!
