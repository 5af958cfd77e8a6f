//! Round-trip, fence-safety, self-recognition, and classification tests,
//! plus concrete scenarios for the container format and its errors.

use src2md::classify::classify;
use src2md::decode::decode;
use src2md::encode::{encode, encode_record, is_container_prefix, magic_marker_bytes, make_record};
use src2md::fence::calculate_fence;
use src2md::lang::get_language_tag;
use src2md::mdbook::{generate_chapter_content, MdbookWriter};
use src2md::paths::{is_hidden, is_in_specific_paths, is_safe_rel_path, PathSelector};
use src2md::record::{CodecError, ContentKind, FileRecord};

fn contains_bytes(hay: &[u8], needle: &[u8]) -> bool {
    hay.windows(needle.len()).any(|w| w == needle)
}

fn text_record(path: &[u8], payload: &[u8]) -> FileRecord {
    match make_record(path.to_vec(), payload.to_vec()) {
        Ok(r) => r,
        Err(e) => panic!("record for {:?} failed: {:?}", path, e),
    }
}

#[test]
fn round_trips_text_and_binary_records() {
    let records = vec![
        text_record(b"src/main.rs", b"fn main() {\n    println!(\"Hello!\");\n}"),
        text_record(b"src/lib.rs", b"pub fn add(a: i32, b: i32) -> i32 {\n    a + b\n}"),
        text_record(b"empty.txt", b""),
        text_record(b"trailing.txt", b"ends with newline\n"),
        text_record(b"README.md", b"# Example\n\n```rust\nfn main() {}\n```\n"),
        FileRecord {
            relative_path: b"logo.png".to_vec(),
            kind: ContentKind::Binary,
        },
    ];
    let doc = encode(&records);
    let back = decode(&doc).expect("decoding an encoded container");
    assert_eq!(back, records);
}

#[test]
fn round_trip_keeps_duplicate_paths_in_order() {
    let records = vec![
        text_record(b"same.txt", b"first"),
        text_record(b"same.txt", b"second"),
    ];
    let doc = encode(&records);
    let back = decode(&doc).expect("decoding an encoded container");
    assert_eq!(back.len(), 2);
    assert_eq!(back, records);
}

#[test]
fn fence_grows_past_any_leading_backtick_run() {
    // A payload line opening with k backticks forces a fence longer than k.
    for k in 0..12usize {
        let mut payload = b"line one\n".to_vec();
        payload.extend(std::iter::repeat(b'`').take(k));
        payload.extend_from_slice(b"opening run\n  `indented`\n");
        let fence = calculate_fence(&payload);
        assert!(fence.len() > k);
        assert!(fence.len() >= 3);
        assert!(fence.iter().all(|&b| b == b'`'));
        // And the fenced payload survives a round trip untruncated.
        let records = vec![text_record(b"f.md", &payload)];
        let back = decode(&encode(&records)).expect("decoding");
        assert_eq!(back, records);
    }
}

#[test]
fn fence_counts_whitespace_trimmed_runs() {
    assert_eq!(calculate_fence(b"   ```` indented run"), b"`````".to_vec());
    assert_eq!(calculate_fence(b"mid-line ```` does not count"), b"```".to_vec());
    assert_eq!(calculate_fence(b"``````"), b"```````".to_vec());
}

#[test]
fn recognises_its_own_output() {
    let records = vec![text_record(b"a.rs", b"fn a() {}")];
    let doc = encode(&records);
    assert!(is_container_prefix(&doc));
    // A sample only as long as the marker suffices.
    let marker = magic_marker_bytes();
    assert!(is_container_prefix(&doc[..marker.len()]));
    // Shorter samples and ordinary files are never recognised.
    assert!(!is_container_prefix(&doc[..marker.len() - 1]));
    assert!(!is_container_prefix(b"# just a readme\n"));
}

#[test]
fn rerun_excludes_previous_output() {
    // First run over two source files.
    let sources = vec![
        (b"a.rs".to_vec(), b"// version 1".to_vec()),
        (b"b.rs".to_vec(), b"// other".to_vec()),
    ];
    let records: Vec<FileRecord> = sources
        .iter()
        .map(|(p, c)| text_record(p, c))
        .collect();
    let first = encode(&records);

    // Second run enumerates the previous output as a candidate file; the
    // marker check excludes it, so the new container equals the first.
    let mut candidates = sources.clone();
    candidates.push((b"output.md".to_vec(), first.clone()));
    let second_records: Vec<FileRecord> = candidates
        .iter()
        .filter(|(_, c)| !is_container_prefix(c))
        .map(|(p, c)| text_record(p, c))
        .collect();
    let second = encode(&second_records);
    assert_eq!(second, first);
    assert!(!contains_bytes(&second, b"output.md"));
}

#[test]
fn classifies_null_bytes_as_binary() {
    // A null anywhere in the scanned lead makes the buffer binary.
    let mut buf = vec![b'a'; 600];
    buf[500] = 0;
    assert!(classify(&buf));
    assert!(classify(&[0x00]));
    assert!(classify(&[0x00, 0xFF, 0xAA, 0x55]));
}

#[test]
fn classifies_plain_text_as_text() {
    assert!(!classify(b"fn main() {}"));
    assert!(!classify(b""));
    assert!(!classify("Zeichen wie \u{00e4} und \u{20ac} sind Text".as_bytes()));
}

#[test]
fn null_scan_stops_after_the_first_kilobyte() {
    // The detector only scans the first 1024 bytes for nulls, so a later
    // null leaves the buffer classified as text.
    let mut buf = vec![b'a'; 2000];
    buf[1500] = 0;
    assert!(!classify(&buf));
    buf[1000] = 0;
    assert!(classify(&buf));
}

#[test]
fn scenario_rust_source_file() {
    let records = vec![text_record(b"example.rs", b"fn main() {}")];
    let doc = encode(&records);
    assert!(contains_bytes(&doc, b"## example.rs\n"));
    assert!(contains_bytes(&doc, b"```rust\n"));
    assert!(contains_bytes(&doc, b"```rust\nfn main() {}\n```\n"));
}

#[test]
fn scenario_fence_like_content() {
    let payload = b"# Example\n\n```rust\nfn main() {}\n```";
    let records = vec![text_record(b"README.md", payload)];
    assert!(calculate_fence(payload).len() >= 4);
    let doc = encode(&records);
    assert!(contains_bytes(&doc, b"````markdown\n"));
    let back = decode(&doc).expect("decoding");
    match &back[0].kind {
        ContentKind::Text { payload: p, .. } => assert_eq!(p, payload),
        ContentKind::Binary => panic!("text came back binary"),
    }
}

#[test]
fn scenario_binary_file() {
    let rec = make_record(b"binary_file.bin".to_vec(), vec![0x00, 0xFF, 0xAA, 0x55])
        .expect("binary records always build");
    assert_eq!(rec.kind, ContentKind::Binary);
    let doc = encode(&vec![rec]);
    assert!(contains_bytes(&doc, b"## binary_file.bin\n\n(binary file omitted)\n"));
    // No fence, no payload bytes.
    assert!(!contains_bytes(&doc, b"```"));
    let back = decode(&doc).expect("decoding");
    assert_eq!(back[0].kind, ContentKind::Binary);
}

#[test]
fn scenario_not_a_container() {
    let r = decode(b"# some ordinary markdown\n\ntext\n");
    assert_eq!(r, Err(CodecError::NotAContainer));
    let r = decode(b"");
    assert_eq!(r, Err(CodecError::NotAContainer));
}

#[test]
fn malformed_sections_name_the_path() {
    let mut doc = magic_marker_bytes();
    doc.extend_from_slice(b"## a.rs\n\n```\nnever closed\n");
    assert_eq!(
        decode(&doc),
        Err(CodecError::MalformedSection { path: Some(b"a.rs".to_vec()) })
    );

    let mut doc = magic_marker_bytes();
    doc.extend_from_slice(b"not a heading\n");
    assert_eq!(decode(&doc), Err(CodecError::MalformedSection { path: None }));
}

#[test]
fn invalid_utf8_text_is_an_encoding_error() {
    // No nulls, no magic number: classified text, but not UTF-8.
    let r = make_record(b"f.txt".to_vec(), vec![0xC3, 0x28, b'a']);
    assert_eq!(r, Err(CodecError::Encoding));
}

#[test]
fn empty_buffer_is_an_empty_text_record() {
    let rec = make_record(b"empty.txt".to_vec(), Vec::new()).expect("empty input is text");
    assert_eq!(
        rec.kind,
        ContentKind::Text { payload: Vec::new(), tag: Vec::new() }
    );
}

#[test]
fn language_tags_cover_names_and_extensions() {
    assert_eq!(get_language_tag(b"script.py"), b"python".to_vec());
    assert_eq!(get_language_tag(b"markup.html"), b"html".to_vec());
    assert_eq!(get_language_tag(b"dir/UPPER.RS"), b"rust".to_vec());
    assert_eq!(get_language_tag(b"conf.yml"), b"yaml".to_vec());
    assert_eq!(get_language_tag(b"Makefile"), b"makefile".to_vec());
    assert_eq!(get_language_tag(b"tools/Dockerfile"), b"dockerfile".to_vec());
    assert_eq!(get_language_tag(b".env"), b"dotenv".to_vec());
    assert_eq!(get_language_tag(b".gitignore"), b"".to_vec());
    assert_eq!(get_language_tag(b"noext"), b"".to_vec());
    assert_eq!(get_language_tag(b"odd.xyz"), b"".to_vec());
}

#[test]
fn encodes_the_documented_byte_format() {
    let records = vec![
        text_record(b"a.txt", b"hi"),
        FileRecord { relative_path: b"b.bin".to_vec(), kind: ContentKind::Binary },
    ];
    let mut expected = magic_marker_bytes();
    expected.extend_from_slice(b"## a.txt\n\n```\nhi\n```\n\n## b.bin\n\n(binary file omitted)\n\n");
    assert_eq!(encode(&records), expected);
}

#[test]
fn encodes_one_record_at_a_time() {
    let rec = text_record(b"a.txt", b"hi");
    assert_eq!(encode_record(&rec), b"## a.txt\n\n```\nhi\n```\n\n".to_vec());
}

#[test]
fn summary_lists_chapters_with_content() {
    let mut w = MdbookWriter::new(b"/proj".to_vec(), b"/proj/book".to_vec());
    w.add_files(&vec![
        b"README.md".to_vec(),
        b"src/main.rs".to_vec(),
        b"src/utils/helpers.rs".to_vec(),
    ]);
    let summary = w.generate_summary();
    let expected =
        b"# Summary\n\n- [Introduction](./introduction.md)\n- [src](./src.md)\n  - [utils](./src/utils.md)\n";
    assert_eq!(summary, expected.to_vec());
}

#[test]
fn summary_without_root_files_has_no_introduction() {
    let mut w = MdbookWriter::new(Vec::new(), Vec::new());
    w.add_files(&vec![b"src/lib.rs".to_vec()]);
    let summary = w.generate_summary();
    assert_eq!(summary, b"# Summary\n\n- [src](./src.md)\n".to_vec());
}

#[test]
fn chapter_page_holds_file_sections() {
    let records = vec![
        text_record(b"main.rs", b"fn main() {}"),
        FileRecord { relative_path: b"icon.bin".to_vec(), kind: ContentKind::Binary },
    ];
    let page = generate_chapter_content(b"src", &records);
    let expected =
        b"# src\n\n## main.rs\n\n```rust\nfn main() {}\n```\n\n## icon.bin\n\n(binary file omitted)\n\n";
    assert_eq!(page, expected.to_vec());
}

#[test]
fn hidden_paths_start_with_a_dot() {
    assert!(is_hidden(b".hidden.rs"));
    assert!(is_hidden(b"src/.env"));
    assert!(!is_hidden(b"src/main.rs"));
    assert!(!is_hidden(b"dot.in.name"));
}

#[test]
fn specific_path_selection() {
    let sels = vec![
        PathSelector { path: b"/p/include.rs".to_vec(), is_file: true },
        PathSelector { path: b"/p/src".to_vec(), is_file: false },
    ];
    assert!(is_in_specific_paths(b"/p/include.rs", &sels));
    assert!(is_in_specific_paths(b"/p/src/deep/file.rs", &sels));
    assert!(!is_in_specific_paths(b"/p/exclude.rs", &sels));
    assert!(!is_in_specific_paths(b"/p/srcfile.rs", &sels));
}

#[test]
fn safe_relative_paths() {
    assert!(is_safe_rel_path(b"a/b/c.txt"));
    assert!(is_safe_rel_path(b"file.rs"));
    assert!(!is_safe_rel_path(b""));
    assert!(!is_safe_rel_path(b"/etc/passwd"));
    assert!(!is_safe_rel_path(b"../outside"));
    assert!(!is_safe_rel_path(b"a/../b"));
    assert!(!is_safe_rel_path(b"a//b"));
    assert!(!is_safe_rel_path(b"a/b/"));
}

#[test]
fn decode_reads_long_fences() {
    let mut doc = magic_marker_bytes();
    doc.extend_from_slice(b"## f.md\n\n``````\n```\n````\n`````\n``````\n\n");
    let back = decode(&doc).expect("decoding long fences");
    assert_eq!(back.len(), 1);
    match &back[0].kind {
        ContentKind::Text { payload, .. } => assert_eq!(payload, b"```\n````\n`````"),
        ContentKind::Binary => panic!("text came back binary"),
    }
}
