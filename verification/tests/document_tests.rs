use file_extractor::content::{normalize_content, size_within_limit, MAX_FILE_SIZE};
use file_extractor::document::{
    render_document, render_entry, render_header, success_message, DocEntry, RunGate,
};
use file_extractor::text::{base_name, parent_dir};

const BANNER: &str = "========================================";

#[test]
fn header_is_banner_label_banner_blank() {
    let h = render_header("My Project");
    let expected = format!("{}\nMy Project\n{}\n\n", BANNER, BANNER);
    assert_eq!(h, expected.as_bytes());
}

#[test]
fn entry_block_for_readable_file() {
    let e = DocEntry {
        path: "/r/src/main.rs".to_string(),
        content: Ok(b"fn main() {}\n".to_vec()),
    };
    let b = render_entry(&e);
    let expected =
        "=== PATH: /r/src/main.rs ===\n=== NAME: main.rs ===\nfn main() {}\n\n\n";
    assert_eq!(b, expected.as_bytes());
}

#[test]
fn entry_block_for_unreadable_file() {
    let e = DocEntry {
        path: "/r/big.bin".to_string(),
        content: Err("File too large: 60MB (max: 50MB)".to_string()),
    };
    let b = render_entry(&e);
    let expected = "=== PATH: /r/big.bin ===\n=== NAME: big.bin ===\n[Error: unable to read file - File too large: 60MB (max: 50MB)]\n\n";
    assert_eq!(b, expected.as_bytes());
}

#[test]
fn failed_file_does_not_abort_the_document() {
    let entries = vec![
        DocEntry { path: "/r/a.txt".to_string(), content: Ok(b"alpha".to_vec()) },
        DocEntry { path: "/r/big.bin".to_string(), content: Err("too big".to_string()) },
        DocEntry { path: "/r/b.txt".to_string(), content: Ok(b"beta".to_vec()) },
    ];
    let doc = render_document("Demo", &entries);
    let text = String::from_utf8(doc).unwrap();
    assert!(text.contains("[Error: unable to read file - too big]"));
    assert!(text.contains("alpha"));
    // The entry after the failed one is still present.
    assert!(text.contains("=== PATH: /r/b.txt ===\n=== NAME: b.txt ===\nbeta\n\n"));
}

#[test]
fn document_layout_is_exact() {
    let entries = vec![DocEntry { path: "/r/a.txt".to_string(), content: Ok(b"hi".to_vec()) }];
    let doc = render_document("Src", &entries);
    let expected = format!(
        "{}\nSrc\n{}\n\n=== PATH: /r/a.txt ===\n=== NAME: a.txt ===\nhi\n\n",
        BANNER, BANNER
    );
    assert_eq!(doc, expected.as_bytes());
}

#[test]
fn header_keeps_non_ascii_label() {
    let h = render_header("Projekt Übersicht");
    let expected = format!("{}\nProjekt Übersicht\n{}\n\n", BANNER, BANNER);
    assert_eq!(h, expected.as_bytes());
}

#[test]
fn generation_is_deterministic() {
    let entries = vec![
        DocEntry { path: "/r/a.txt".to_string(), content: Ok(b"one".to_vec()) },
        DocEntry { path: "/r/b.txt".to_string(), content: Err("denied".to_string()) },
    ];
    let d1 = render_document("Same", &entries);
    let d2 = render_document("Same", &entries);
    assert_eq!(d1, d2);
}

#[test]
fn success_message_names_file_and_directory() {
    let m = success_message("/tmp/out/result.txt");
    assert_eq!(m, "File generated successfully!\n\n\u{1f4c4} result.txt\n\u{1f4c1} /tmp/out");
}

#[test]
fn path_splitting_handles_both_separators() {
    assert_eq!(base_name("/a/b/c.txt"), "c.txt");
    assert_eq!(parent_dir("/a/b/c.txt"), "/a/b");
    assert_eq!(base_name("C:\\dir\\f.txt"), "f.txt");
    assert_eq!(parent_dir("C:\\dir\\f.txt"), "C:\\dir");
    assert_eq!(base_name("plain.txt"), "plain.txt");
    assert_eq!(parent_dir("plain.txt"), "");
}

#[test]
fn gate_admits_one_run_at_a_time() {
    let mut g = RunGate::new();
    assert!(g.try_acquire());
    // A second attempt while the first run holds the permit is refused.
    assert!(!g.try_acquire());
    g.release();
    // Once released, the next attempt succeeds again.
    assert!(g.try_acquire());
    g.release();
}

#[test]
fn gate_released_after_failure_path() {
    let mut g = RunGate::new();
    assert!(g.try_acquire());
    // Release after an error leaves the permit free for the next run.
    g.release();
    assert!(g.try_acquire());
    g.release();
}

#[test]
fn utf8_content_passes_through_unchanged() {
    let bytes = "héllo wörld — ok\n".as_bytes().to_vec();
    assert_eq!(normalize_content(&bytes), bytes);
}

#[test]
fn invalid_utf8_content_is_re_encoded_bytewise() {
    // 0xE9 alone is not valid UTF-8; read as the character U+00E9 it becomes
    // the two bytes 0xC3 0xA9.
    let bytes = vec![0x41, 0xE9, 0x42];
    assert_eq!(normalize_content(&bytes), vec![0x41, 0xC3, 0xA9, 0x42]);
}

#[test]
fn empty_content_stays_empty() {
    let bytes: Vec<u8> = Vec::new();
    assert!(normalize_content(&bytes).is_empty());
}

#[test]
fn size_ceiling_is_exact() {
    assert!(size_within_limit(0));
    assert!(size_within_limit(MAX_FILE_SIZE));
    assert!(!size_within_limit(MAX_FILE_SIZE + 1));
    assert_eq!(MAX_FILE_SIZE, 50 * 1024 * 1024);
}
