use base64::Engine;
use diary_store::entry::Entry;
use diary_store::exchange::{export_text, import_entries};
use diary_store::store::{encode_entry_line, load_all, load_entries, new_entry, seal_text, StoreError};

fn entry(id: &str, timestamp: &str, word_count: u32, content: &str) -> Entry {
    Entry {
        id: id.to_string(),
        timestamp: timestamp.to_string(),
        word_count,
        content: content.to_string(),
    }
}

fn assert_same_entry(a: &Entry, b: &Entry) {
    assert_eq!(a.id, b.id);
    assert_eq!(a.timestamp, b.timestamp);
    assert_eq!(a.word_count, b.word_count);
    assert_eq!(a.content, b.content);
}

#[test]
fn round_trip_entry_under_password() {
    let e = entry("a-1", "2024-06-30 23:59", 42, "body with | pipes\nand\nnewlines");
    let line = encode_entry_line(&e, "secret password").unwrap();
    let lines = vec![line];
    let back = load_entries(&lines, "secret password").unwrap();
    assert_eq!(back.len(), 1);
    assert_same_entry(&back[0], &e);
}

#[test]
fn round_trip_empty_password_and_empty_fields() {
    let e = entry("x", "", 0, "");
    let line = encode_entry_line(&e, "").unwrap();
    let back = load_entries(&vec![line], "").unwrap();
    assert_eq!(back.len(), 1);
    assert_same_entry(&back[0], &e);
}

#[test]
fn wrong_key_is_detected() {
    let e = entry("a-1", "2024-01-01 10:00", 5, "hello");
    let line = encode_entry_line(&e, "password a").unwrap();
    let lines = vec![line];
    let r = load_entries(&lines, "password b");
    assert_eq!(r.unwrap_err(), StoreError::WrongKeyOrCorruptData);
}

#[test]
fn append_accumulates_in_order() {
    let e1 = entry("id-1", "2024-01-01 08:00", 3, "first");
    let e2 = entry("id-2", "2024-01-02 09:30", 4, "second");
    let mut lines = Vec::new();
    lines.push(encode_entry_line(&e1, "pw").unwrap());
    lines.push(encode_entry_line(&e2, "pw").unwrap());
    let back = load_entries(&lines, "pw").unwrap();
    assert_eq!(back.len(), 2);
    assert_same_entry(&back[0], &e1);
    assert_same_entry(&back[1], &e2);
    let sums = load_all(Some(&lines), "pw").unwrap();
    assert_eq!(sums.len(), 2);
    assert_eq!(sums[0].date, "2024-01-01");
    assert_eq!(sums[1].date, "2024-01-02");
}

#[test]
fn empty_store_reads_empty_but_export_fails() {
    let sums = load_all(None, "whatever").unwrap();
    assert_eq!(sums.len(), 0);
    let r = export_text(None, "whatever");
    assert_eq!(r.unwrap_err(), StoreError::NotFound);
}

#[test]
fn short_line_is_skipped_not_fatal() {
    let short = base64::engine::general_purpose::STANDARD.encode([0u8; 4]);
    let e = entry("keep", "2024-03-03 07:45", 2, "kept");
    let good = encode_entry_line(&e, "pw").unwrap();
    let lines = vec![short, good];
    let sums = load_all(Some(&lines), "pw").unwrap();
    assert_eq!(sums.len(), 1);
    assert_eq!(sums[0].date, "2024-03-03");
    assert_eq!(sums[0].time, "07:45");
}

#[test]
fn malformed_base64_aborts_the_read() {
    let e = entry("keep", "2024-03-03 07:45", 2, "kept");
    let good = encode_entry_line(&e, "pw").unwrap();
    let lines = vec!["not base64 at all!!!".to_string(), good];
    let r = load_all(Some(&lines), "pw");
    assert_eq!(r.unwrap_err(), StoreError::FormatError);
}

#[test]
fn concrete_scenario_summary() {
    let e = entry("a1", "2024-01-01 10:00", 5, "hello");
    let line = encode_entry_line(&e, "p").unwrap();
    let lines = vec![line];
    let sums = load_all(Some(&lines), "p").unwrap();
    assert_eq!(sums.len(), 1);
    assert_eq!(sums[0].date, "2024-01-01");
    assert_eq!(sums[0].time, "10:00");
    assert_eq!(sums[0].word_count, 5);
}

#[test]
fn export_renders_labeled_blocks() {
    let e1 = entry("a1", "2024-01-01 10:00", 5, "hello");
    let e2 = entry("b2", "2024-01-02 11:00", 7, "two\nlines");
    let lines = vec![
        encode_entry_line(&e1, "p").unwrap(),
        encode_entry_line(&e2, "p").unwrap(),
    ];
    let blob = export_text(Some(&lines), "p").unwrap();
    let expected = "ID:a1\ntimestamp:2024-01-01 10:00\nword_count:5\ncontent:\nhello\n\n---\nID:b2\ntimestamp:2024-01-02 11:00\nword_count:7\ncontent:\ntwo\nlines\n\n";
    assert_eq!(blob, expected);
}

#[test]
fn import_merges_new_entries_and_rekeys() {
    let e = entry("orig", "2024-05-05 05:05", 9, "hello");
    let lines = vec![encode_entry_line(&e, "pw1").unwrap()];
    let blob = export_text(Some(&lines), "pw1").unwrap();

    // Import into a fresh store under a different password.
    let new_lines = import_entries(None, "pw2", "pw2", &blob).unwrap();
    assert_eq!(new_lines.len(), 1);

    // Readable under the import password.
    let back = load_entries(&new_lines, "pw2").unwrap();
    assert_eq!(back.len(), 1);
    assert_eq!(back[0].id, "orig");
    assert_eq!(back[0].timestamp, "2024-05-05 05:05");
    assert_eq!(back[0].word_count, 9);
    // The exchange format appends the blank line before the separator to the
    // content, so one export-import cycle adds a trailing newline.
    assert_eq!(back[0].content, "hello\n");

    // Not readable under the export password.
    let r = load_entries(&new_lines, "pw1");
    assert_eq!(r.unwrap_err(), StoreError::WrongKeyOrCorruptData);
}

#[test]
fn import_of_own_export_adds_nothing() {
    let e1 = entry("a1", "2024-01-01 10:00", 5, "hello");
    let e2 = entry("b2", "2024-01-02 11:00", 7, "world");
    let lines = vec![
        encode_entry_line(&e1, "p").unwrap(),
        encode_entry_line(&e2, "p").unwrap(),
    ];
    let blob = export_text(Some(&lines), "p").unwrap();
    let added = import_entries(Some(&lines), "p", "p", &blob).unwrap();
    assert_eq!(added.len(), 0);
}

#[test]
fn importing_the_same_blob_twice_adds_once() {
    let e = entry("only", "2024-07-07 12:00", 1, "once");
    let source = vec![encode_entry_line(&e, "p").unwrap()];
    let blob = export_text(Some(&source), "p").unwrap();

    let mut store: Vec<String> = Vec::new();
    let first = import_entries(Some(&store), "q", "q", &blob).unwrap();
    assert_eq!(first.len(), 1);
    store.extend(first);
    let second = import_entries(Some(&store), "q", "q", &blob).unwrap();
    assert_eq!(second.len(), 0);
    assert_eq!(load_entries(&store, "q").unwrap().len(), 1);
}

#[test]
fn import_skips_blank_and_duplicate_ids() {
    let blob = "ID:x1\ntimestamp:2024-01-02 08:30\nword_count:3\ncontent:\nline one\nline two\n\n---\nID:\ntimestamp:blank\nword_count:1\ncontent:\nskipped\n\n---\nID:x1\ntimestamp:duplicate\nword_count:9\ncontent:\nskipped too\n\n";
    let new_lines = import_entries(None, "pw", "pw", blob).unwrap();
    assert_eq!(new_lines.len(), 1);
    let back = load_entries(&new_lines, "pw").unwrap();
    assert_eq!(back[0].id, "x1");
    assert_eq!(back[0].timestamp, "2024-01-02 08:30");
    assert_eq!(back[0].word_count, 3);
    assert_eq!(back[0].content, "line one\nline two\n");
}

#[test]
fn import_skips_entries_that_break_the_record_layout() {
    let blob = "ID:has|pipe\ntimestamp:2024-01-01 01:01\nword_count:1\ncontent:\nnope\n\n";
    let new_lines = import_entries(None, "pw", "pw", blob).unwrap();
    assert_eq!(new_lines.len(), 0);
}

#[test]
fn import_reads_unparsable_word_count_as_zero() {
    let blob = "ID:wc\ntimestamp:2024-01-01 01:01\nword_count:not a number\ncontent:\ntext\n\n";
    let new_lines = import_entries(None, "pw", "pw", blob).unwrap();
    let back = load_entries(&new_lines, "pw").unwrap();
    assert_eq!(back[0].word_count, 0);
}

#[test]
fn import_trims_header_padding() {
    let blob = "ID: padded \ntimestamp: 2024-01-01 01:01\nword_count: 8 \ncontent:\ntext\n\n";
    let new_lines = import_entries(None, "pw", "pw", blob).unwrap();
    let back = load_entries(&new_lines, "pw").unwrap();
    assert_eq!(back[0].id, "padded");
    assert_eq!(back[0].timestamp, "2024-01-01 01:01");
    assert_eq!(back[0].word_count, 8);
}

#[test]
fn importing_an_empty_blob_adds_nothing() {
    let new_lines = import_entries(None, "pw", "pw", "").unwrap();
    assert_eq!(new_lines.len(), 0);
}

#[test]
fn exporting_an_existing_empty_file_yields_an_empty_blob() {
    let lines: Vec<String> = Vec::new();
    let blob = export_text(Some(&lines), "p").unwrap();
    assert_eq!(blob, "");
}

#[test]
fn separator_line_inside_content_truncates_on_import() {
    // A content line of dashes reads as the block separator, so such an
    // entry does not survive an export-import cycle intact: the text after
    // the dashes is taken for a new, unlabeled block and dropped.
    let e = entry("x", "2024-01-01 10:00", 1, "a\n---\nb");
    let lines = vec![encode_entry_line(&e, "p").unwrap()];
    let blob = export_text(Some(&lines), "p").unwrap();
    let new_lines = import_entries(None, "p", "p", &blob).unwrap();
    assert_eq!(new_lines.len(), 1);
    let back = load_entries(&new_lines, "p").unwrap();
    assert_eq!(back[0].id, "x");
    assert_eq!(back[0].content, "a");
}

#[test]
fn encoded_lines_stay_in_the_base64_alphabet() {
    let e = entry("a1", "2024-01-01 10:00", 5, "text\nwith\nnewlines");
    let line = encode_entry_line(&e, "p").unwrap();
    assert!(!line.contains('\n'));
    assert!(line
        .chars()
        .all(|c| c.is_ascii_alphanumeric() || c == '+' || c == '/' || c == '='));
    let raw = seal_text("more\ntext", "p").unwrap();
    assert!(!raw.contains('\n'));
}

#[test]
fn fresh_entries_get_usable_distinct_ids() {
    let a = new_entry("2024-01-01 10:00".to_string(), 1, "a".to_string());
    let b = new_entry("2024-01-01 10:00".to_string(), 1, "b".to_string());
    assert_eq!(a.id.chars().count(), 36);
    assert!(!a.id.contains('|'));
    assert_ne!(a.id, b.id);
}

#[test]
fn encoding_twice_uses_fresh_nonces() {
    let e = entry("same", "2024-01-01 10:00", 5, "hello");
    let l1 = encode_entry_line(&e, "p").unwrap();
    let l2 = encode_entry_line(&e, "p").unwrap();
    assert_ne!(l1, l2);
    let back = load_entries(&vec![l1, l2], "p").unwrap();
    assert_same_entry(&back[0], &e);
    assert_same_entry(&back[1], &e);
}

#[test]
fn sealed_text_reads_back_as_record_id() {
    let line = seal_text("just text", "p").unwrap();
    let back = load_entries(&vec![line], "p").unwrap();
    assert_eq!(back[0].id, "just text");
    assert_eq!(back[0].timestamp, "");
    assert_eq!(back[0].word_count, 0);
    assert_eq!(back[0].content, "");
}
