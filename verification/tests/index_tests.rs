use vigrep::db::{FileState, KnownFile};
use vigrep::index::{
    chunk_index_key, file_text, files_to_process, is_too_large_error, mentions_too_large, RetryOutcome, paths_to_clear, pending_chunks,
    should_skip_file, split_pending_chunk, split_single_line_chunk, PendingChunk, PendingFile,
    RetryQueue,
};
use vigrep::text::chunk_text;

fn chunk(text: &str, start: i64, end: i64, split_path: u32) -> PendingChunk {
    PendingChunk {
        path: "src/a.rs".to_string(),
        file_hash: "h".to_string(),
        base_chunk_index: 7,
        split_path,
        start_line: start,
        end_line: end,
        text: text.to_string(),
    }
}

fn known(path: &str, hash: &str, complete: bool) -> KnownFile {
    KnownFile {
        path: path.to_string(),
        state: FileState { hash: hash.to_string(), complete },
    }
}

fn found(path: &str, hash: &str) -> PendingFile {
    PendingFile { path: path.to_string(), hash: hash.to_string(), size: 1, text: "x".to_string() }
}

#[test]
fn chunk_keys_pack_base_and_split() {
    assert_eq!(chunk_index_key(0, 1), 1);
    assert_eq!(chunk_index_key(3, 1), (3i64 << 32) | 1);
    assert_eq!(chunk_index_key(3, 5), 3 * 4_294_967_296 + 5);
    assert_ne!(chunk_index_key(1, 2), chunk_index_key(2, 1));
    assert_eq!(chunk("x", 1, 1, 6).chunk_index(), (7i64 << 32) | 6);
}

#[test]
fn skipped_file_names() {
    assert!(should_skip_file(Some(".vigrep.x")));
    assert!(should_skip_file(Some(".gitignore")));
    assert!(!should_skip_file(Some("main.rs")));
    assert!(!should_skip_file(None));
}

#[test]
fn too_large_errors_are_recognised() {
    assert!(is_too_large_error("HTTP 500: Input Too Large for the model"));
    assert!(is_too_large_error("the request exceeds the maximum CONTEXT size"));
    assert!(is_too_large_error("Context Length exceeded"));
    assert!(is_too_large_error("input is too large to process"));
    assert!(!is_too_large_error("connection refused"));
    assert!(mentions_too_large("context length exceeded"));
    assert!(!mentions_too_large("Context Length exceeded"));
    assert!(!mentions_too_large("timeout"));
}

#[test]
fn retry_failures_decide_between_halving_and_giving_up() {
    let mut q = RetryQueue::new(chunk("a\nb", 1, 2, 1));
    let first = q.next_chunk().unwrap();
    assert!(matches!(q.record_failure(&first, false), RetryOutcome::Failed));
    assert!(q.next_chunk().is_none());
    assert!(matches!(q.record_failure(&first, true), RetryOutcome::Halved));
    let left = q.next_chunk().unwrap();
    assert_eq!(left.text, "a");
    assert!(matches!(q.record_failure(&left, true), RetryOutcome::TooLargeToSplit));
    let right = q.next_chunk().unwrap();
    assert_eq!(right.text, "b");
    assert!(q.next_chunk().is_none());
    assert_eq!(q.inserted(), 0);
}

#[test]
fn halving_near_the_largest_line_number() {
    let c = chunk("a\nb", i64::MAX - 1, i64::MAX, 1);
    let (left, right) = split_pending_chunk(&c).unwrap();
    assert_eq!(left.end_line, i64::MAX - 1);
    assert_eq!(right.start_line, i64::MAX);
}

#[test]
fn multi_line_chunk_is_halved_between_lines() {
    let c = chunk("a\nb\nc\nd\ne", 10, 14, 1);
    let (left, right) = split_pending_chunk(&c).unwrap();
    assert_eq!(left.text, "a\nb");
    assert_eq!(right.text, "c\nd\ne");
    assert_eq!((left.start_line, left.end_line), (10, 11));
    assert_eq!((right.start_line, right.end_line), (12, 14));
    assert_eq!(left.split_path, 2);
    assert_eq!(right.split_path, 3);
    assert_eq!(left.base_chunk_index, 7);
    assert_eq!(right.path, "src/a.rs");
}

#[test]
fn single_line_chunk_is_halved_by_characters() {
    let c = chunk("abcde", 4, 4, 3);
    let (left, right) = split_pending_chunk(&c).unwrap();
    assert_eq!(left.text, "ab");
    assert_eq!(right.text, "cde");
    assert_eq!((left.start_line, left.end_line, right.start_line, right.end_line), (4, 4, 4, 4));
    assert_eq!((left.split_path, right.split_path), (6, 7));
    assert!(split_single_line_chunk(&chunk("a", 1, 1, 1)).is_none());
    assert!(split_pending_chunk(&chunk("", 1, 1, 1)).is_none());
    assert!(split_pending_chunk(&chunk("x", 1, 1, 1)).is_none());
}

#[test]
fn split_path_stays_within_32_bits() {
    let c = chunk("ab", 1, 1, 0x8000_0001);
    let (left, right) = split_pending_chunk(&c).unwrap();
    assert_eq!(left.split_path, 2);
    assert_eq!(right.split_path, 3);
}

#[test]
fn retry_queue_embeds_left_half_first() {
    let mut q = RetryQueue::new(chunk("a\nb", 1, 2, 1));
    let first = q.next_chunk().unwrap();
    assert!(q.record_too_large(&first));
    let left = q.next_chunk().unwrap();
    assert_eq!(left.text, "a");
    q.record_embedded();
    let right = q.next_chunk().unwrap();
    assert_eq!(right.text, "b");
    assert!(!q.record_too_large(&right));
    assert!(q.next_chunk().is_none());
    assert_eq!(q.inserted(), 1);
}

#[test]
fn paths_to_clear_sorted_and_unique() {
    let known_files = vec![
        known("z.txt", "1", true),
        known("gone.txt", "2", true),
        known("same.txt", "3", true),
        known("changed.txt", "4", true),
    ];
    let discovered = vec![
        found("same.txt", "3"),
        found("changed.txt", "5"),
        found("new.txt", "6"),
        found("z.txt", "0"),
    ];
    assert_eq!(
        paths_to_clear(&known_files, &discovered),
        vec!["changed.txt".to_string(), "gone.txt".to_string(), "new.txt".to_string(), "z.txt".to_string()]
    );
    assert!(paths_to_clear(&[], &[]).is_empty());
}

#[test]
fn later_entries_win_in_known_files() {
    let known_files = vec![known("a", "old", true), known("a", "new", true)];
    assert!(paths_to_clear(&known_files, &[found("a", "new")]).is_empty());
}

#[test]
fn files_needing_indexing() {
    let known_files = vec![known("done", "1", true), known("partial", "2", false), known("stale", "3", true)];
    let files = vec![found("done", "1"), found("partial", "2"), found("stale", "4"), found("fresh", "5")];
    assert_eq!(files_to_process(&known_files, &files), vec![1, 2, 3]);
}

#[test]
fn stored_base_chunks_are_skipped() {
    let chunks = chunk_text("a\nb\nc", 1, 100, 0);
    assert_eq!(chunks.len(), 3);
    let existing: std::collections::HashSet<i64> = [chunk_index_key(1, 1), chunk_index_key(5, 1)].into_iter().collect();
    let pending = pending_chunks(&chunks, &existing);
    let indexes: Vec<usize> = pending.iter().map(|c| c.chunk_index).collect();
    assert_eq!(indexes, vec![0, 2]);
    assert_eq!(pending[1].text, "c");
}

#[test]
fn binary_files_have_no_text() {
    assert_eq!(file_text("héllo\n".as_bytes().to_vec()).as_deref(), Some("héllo\n"));
    assert_eq!(file_text(Vec::new()).as_deref(), Some(""));
    assert!(file_text(vec![0x66, 0xff, 0x6f]).is_none());
    assert!(file_text(vec![0xc3]).is_none());
    assert!(file_text(vec![0xed, 0xa0, 0x80]).is_none());
}

#[test]
fn retry_run_stores_pieces_left_to_right() {
    let mut q = RetryQueue::new(chunk("a\nb\nc\nd\ne", 1, 5, 1));
    let mut stored = Vec::new();
    while let Some(piece) = q.next_chunk() {
        let too_large = piece.text.lines().count() > 1;
        match q.record_failure(&piece, too_large) {
            RetryOutcome::Halved => {}
            RetryOutcome::Failed => {
                stored.push((piece.text.clone(), piece.start_line, piece.split_path));
                q.record_embedded();
            }
            RetryOutcome::TooLargeToSplit => panic!("every piece can be halved"),
        }
    }
    let texts: Vec<&str> = stored.iter().map(|s| s.0.as_str()).collect();
    assert_eq!(texts, vec!["a", "b", "c", "d", "e"]);
    let lines: Vec<i64> = stored.iter().map(|s| s.1).collect();
    assert_eq!(lines, vec![1, 2, 3, 4, 5]);
    assert_eq!(q.inserted(), 5);
}
