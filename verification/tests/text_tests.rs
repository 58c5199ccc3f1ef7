use vigrep::text::{chunk_text, preview, sha256_hex};

#[test]
fn chunks_sparse_text_by_lines_first() {
    let content = (1..=40)
        .map(|line| format!("line {line}"))
        .collect::<Vec<_>>()
        .join("\n");

    let chunks = chunk_text(&content, 8, 2048, 0);

    assert_eq!(chunks.len(), 5);
    assert_eq!(chunks[0].start_line, 1);
    assert_eq!(chunks[0].end_line, 8);
    assert_eq!(chunks[1].start_line, 9);
    assert_eq!(chunks[1].end_line, 16);
}

#[test]
fn chunks_long_line_by_char_budget() {
    let content = "a".repeat(10_000);

    let chunks = chunk_text(&content, 32, 2048, 0);

    assert!(chunks.len() > 1);
    assert!(chunks.iter().all(|chunk| chunk.text.chars().count() <= 2048));
    assert!(chunks.iter().all(|chunk| chunk.start_line == 1 && chunk.end_line == 1));
}

#[test]
fn long_line_pieces_rebuild_the_line() {
    let content = "abcdefghij".repeat(5);
    let chunks = chunk_text(&content, 32, 16, 0);
    assert_eq!(chunks.len(), 4);
    let rebuilt: String = chunks.iter().map(|c| c.text.as_str()).collect();
    assert_eq!(rebuilt, content);
    assert_eq!(chunks[3].text.chars().count(), 2);
    for (i, c) in chunks.iter().enumerate() {
        assert_eq!(c.chunk_index, i);
    }
}

#[test]
fn empty_content_gives_no_chunks() {
    assert!(chunk_text("", 8, 100, 0).is_empty());
    let one = chunk_text("\n", 8, 100, 0);
    assert_eq!(one.len(), 1);
    assert_eq!(one[0].text, "");
}

#[test]
fn overlap_repeats_lines_between_chunks() {
    let content = (1..=10).map(|l| format!("l{l}")).collect::<Vec<_>>().join("\n");
    let chunks = chunk_text(&content, 4, 1000, 1);
    let ranges: Vec<(usize, usize)> = chunks.iter().map(|c| (c.start_line, c.end_line)).collect();
    assert_eq!(ranges, vec![(1, 4), (4, 7), (7, 10)]);
    assert_eq!(chunks[1].text, "l4\nl5\nl6\nl7");
}

#[test]
fn overlap_is_capped_below_chunk_lines() {
    let content = "a\nb\nc\nd\ne";
    let chunks = chunk_text(content, 2, 1000, 5);
    let ranges: Vec<(usize, usize)> = chunks.iter().map(|c| (c.start_line, c.end_line)).collect();
    assert_eq!(ranges, vec![(1, 2), (2, 3), (3, 4), (4, 5)]);
}

#[test]
fn char_budget_ends_chunks_early() {
    let content = "aaaa\nbbbb\ncccc";
    let chunks = chunk_text(content, 10, 9, 0);
    let texts: Vec<&str> = chunks.iter().map(|c| c.text.as_str()).collect();
    assert_eq!(texts, vec!["aaaa\nbbbb", "cccc"]);
    assert_eq!(chunks[1].start_line, 3);
}

#[test]
fn leading_empty_line_keeps_the_budget() {
    let chunks = chunk_text("\nxx", 10, 2, 0);
    let texts: Vec<&str> = chunks.iter().map(|c| c.text.as_str()).collect();
    assert_eq!(texts, vec!["", "xx"]);
    assert_eq!((chunks[1].start_line, chunks[1].end_line), (2, 2));
    assert!(chunks.iter().all(|c| c.text.chars().count() <= 2));

    let long = chunk_text("\nxxx", 10, 2, 0);
    let spans: Vec<(usize, usize, &str)> =
        long.iter().map(|c| (c.start_line, c.end_line, c.text.as_str())).collect();
    assert_eq!(spans, vec![(1, 1, ""), (2, 2, "xx"), (2, 2, "x")]);
}

#[test]
fn chunks_without_overlap_rejoin_to_the_lines() {
    let content = "alpha\nbeta\n\ngamma delta\neps";
    for (lines_per_chunk, budget) in [(1, 11), (2, 11), (3, 12), (10, 1000), (2, 20)] {
        let chunks = chunk_text(content, lines_per_chunk, budget, 0);
        let texts: Vec<&str> = chunks.iter().map(|c| c.text.as_str()).collect();
        assert_eq!(texts.join("\n"), content.lines().collect::<Vec<_>>().join("\n"));
    }
}

#[test]
fn crlf_lines_drop_carriage_returns() {
    let chunks = chunk_text("a\r\nb\r\n", 10, 100, 0);
    assert_eq!(chunks.len(), 1);
    assert_eq!(chunks[0].text, "a\nb");
    assert_eq!(chunks[0].end_line, 2);
}

#[test]
fn zero_settings_count_as_one() {
    let chunks = chunk_text("ab\ncd", 0, 0, 0);
    let texts: Vec<&str> = chunks.iter().map(|c| c.text.as_str()).collect();
    assert_eq!(texts, vec!["a", "b", "c", "d"]);
}

#[test]
fn preview_collapses_whitespace() {
    assert_eq!(preview("  hello\n\t world  ", 100), "hello world");
    assert_eq!(preview("abcdef", 4), "abc…");
    assert_eq!(preview("abcd", 4), "abcd");
    assert_eq!(preview("abc", 0), "…");
    assert_eq!(preview("", 0), "");
}

#[test]
fn preview_of_a_preview_is_unchanged() {
    for (text, n) in [("  hello\n\t world  ", 100), ("abcdef", 4), ("ab  cd ef", 4), ("abc", 0), ("a b c d", 1), ("", 3)] {
        let once = preview(text, n);
        assert_eq!(preview(&once, n), once);
    }
}

#[test]
fn sha256_hex_of_abc() {
    assert_eq!(
        sha256_hex(b"abc"),
        "ba7816bf8f01cfea414140de5dae2223b00361a396177a9cb410ff61f20015ad"
    );
    assert_eq!(sha256_hex(b"").len(), 64);
}

#[test]
fn one_line_chunks_follow_std_lines() {
    for s in ["a\r", "\r\n\r\n", "x\n\ny\n", "one", "a\rb\nc", "\n\n", "tail\r\n"] {
        let chunks = chunk_text(s, 1, 1000, 0);
        let texts: Vec<&str> = chunks.iter().map(|c| c.text.as_str()).collect();
        let expected: Vec<&str> = s.lines().collect();
        assert_eq!(texts, expected, "{s:?}");
        for (i, c) in chunks.iter().enumerate() {
            assert_eq!((c.start_line, c.end_line), (i + 1, i + 1));
        }
    }
}

#[test]
fn every_line_lies_in_some_chunk() {
    let content = "a\n\nbbbbbbb\nc\ndd\n\ne";
    let line_count = content.lines().count();
    for (lines_per_chunk, budget, overlap) in [(2, 3, 1), (1, 1, 0), (3, 4, 2), (4, 100, 3)] {
        let chunks = chunk_text(content, lines_per_chunk, budget, overlap);
        for line in 1..=line_count {
            assert!(chunks.iter().any(|c| c.start_line <= line && line <= c.end_line));
        }
        assert!(chunks.iter().all(|c| c.text.chars().count() <= budget));
    }
}
