use mdbook_translator::split_into_chunks;

#[test]
fn empty_text_yields_no_chunks() {
    let chunks = split_into_chunks("", 4000);
    assert_eq!(chunks.len(), 0);
}

#[test]
fn single_line_yields_one_chunk() {
    let chunks = split_into_chunks("hello", 4000);
    assert_eq!(chunks, vec!["hello\n".to_string()]);
}

#[test]
fn blank_line_becomes_double_newline_and_never_splits() {
    let chunks = split_into_chunks("Hello\n\n```\ncode\n```\nWorld", 4000);
    assert_eq!(chunks.len(), 1);
    assert_eq!(chunks[0], "Hello\n\n\n```\ncode\n```\nWorld\n");
}

#[test]
fn long_prose_splits_between_lines() {
    let chunks = split_into_chunks("aaaa\nbbbb\ncccc", 6);
    assert_eq!(
        chunks,
        vec!["aaaa\n".to_string(), "bbbb\n".to_string(), "cccc\n".to_string()]
    );
}

#[test]
fn fenced_code_is_never_split() {
    let text = "```\naaaaaaaaaa\nbbbbbbbbbb\ncccccccccc\n```";
    let chunks = split_into_chunks(text, 5);
    assert_eq!(chunks.len(), 1);
    assert_eq!(chunks[0], "```\naaaaaaaaaa\nbbbbbbbbbb\ncccccccccc\n```\n");
}

#[test]
fn split_before_fence_keeps_whole_fence_together() {
    // The prose line fills a chunk; the fenced region afterwards stays whole
    // even though it is far over the threshold.
    let text = "intro text\nmore text\n```\n0123456789012345678901234567890123456789\n```\ntail";
    let chunks = split_into_chunks(text, 12);
    for chunk in &chunks {
        let fences = chunk.lines().filter(|l| l.starts_with("```")).count();
        assert_eq!(fences % 2, 0);
    }
    let rejoined: String = chunks.concat();
    assert!(rejoined.contains("```\n0123456789012345678901234567890123456789\n```\n"));
}

#[test]
fn rejoining_chunks_reproduces_normalized_text() {
    let text = "alpha\n\nbeta\ngamma\n```\ncode line\n```\ndelta";
    for max in [1usize, 5, 10, 4000] {
        let chunks = split_into_chunks(text, max);
        let rejoined: String = chunks.concat();
        // Each non-blank line with a single trailing newline, each blank
        // line as a double newline, in original order.
        assert_eq!(rejoined, "alpha\n\n\nbeta\ngamma\n```\ncode line\n```\ndelta\n");
    }
}

#[test]
fn unterminated_fence_stops_all_splitting() {
    let text = "start\n```\naaaaaaaaaa\nbbbbbbbbbb\ncccccccccc";
    let chunks = split_into_chunks(text, 4);
    // A fence line joins the open chunk rather than starting a new one,
    // and after the unmatched fence opens, nothing splits any more.
    assert_eq!(chunks.len(), 1);
    assert_eq!(chunks[0], "start\n```\naaaaaaaaaa\nbbbbbbbbbb\ncccccccccc\n");
}

#[test]
fn oversized_first_line_yields_no_empty_chunk() {
    let chunks = split_into_chunks("0123456789\nx", 4);
    assert_eq!(chunks, vec!["0123456789\n".to_string(), "x\n".to_string()]);
}

#[test]
fn trailing_newline_adds_no_extra_line() {
    assert_eq!(split_into_chunks("a\nb\n", 4000), split_into_chunks("a\nb", 4000));
}
