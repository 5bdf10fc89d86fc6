use mdbook_translator::cache::TranslationCache;
use mdbook_translator::driver::{ChunkRun, RunStep};
use mdbook_translator::fingerprint::fingerprint;
use mdbook_translator::split_into_chunks;
use mdbook_translator::walker::{apply_translations, collect_chunks, BookNode, Chapter};

fn chapter(name: &str, content: &str, sub_items: Vec<BookNode>) -> BookNode {
    BookNode::Chapter(Chapter {
        name: name.to_string(),
        number: None,
        content: content.to_string(),
        sub_items,
    })
}

/// Drives a run to completion with a stub client, returning the outputs,
/// the cache, and every chunk text that was sent to the stub.
fn drive(
    mut run: ChunkRun,
    client: impl Fn(&str) -> String,
) -> (Vec<String>, TranslationCache, Vec<String>) {
    let mut requested: Vec<String> = Vec::new();
    loop {
        match run.step() {
            RunStep::Need(text) => {
                let answer = client(&text);
                requested.push(text);
                run.supply(answer);
            }
            RunStep::Done => break,
        }
    }
    let (outputs, cache) = run.into_parts();
    (outputs, cache, requested)
}

#[test]
fn uppercasing_stub_translates_one_chapter() {
    let tree = vec![chapter("One", "Hello\n\n```\ncode\n```\nWorld", vec![])];
    let chunks = collect_chunks(&tree, 4000);
    assert_eq!(chunks.len(), 1);
    let chunk = chunks[0].clone();
    assert_eq!(chunk, "Hello\n\n\n```\ncode\n```\nWorld\n");

    let run = ChunkRun::new(chunks, "fr".to_string(), TranslationCache::new());
    let (outputs, cache, requested) = drive(run, |t| t.to_uppercase());
    assert_eq!(requested, vec![chunk.clone()]);
    let expected = "HELLO\n\n\n```\nCODE\n```\nWORLD\n".to_string();
    assert_eq!(outputs, vec![expected.clone()]);
    let key = fingerprint(&chunk, "fr");
    assert_eq!(cache.get(&key), Some(&expected));

    let rebuilt = apply_translations(tree, &outputs, 4000);
    match &rebuilt[0] {
        BookNode::Chapter(c) => {
            assert_eq!(c.name, "One");
            assert_eq!(c.content, expected);
        }
        BookNode::Other => panic!("chapter expected"),
    }
}

#[test]
fn identical_sibling_chapters_cost_one_remote_call() {
    let tree = vec![
        chapter("A", "same text", vec![]),
        chapter("B", "same text", vec![]),
    ];
    let chunks = collect_chunks(&tree, 4000);
    assert_eq!(chunks.len(), 2);
    let run = ChunkRun::new(chunks, "fr".to_string(), TranslationCache::new());
    let (outputs, _cache, requested) = drive(run, |t| t.to_uppercase());
    assert_eq!(requested.len(), 1);
    assert_eq!(outputs, vec!["SAME TEXT\n".to_string(), "SAME TEXT\n".to_string()]);
}

#[test]
fn warm_cache_rerun_makes_no_remote_call() {
    let tree = vec![chapter(
        "One",
        "first paragraph\n\nsecond paragraph",
        vec![chapter("Nested", "child text", vec![])],
    )];
    let chunks = collect_chunks(&tree, 20);
    assert!(chunks.len() >= 2);

    let run = ChunkRun::new(chunks.clone(), "de".to_string(), TranslationCache::new());
    let (outputs1, cache1, requested1) = drive(run, |t| t.to_uppercase());
    assert!(!requested1.is_empty());

    let rerun = ChunkRun::new(chunks, "de".to_string(), cache1);
    let (outputs2, _cache2, requested2) = drive(rerun, |t| t.to_uppercase());
    assert_eq!(requested2.len(), 0);
    assert_eq!(outputs1, outputs2);
}

#[test]
fn corrupt_cache_file_starts_cold_and_ends_with_run_fingerprints() {
    let cache = TranslationCache::from_json("autrement dit: pas du JSON");
    let tree = vec![chapter("A", "alpha", vec![]), chapter("B", "beta", vec![])];
    let chunks = collect_chunks(&tree, 4000);
    let run = ChunkRun::new(chunks.clone(), "fr".to_string(), cache);
    let (_outputs, cache, requested) = drive(run, |t| t.to_uppercase());
    assert_eq!(requested.len(), 2);
    // Exactly the fingerprints generated during the run are present.
    for chunk in &chunks {
        assert!(cache.get(&fingerprint(chunk, "fr")).is_some());
    }
    assert!(cache.get(&fingerprint("alpha\n", "de")).is_none());
    assert!(cache.get(&"somekey".to_string()).is_none());
}

#[test]
fn translation_ending_in_fence_gets_a_blank_line() {
    let tree = vec![chapter("One", "text", vec![])];
    let chunks = collect_chunks(&tree, 4000);
    let run = ChunkRun::new(chunks, "fr".to_string(), TranslationCache::new());
    let (outputs, _cache, _requested) = drive(run, |_| "code:\n```rust\nfin\n```".to_string());
    let rebuilt = apply_translations(tree, &outputs, 4000);
    match &rebuilt[0] {
        BookNode::Chapter(c) => assert_eq!(c.content, "code:\n```rust\nfin\n```\n\n"),
        BookNode::Other => panic!("chapter expected"),
    }
}

#[test]
fn empty_translation_is_used_but_not_cached() {
    let tree = vec![chapter("One", "text", vec![])];
    let chunks = collect_chunks(&tree, 4000);
    let run = ChunkRun::new(chunks.clone(), "fr".to_string(), TranslationCache::new());
    let (outputs, cache, requested) = drive(run, |_| String::new());
    assert_eq!(requested.len(), 1);
    assert_eq!(outputs, vec![String::new()]);
    assert!(cache.get(&fingerprint(&chunks[0], "fr")).is_none());
}

#[test]
fn tree_structure_and_other_nodes_are_preserved() {
    let tree = vec![
        BookNode::Other,
        chapter(
            "Top",
            "top text",
            vec![
                chapter("Child", "child text", vec![]),
                BookNode::Other,
                chapter("Second child", "more text", vec![]),
            ],
        ),
        BookNode::Other,
    ];
    let chunks = collect_chunks(&tree, 4000);
    assert_eq!(
        chunks,
        vec![
            "top text\n".to_string(),
            "child text\n".to_string(),
            "more text\n".to_string()
        ]
    );
    let run = ChunkRun::new(chunks, "fr".to_string(), TranslationCache::new());
    let (outputs, _cache, _requested) = drive(run, |t| t.to_uppercase());
    let rebuilt = apply_translations(tree, &outputs, 4000);
    assert!(matches!(rebuilt[0], BookNode::Other));
    assert!(matches!(rebuilt[2], BookNode::Other));
    match &rebuilt[1] {
        BookNode::Chapter(c) => {
            assert_eq!(c.name, "Top");
            assert_eq!(c.content, "TOP TEXT\n");
            assert_eq!(c.sub_items.len(), 3);
            match &c.sub_items[0] {
                BookNode::Chapter(d) => {
                    assert_eq!(d.name, "Child");
                    assert_eq!(d.content, "CHILD TEXT\n");
                }
                BookNode::Other => panic!("chapter expected"),
            }
            assert!(matches!(c.sub_items[1], BookNode::Other));
            match &c.sub_items[2] {
                BookNode::Chapter(d) => assert_eq!(d.content, "MORE TEXT\n"),
                BookNode::Other => panic!("chapter expected"),
            }
        }
        BookNode::Other => panic!("chapter expected"),
    }
}

#[test]
fn chunks_match_the_chunker() {
    let tree = vec![chapter("One", "aaaa\nbbbb\ncccc", vec![])];
    assert_eq!(collect_chunks(&tree, 6), split_into_chunks("aaaa\nbbbb\ncccc", 6));
}
