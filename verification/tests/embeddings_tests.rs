use eldoria_npc::embeddings::SimpleEmbedder;

#[test]
fn stem_removes_first_matching_suffix() {
    assert_eq!(SimpleEmbedder::stem("jumping"), "jump");
    assert_eq!(SimpleEmbedder::stem("station"), "sta");
    assert_eq!(SimpleEmbedder::stem("foxes"), "fox");
    assert_eq!(SimpleEmbedder::stem("cats"), "cat");
    assert_eq!(SimpleEmbedder::stem("quickly"), "quick");
    assert_eq!(SimpleEmbedder::stem("sing"), "sing");
    assert_eq!(SimpleEmbedder::stem("is"), "is");
    assert_eq!(SimpleEmbedder::stem("walked"), "walk");
}

#[test]
fn stem_tries_suffixes_in_order() {
    // "ons" comes before "s" in the list of suffixes.
    assert_eq!(SimpleEmbedder::stem("dragons"), "drag");
    assert_eq!(SimpleEmbedder::stem("bakers"), "bak");
}

#[test]
fn stem_needs_more_than_two_bytes_left() {
    assert_eq!(SimpleEmbedder::stem("bed"), "bed");
    assert_eq!(SimpleEmbedder::stem("beds"), "bed");
    assert_eq!(SimpleEmbedder::stem("\u{e9}ed"), "\u{e9}ed");
    assert_eq!(SimpleEmbedder::stem("\u{e9}\u{e9}ed"), "\u{e9}\u{e9}");
}

#[test]
fn tokenize_lowercases_trims_filters_and_stems() {
    assert_eq!(
        SimpleEmbedder::tokenize("The quick brown FOXES are jumping!"),
        vec!["quick", "brown", "fox", "jump"]
    );
    assert_eq!(SimpleEmbedder::tokenize("  \"Hello,\"   world...  "), vec!["hello", "world"]);
    assert_eq!(SimpleEmbedder::tokenize("an ox, 42 ox-en"), vec!["ox-en"]);
    assert!(SimpleEmbedder::tokenize("").is_empty());
    assert!(SimpleEmbedder::tokenize("the and for").is_empty());
}

#[test]
fn tokenize_lowered_does_not_lowercase() {
    assert_eq!(SimpleEmbedder::tokenize_lowered("DRAGON dragon"), vec!["DRAGON", "dragon"]);
    assert_eq!(SimpleEmbedder::tokenize("DRAGON dragon"), vec!["dragon", "dragon"]);
}

#[test]
fn term_counts_count_each_token() {
    let c = SimpleEmbedder::term_counts("Dragon dragon castle dragon!");
    assert_eq!(c.total, 4);
    assert_eq!(c.counts, vec![("dragon".to_string(), 3), ("castle".to_string(), 1)]);
    let sum: usize = c.counts.iter().map(|(_, n)| n).sum();
    assert_eq!(sum, c.total);
    let empty = SimpleEmbedder::term_counts("a an");
    assert_eq!(empty.total, 0);
    assert!(empty.counts.is_empty());
}

#[test]
fn document_frequencies_count_documents_not_occurrences() {
    let docs = vec![
        "The dragon guards the castle. Dragon!".to_string(),
        "A dragon sleeps".to_string(),
        "Nothing here".to_string(),
    ];
    let df = SimpleEmbedder::document_frequencies(&docs);
    assert_eq!(
        df,
        vec![
            ("dragon".to_string(), 2),
            ("guard".to_string(), 1),
            ("castle".to_string(), 1),
            ("sleep".to_string(), 1),
            ("noth".to_string(), 1),
            ("here".to_string(), 1),
        ]
    );
    for (_, n) in &df {
        assert!(*n >= 1 && *n <= docs.len());
    }
}
