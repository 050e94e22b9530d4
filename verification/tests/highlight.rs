use zeno_editor::highlight::{classify_capture_name, highlight_markdown, HighlightKind};

#[test]
fn highlight_spans_are_within_bounds() {
    let source = "# Title\n\nHello **world**.\n";
    let spans = highlight_markdown(source);
    for span in spans {
        assert!(span.start < span.end);
        assert!(span.end <= source.len());
    }
}

#[test]
fn highlight_spans_are_sorted_and_boundary_aligned() {
    let source = "# One\n\ntext\n\n```\ncode\n```\n";
    let spans = highlight_markdown(source);
    for w in spans.windows(2) {
        assert!(
            w[0].start < w[1].start || (w[0].start == w[1].start && w[0].end <= w[1].end)
        );
    }
    for span in &spans {
        assert!(source.is_char_boundary(span.start));
        assert!(source.is_char_boundary(span.end));
    }
}

#[test]
fn heading_marker_yields_a_punctuation_span() {
    // The block grammar captures ATX heading markers as punctuation; if the
    // parser returned nothing for this source the test would fail.
    let spans = highlight_markdown("# Title\n");
    assert!(!spans.is_empty());
    assert!(spans.iter().any(|s| s.kind == HighlightKind::Punctuation));
}

#[test]
fn empty_input_yields_no_spans() {
    assert!(highlight_markdown("").is_empty());
}

#[test]
fn classifies_capture_names_by_keyword() {
    assert_eq!(classify_capture_name("markup.heading.1"), HighlightKind::Heading);
    assert_eq!(classify_capture_name("strong_emphasis"), HighlightKind::Strong);
    assert_eq!(classify_capture_name("text.bold"), HighlightKind::Strong);
    assert_eq!(classify_capture_name("emphasis"), HighlightKind::Emphasis);
    assert_eq!(classify_capture_name("markup.italic"), HighlightKind::Emphasis);
    assert_eq!(classify_capture_name("code_span"), HighlightKind::Code);
    assert_eq!(classify_capture_name("link_destination"), HighlightKind::Link);
    assert_eq!(classify_capture_name("text.URL"), HighlightKind::Link);
    assert_eq!(classify_capture_name("punctuation.special"), HighlightKind::Punctuation);
    assert_eq!(classify_capture_name("fence.delimiter"), HighlightKind::Punctuation);
    assert_eq!(classify_capture_name("text.title"), HighlightKind::Other);
    assert_eq!(classify_capture_name(""), HighlightKind::Other);
}
