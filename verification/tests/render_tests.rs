use rusty_notes::blocks::Block;
use rusty_notes::render::render_blocks;
use rusty_notes::state::AppState;

fn chars(s: &str) -> Vec<char> {
    s.chars().collect()
}

fn text_of(v: &Vec<char>) -> String {
    v.iter().collect()
}

fn html_of(s: &str) -> String {
    let state = AppState::new(30);
    text_of(&state.render_markdown_to_html(&chars(s)))
}

#[test]
fn empty_text_renders_single_spacer() {
    let blocks = render_blocks(&chars(""));
    assert_eq!(blocks.len(), 1);
    assert!(matches!(blocks[0], Block::Spacer));
}

#[test]
fn heading_level_one() {
    let blocks = render_blocks(&chars("# Title"));
    assert_eq!(blocks.len(), 1);
    match &blocks[0] {
        Block::Heading { level, text } => {
            assert_eq!(*level, 1);
            assert_eq!(text_of(text), "Title");
        },
        _ => panic!("expected a heading"),
    }
}

#[test]
fn plain_text_renders_paragraph() {
    let blocks = render_blocks(&chars("plain text"));
    assert_eq!(blocks.len(), 1);
    match &blocks[0] {
        Block::Paragraph { text } => assert_eq!(text_of(text), "plain text"),
        _ => panic!("expected a paragraph"),
    }
}

#[test]
fn heading_levels_two_and_three() {
    let blocks = render_blocks(&chars("## Sub\n### SubSub"));
    assert_eq!(blocks.len(), 2);
    match &blocks[0] {
        Block::Heading { level, text } => {
            assert_eq!(*level, 2);
            assert_eq!(text_of(text), "Sub");
        },
        _ => panic!("expected a heading"),
    }
    match &blocks[1] {
        Block::Heading { level, text } => {
            assert_eq!(*level, 3);
            assert_eq!(text_of(text), "SubSub");
        },
        _ => panic!("expected a heading"),
    }
}

#[test]
fn list_items_with_both_markers() {
    let blocks = render_blocks(&chars("- one\n* two"));
    assert_eq!(blocks.len(), 2);
    match &blocks[0] {
        Block::ListItem { text } => assert_eq!(text_of(text), "one"),
        _ => panic!("expected a list item"),
    }
    match &blocks[1] {
        Block::ListItem { text } => assert_eq!(text_of(text), "two"),
        _ => panic!("expected a list item"),
    }
}

#[test]
fn quote_line() {
    let blocks = render_blocks(&chars("> wisdom"));
    assert_eq!(blocks.len(), 1);
    match &blocks[0] {
        Block::Quote { text } => assert_eq!(text_of(text), "wisdom"),
        _ => panic!("expected a quote"),
    }
}

#[test]
fn code_fence_markers_toggle_only() {
    let blocks = render_blocks(&chars("```rust\nlet x = 1;\nend```"));
    assert_eq!(blocks.len(), 3);
    assert!(matches!(blocks[0], Block::CodeFenceStart));
    match &blocks[1] {
        Block::Paragraph { text } => assert_eq!(text_of(text), "let x = 1;"),
        _ => panic!("expected a paragraph between fence markers"),
    }
    assert!(matches!(blocks[2], Block::CodeFenceEnd));
}

#[test]
fn lines_are_trimmed_before_classification() {
    let blocks = render_blocks(&chars("   # Spaced   "));
    assert_eq!(blocks.len(), 1);
    match &blocks[0] {
        Block::Heading { level, text } => {
            assert_eq!(*level, 1);
            assert_eq!(text_of(text), "Spaced");
        },
        _ => panic!("expected a heading"),
    }
}

#[test]
fn blank_interior_line_becomes_spacer() {
    let blocks = render_blocks(&chars("a\n\nb"));
    assert_eq!(blocks.len(), 3);
    assert!(matches!(blocks[0], Block::Paragraph { .. }));
    assert!(matches!(blocks[1], Block::Spacer));
    assert!(matches!(blocks[2], Block::Paragraph { .. }));
}

#[test]
fn hash_without_space_is_paragraph() {
    let blocks = render_blocks(&chars("#tag"));
    assert_eq!(blocks.len(), 1);
    match &blocks[0] {
        Block::Paragraph { text } => assert_eq!(text_of(text), "#tag"),
        _ => panic!("expected a paragraph"),
    }
}

#[test]
fn html_of_heading() {
    assert_eq!(html_of("# Title"), "<h1>Title</h1>\n");
    assert_eq!(html_of("## Sub"), "<h2>Sub</h2>\n");
    assert_eq!(html_of("### Deep"), "<h3>Deep</h3>\n");
}

#[test]
fn html_of_blank_and_paragraph() {
    assert_eq!(html_of(""), "<p></p>\n");
    assert_eq!(html_of("plain"), "<p>plain</p>\n");
}

#[test]
fn html_of_list_quote_and_fences() {
    assert_eq!(html_of("- item"), "<li>item</li>\n");
    assert_eq!(html_of("> deep"), "<blockquote>deep</blockquote>\n");
    assert_eq!(html_of("```"), "<pre><code>\n");
    assert_eq!(html_of("end```"), "</code></pre>\n");
}

#[test]
fn html_of_mixed_document() {
    let html = html_of("# T\n\nbody");
    assert_eq!(html, "<h1>T</h1>\n<p></p>\n<p>body</p>\n");
}
