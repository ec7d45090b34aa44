use blog_core::markdown::{extend_parse, CodeBlockKind, LinkKind, MdEvent, MdEventKind, MdOutput, MdTag};

fn ev(kind: MdEventKind, raw: u32) -> MdEvent<u32> {
    MdEvent { kind, raw }
}

fn text(s: &str, raw: u32) -> MdEvent<u32> {
    ev(MdEventKind::Text(s.to_string()), raw)
}

fn inline_link(href: &str, title: &str) -> MdTag {
    MdTag::Link { kind: LinkKind::Inline, href: href.to_string(), title: title.to_string() }
}

fn fenced(language: &str) -> MdTag {
    MdTag::CodeBlock(CodeBlockKind::Fenced(language.to_string()))
}

fn raw_of(o: &MdOutput<u32>) -> Option<u32> {
    match o {
        MdOutput::Event(e) => Some(*e),
        _ => None,
    }
}

fn assert_link(o: &MdOutput<u32>, href: &str, title: &str, children: &[&str]) {
    match o {
        MdOutput::Link { href: h, title: t, children: c } => {
            assert_eq!(h, href);
            assert_eq!(t, title);
            assert_eq!(c, &children.iter().map(|s| s.to_string()).collect::<Vec<_>>());
        }
        other => panic!("expected a link, got {:?}", other),
    }
}

fn assert_code_block(o: &MdOutput<u32>, language: &str, code: &str) {
    match o {
        MdOutput::CodeBlock { language: l, code: c } => {
            assert_eq!(l, language);
            assert_eq!(c, code);
        }
        other => panic!("expected a code block, got {:?}", other),
    }
}

/// The events of `[foo](http://b)`: a paragraph around an inline link.
#[test]
fn inline_link_becomes_link_component() {
    let out = extend_parse(vec![
        ev(MdEventKind::Start(MdTag::Other), 0),
        ev(MdEventKind::Start(inline_link("http://b", "")), 1),
        text("foo", 2),
        ev(MdEventKind::End(inline_link("http://b", "")), 3),
        ev(MdEventKind::End(MdTag::Other), 4),
    ]);
    assert_eq!(out.len(), 3);
    assert_eq!(raw_of(&out[0]), Some(0));
    assert_link(&out[1], "http://b", "", &["foo"]);
    assert_eq!(raw_of(&out[2]), Some(4));
}

/// The events of "```javascript\nthis is CodeBlock```": the fence at the end
/// of the text is cut off.
#[test]
fn fenced_code_block_becomes_code_component() {
    let out = extend_parse(vec![
        ev(MdEventKind::Start(fenced("javascript")), 0),
        text("this is CodeBlock```", 1),
        ev(MdEventKind::End(fenced("javascript")), 2),
    ]);
    assert_eq!(out.len(), 1);
    assert_code_block(&out[0], "javascript", "this is CodeBlock");
}

#[test]
fn code_is_trimmed_before_fences_are_cut() {
    let out = extend_parse(vec![
        ev(MdEventKind::Start(fenced("rust")), 0),
        text("  let x = 1;``````\n\t ", 1),
        ev(MdEventKind::End(fenced("rust")), 2),
    ]);
    assert_code_block(&out[0], "rust", "let x = 1;");
}

#[test]
fn code_texts_are_joined_most_recent_first() {
    let out = extend_parse(vec![
        ev(MdEventKind::Start(fenced("")), 0),
        text("one\n", 1),
        text("two\n", 2),
        ev(MdEventKind::End(fenced("")), 3),
    ]);
    assert_code_block(&out[0], "", "two\none");
}

#[test]
fn link_children_are_most_recent_first() {
    let out = extend_parse(vec![
        ev(MdEventKind::Start(inline_link("/x", "t")), 0),
        text("a", 1),
        ev(MdEventKind::Other, 2),
        text("b", 3),
        ev(MdEventKind::End(inline_link("/x", "t")), 4),
    ]);
    assert_eq!(out.len(), 1);
    assert_link(&out[0], "/x", "t", &["b", "a"]);
}

#[test]
fn stream_without_elements_passes_through() {
    let out = extend_parse(vec![
        ev(MdEventKind::Start(MdTag::Other), 0),
        text("plain", 1),
        ev(MdEventKind::Other, 2),
        ev(MdEventKind::End(MdTag::Other), 3),
    ]);
    assert_eq!(out.iter().map(raw_of).collect::<Vec<_>>(), vec![Some(0), Some(1), Some(2), Some(3)]);
}

#[test]
fn indented_code_and_reference_links_pass_through() {
    let reference = MdTag::Link { kind: LinkKind::Reference, href: "/r".to_string(), title: String::new() };
    let reference_end = MdTag::Link { kind: LinkKind::Reference, href: "/r".to_string(), title: String::new() };
    let out = extend_parse(vec![
        ev(MdEventKind::Start(MdTag::CodeBlock(CodeBlockKind::Indented)), 0),
        text("code", 1),
        ev(MdEventKind::End(MdTag::CodeBlock(CodeBlockKind::Indented)), 2),
        ev(MdEventKind::Start(reference), 3),
        text("ref", 4),
        ev(MdEventKind::End(reference_end), 5),
    ]);
    assert_eq!(
        out.iter().map(raw_of).collect::<Vec<_>>(),
        vec![Some(0), Some(1), Some(2), Some(3), Some(4), Some(5)]
    );
}

/// An end of another tag inside a link passes the held-back events through;
/// a start of another tag is passed at once.
#[test]
fn other_end_inside_element_releases_held_events() {
    let out = extend_parse(vec![
        ev(MdEventKind::Start(inline_link("/x", "")), 0),
        text("a", 1),
        ev(MdEventKind::Start(MdTag::Other), 2),
        text("b", 3),
        ev(MdEventKind::End(MdTag::Other), 4),
        ev(MdEventKind::End(inline_link("/x", "")), 5),
    ]);
    assert_eq!(out.len(), 6);
    let raws: Vec<_> = out[..5].iter().map(raw_of).collect();
    assert_eq!(raws, vec![Some(2), Some(0), Some(1), Some(3), Some(4)]);
    assert_link(&out[5], "/x", "", &[]);
}

#[test]
fn unclosed_element_emits_nothing() {
    let out = extend_parse(vec![ev(MdEventKind::Start(inline_link("/x", "")), 0), text("a", 1)]);
    assert!(out.is_empty());
}

#[test]
fn empty_stream_gives_nothing() {
    let out = extend_parse(Vec::<MdEvent<u32>>::new());
    assert!(out.is_empty());
}

#[test]
fn code_is_trimmed_of_unicode_white_space() {
    let out = extend_parse(vec![
        ev(MdEventKind::Start(fenced("txt")), 0),
        text("\u{3000}\u{85}x y\u{a0}\u{2028}", 1),
        ev(MdEventKind::End(fenced("txt")), 2),
    ]);
    assert_code_block(&out[0], "txt", "x y");
}
