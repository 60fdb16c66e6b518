use akafoe_menu::etree::{BuildError, ETBuilder, ETElement, ETNode, Event};

fn start(name: &str) -> Event {
    Event::Start(name.as_bytes().to_vec())
}

fn end(name: &str) -> Event {
    Event::End(name.as_bytes().to_vec())
}

fn text(content: &str) -> Event {
    Event::Text(content.as_bytes().to_vec())
}

fn build(events: Vec<Event>) -> Result<Option<ETElement>, BuildError> {
    let mut builder = ETBuilder::new();
    let mut root = None;
    for ev in events {
        match builder.handle_event(ev) {
            Ok(Some(r)) => {
                root = Some(r);
                break;
            }
            Ok(None) => {}
            Err(e) => return Err(e),
        }
    }
    Ok(root)
}

fn count_elements(e: &ETElement) -> usize {
    let mut n = 1;
    for c in e.children.iter() {
        if let ETNode::ElementNode(child) = c {
            n += count_elements(child);
        }
    }
    n
}

#[test]
fn balanced_build_counts_starts_and_joins_text() {
    let root = build(vec![
        start("a"),
        text("foo"),
        start("b"),
        end("b"),
        text("bar"),
        end("a"),
    ])
    .unwrap()
    .unwrap();
    assert_eq!(root.name, "a");
    assert_eq!(count_elements(&root), 2);
    assert_eq!(root.get_text(), "foo bar");
}

#[test]
fn shallow_text_skips_nested_elements() {
    let root = build(vec![
        start("a"),
        text("foo"),
        start("b"),
        text("hidden"),
        end("b"),
        text("bar"),
        end("a"),
    ])
    .unwrap()
    .unwrap();
    assert_eq!(root.get_text(), "foo bar");
}

#[test]
fn mismatched_end_tag_fails() {
    let r = build(vec![start("a"), start("b"), end("a")]);
    assert!(matches!(r, Err(BuildError::MismatchedTag)));
}

#[test]
fn end_with_empty_stack_fails() {
    let r = build(vec![end("x")]);
    assert!(matches!(r, Err(BuildError::EndWithoutStart)));
}

#[test]
fn bare_ampersand_is_repaired() {
    let root = build(vec![start("a"), text("fish & chips"), end("a")])
        .unwrap()
        .unwrap();
    assert_eq!(root.get_text(), "fish & chips");
}

#[test]
fn escaped_text_is_unescaped() {
    let root = build(vec![start("a"), text("1 &lt; 2 &amp; 3 &gt; 2"), end("a")])
        .unwrap()
        .unwrap();
    assert_eq!(root.get_text(), "1 < 2 & 3 > 2");
}

#[test]
fn broken_reference_is_kept_literally_after_repair() {
    // `&#zz;` fails to unescape; the repair turns its `&` into `&amp;`, and
    // the retry leaves the reference as literal text
    let root = build(vec![start("a"), text("bad &#zz; ref"), end("a")])
        .unwrap()
        .unwrap();
    assert_eq!(root.get_text(), "bad &#zz; ref");
}

#[test]
fn invalid_utf8_tag_name_fails() {
    let r = build(vec![Event::Start(vec![0xff, 0xfe])]);
    assert!(matches!(r, Err(BuildError::DecodeError)));
}

#[test]
fn empty_start_name_fails() {
    let r = build(vec![Event::Start(Vec::new())]);
    assert!(matches!(r, Err(BuildError::DecodeError)));
}

#[test]
fn invalid_utf8_text_fails() {
    let r = build(vec![start("a"), Event::Text(vec![0xff]), end("a")]);
    assert!(matches!(r, Err(BuildError::DecodeError)));
}

#[test]
fn text_outside_any_element_is_dropped() {
    let root = build(vec![text("stray"), start("a"), text("kept"), end("a")])
        .unwrap()
        .unwrap();
    assert_eq!(root.get_text(), "kept");
    assert_eq!(root.children.len(), 1);
}

#[test]
fn other_events_are_ignored() {
    let root = build(vec![Event::Other, start("a"), Event::Other, end("a")])
        .unwrap()
        .unwrap();
    assert_eq!(root.name, "a");
    assert_eq!(root.children.len(), 0);
}

#[test]
fn non_ascii_text_is_decoded() {
    let root = build(vec![start("a"), text("Men\u{fc} f\u{fc}r heute"), end("a")])
        .unwrap()
        .unwrap();
    assert_eq!(root.get_text(), "Men\u{fc} f\u{fc}r heute");
}

#[test]
fn get_children_ref_keeps_order_and_skips_text() {
    let root = build(vec![
        start("r"),
        text("t1"),
        start("x"),
        end("x"),
        text("t2"),
        start("y"),
        end("y"),
        end("r"),
    ])
    .unwrap()
    .unwrap();
    let children = root.get_children_ref();
    assert_eq!(children.len(), 2);
    assert_eq!(children[0].name, "x");
    assert_eq!(children[1].name, "y");
}

#[test]
fn default_element_is_named_empty() {
    let e = ETElement::default();
    assert_eq!(e.name, "empty");
    assert_eq!(e.children.len(), 0);
}

#[test]
fn text_joined_with_single_space() {
    let root = build(vec![start("a"), text("foo"), text("bar"), end("a")])
        .unwrap()
        .unwrap();
    assert_eq!(root.get_text(), "foo bar");
}
