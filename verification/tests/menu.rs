use akafoe_menu::etree::{ETElement, ETNode};
use akafoe_menu::menu::{has_child_named, AssembleError, Menu, Section};

fn elem(name: &str, children: Vec<ETNode>) -> ETElement {
    ETElement {
        name: name.to_string(),
        children,
    }
}

fn node(e: ETElement) -> ETNode {
    ETNode::ElementNode(e)
}

fn txt(s: &str) -> ETNode {
    ETNode::TextNode(s.to_string())
}

fn entry(id: &str, section: &str, item: &str) -> ETElement {
    elem(
        "entry",
        vec![
            node(elem("id", vec![txt(id)])),
            node(elem(
                "content",
                vec![node(elem(
                    "div",
                    vec![
                        node(elem(
                            "p",
                            vec![node(elem("strong", vec![txt(section)]))],
                        )),
                        node(elem("ul", vec![node(elem("li", vec![txt(item)]))])),
                    ],
                ))],
            )),
        ],
    )
}

#[test]
fn entry_with_matching_date_suffix_is_selected() {
    let feed = elem(
        "feed",
        vec![
            node(elem("title", vec![txt("Mensa")])),
            node(entry(
                "tag:feed/menus/21-05-01",
                "Erste",
                "Suppe 1,00 EUR - 2,00 EUR",
            )),
            node(entry(
                "tag:feed/menus/21-05-02",
                "Zweite",
                "Gulasch 2,00 EUR - 3,00 EUR",
            )),
        ],
    );
    let menu = Menu::from_feed(&feed, "21-05-02", "02.05.21").unwrap();
    assert_eq!(menu.title, "Mensa");
    assert_eq!(menu.date, "02.05.21");
    assert_eq!(menu.sections.len(), 1);
    assert_eq!(menu.sections[0].title, "Zweite");
    assert_eq!(menu.sections[0].meals.len(), 1);
    assert_eq!(menu.sections[0].meals[0].desc, "Gulasch");
    assert_eq!(menu.sections[0].meals[0].price_student, "2.00");
}

#[test]
fn first_of_two_matching_entries_wins() {
    let feed = elem(
        "feed",
        vec![
            node(entry("a/21-05-02", "Erste", "A 1 EUR - 2 EUR")),
            node(entry("b/21-05-02", "Zweite", "B 1 EUR - 2 EUR")),
        ],
    );
    let menu = Menu::from_feed(&feed, "21-05-02", "x").unwrap();
    assert_eq!(menu.sections.len(), 1);
    assert_eq!(menu.sections[0].title, "Erste");
}

#[test]
fn no_matching_entry_gives_no_sections() {
    let feed = elem(
        "feed",
        vec![node(entry("a/21-05-01", "Erste", "A 1 EUR - 2 EUR"))],
    );
    let menu = Menu::from_feed(&feed, "21-05-02", "x").unwrap();
    assert_eq!(menu.sections.len(), 0);
}

#[test]
fn entry_without_id_is_skipped() {
    let no_id = elem("entry", vec![node(elem("content", vec![]))]);
    let feed = elem(
        "feed",
        vec![
            node(no_id),
            node(entry("a/21-05-02", "Zweite", "B 1 EUR - 2 EUR")),
        ],
    );
    let menu = Menu::from_feed(&feed, "21-05-02", "x").unwrap();
    assert_eq!(menu.sections.len(), 1);
    assert_eq!(menu.sections[0].title, "Zweite");
}

#[test]
fn id_equal_to_date_without_slash_matches() {
    let feed = elem(
        "feed",
        vec![node(entry("21-05-02", "Heute", "A 1 EUR - 2 EUR"))],
    );
    let menu = Menu::from_feed(&feed, "21-05-02", "x").unwrap();
    assert_eq!(menu.sections.len(), 1);
}

#[test]
fn id_with_date_not_a_path_segment_does_not_match() {
    let feed = elem(
        "feed",
        vec![node(entry("x21-05-02", "Heute", "A 1 EUR - 2 EUR"))],
    );
    let menu = Menu::from_feed(&feed, "21-05-02", "x").unwrap();
    assert_eq!(menu.sections.len(), 0);
}

#[test]
fn orphan_list_fails_assembly() {
    let entry = elem(
        "entry",
        vec![
            node(elem("id", vec![txt("a/21-05-02")])),
            node(elem(
                "content",
                vec![node(elem(
                    "div",
                    vec![node(elem(
                        "ul",
                        vec![node(elem("li", vec![txt("A 1 EUR - 2 EUR")]))],
                    ))],
                ))],
            )),
        ],
    );
    let feed = elem("feed", vec![node(entry)]);
    let r = Menu::from_feed(&feed, "21-05-02", "x");
    assert!(matches!(r, Err(AssembleError::OrphanListError)));
}

#[test]
fn missing_content_gives_no_sections() {
    let entry = elem("entry", vec![node(elem("id", vec![txt("a/21-05-02")]))]);
    let feed = elem("feed", vec![node(entry)]);
    let menu = Menu::from_feed(&feed, "21-05-02", "x").unwrap();
    assert_eq!(menu.sections.len(), 0);
}

#[test]
fn missing_title_gets_placeholder() {
    let feed = elem("feed", vec![]);
    let menu = Menu::from_feed(&feed, "21-05-02", "x").unwrap();
    assert_eq!(menu.title, "Unkown");
}

#[test]
fn title_whitespace_is_collapsed() {
    let feed = elem(
        "feed",
        vec![node(elem("title", vec![txt("Mensa\t der   Ruhr Uni")]))],
    );
    let menu = Menu::from_feed(&feed, "21-05-02", "x").unwrap();
    assert_eq!(menu.title, "Mensa der Ruhr Uni");
}

#[test]
fn heading_without_element_child_gets_placeholder_title() {
    let entry = elem(
        "entry",
        vec![
            node(elem("id", vec![txt("a/21-05-02")])),
            node(elem(
                "content",
                vec![node(elem(
                    "div",
                    vec![
                        node(elem("p", vec![txt("only text")])),
                        node(elem(
                            "ul",
                            vec![node(elem("li", vec![txt("A 1 EUR - 2 EUR")]))],
                        )),
                    ],
                ))],
            )),
        ],
    );
    let feed = elem("feed", vec![node(entry)]);
    let menu = Menu::from_feed(&feed, "21-05-02", "x").unwrap();
    assert_eq!(menu.sections[0].title, "Unkown");
}

#[test]
fn unknown_tags_in_item_stream_are_ignored() {
    let entry = elem(
        "entry",
        vec![
            node(elem("id", vec![txt("a/21-05-02")])),
            node(elem(
                "content",
                vec![node(elem(
                    "div",
                    vec![
                        node(elem("hr", vec![])),
                        node(elem("p", vec![node(elem("b", vec![txt("Sektion")]))])),
                        node(elem("br", vec![])),
                        node(elem(
                            "ul",
                            vec![
                                node(elem("li", vec![txt("A 1 EUR - 2 EUR")])),
                                node(elem("script", vec![])),
                                node(elem("li", vec![txt("B 2 EUR - 3 EUR")])),
                            ],
                        )),
                    ],
                ))],
            )),
        ],
    );
    let feed = elem("feed", vec![node(entry)]);
    let menu = Menu::from_feed(&feed, "21-05-02", "x").unwrap();
    assert_eq!(menu.sections.len(), 1);
    assert_eq!(menu.sections[0].title, "Sektion");
    assert_eq!(menu.sections[0].meals.len(), 2);
    assert_eq!(menu.sections[0].meals[0].desc, "A");
    assert_eq!(menu.sections[0].meals[1].desc, "B");
}

#[test]
fn two_sections_collect_their_own_items() {
    let entry = elem(
        "entry",
        vec![
            node(elem("id", vec![txt("a/21-05-02")])),
            node(elem(
                "content",
                vec![node(elem(
                    "div",
                    vec![
                        node(elem("p", vec![node(elem("b", vec![txt("Eins")]))])),
                        node(elem(
                            "ul",
                            vec![node(elem("li", vec![txt("A 1 EUR - 2 EUR")]))],
                        )),
                        node(elem("p", vec![node(elem("b", vec![txt("Zwei")]))])),
                        node(elem(
                            "ul",
                            vec![node(elem("li", vec![txt("B 2 EUR - 3 EUR")]))],
                        )),
                    ],
                ))],
            )),
        ],
    );
    let feed = elem("feed", vec![node(entry)]);
    let menu = Menu::from_feed(&feed, "21-05-02", "x").unwrap();
    assert_eq!(menu.sections.len(), 2);
    assert_eq!(menu.sections[0].title, "Eins");
    assert_eq!(menu.sections[0].meals[0].desc, "A");
    assert_eq!(menu.sections[1].title, "Zwei");
    assert_eq!(menu.sections[1].meals[0].desc, "B");
}

#[test]
fn section_new_collapses_whitespace() {
    let s = Section::new("Aktuelle   Gerichte\tund  mehr");
    assert_eq!(s.title, "Aktuelle Gerichte und mehr");
    assert_eq!(s.meals.len(), 0);
}

#[test]
fn has_child_named_sees_direct_children_only() {
    let feed = elem(
        "feed",
        vec![node(elem("entry", vec![node(elem("id", vec![]))]))],
    );
    assert!(has_child_named(&feed, "entry"));
    assert!(!has_child_named(&feed, "id"));
    assert!(!has_child_named(&feed, "title"));
}
