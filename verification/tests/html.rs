use elmore::html::{event_name, Attr, Event, Tag};

#[test]
fn tag_names_are_lowercase() {
    assert_eq!(Tag::Div.name(), "div");
    assert_eq!(Tag::Button.name(), "button");
    assert_eq!(Tag::TextArea.name(), "textarea");
    assert_eq!(Tag::Select.name(), "select");
    assert_eq!(Tag::Option.name(), "option");
    assert_eq!(Tag::Form.name(), "form");
}

#[test]
fn tag_matches_uppercase_dom_names() {
    assert!(Tag::Div.matches_tag_name("DIV"));
    assert!(Tag::TextArea.matches_tag_name("TEXTAREA"));
    assert!(Tag::Li.matches_tag_name("li"));
    assert!(!Tag::Div.matches_tag_name("P"));
    assert!(!Tag::H1.matches_tag_name("H2"));
    assert!(!Tag::Ul.matches_tag_name("UL "));
}

#[test]
fn event_names_are_dom_names() {
    assert_eq!(event_name(Event::Click), "click");
    assert_eq!(event_name(Event::Input), "input");
    assert_eq!(event_name(Event::Change), "change");
    assert_eq!(event_name(Event::Submit), "submit");
    assert_eq!(event_name(Event::KeyUp), "keyup");
}

#[test]
fn attr_new_keeps_name_and_value() {
    let a = Attr::new("class", "c".to_string());
    assert_eq!(a.name, "class");
    assert_eq!(a.value, "c");
}

use elmore::html::handlers_to_fire;

#[test]
fn handlers_fire_in_bubbling_and_attachment_order() {
    let rows = vec![
        vec![Event::Click, Event::Input, Event::Click],
        vec![Event::Change],
        vec![Event::Click],
    ];
    // Target carries row 2, its parent has no handlers, the grandparent row 0.
    let path = vec![Some(2), None, Some(0)];
    assert_eq!(handlers_to_fire(&path, &rows, "click"), vec![(2, 0), (0, 0), (0, 2)]);
    assert_eq!(handlers_to_fire(&path, &rows, "input"), vec![(0, 1)]);
    assert!(handlers_to_fire(&path, &rows, "change").is_empty());
    assert!(handlers_to_fire(&vec![Some(9)], &rows, "click").is_empty());
}
