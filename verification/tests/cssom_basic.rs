use cssom::sheet::{CssomError, HandleState, Stylesheet};

#[test]
fn empty_sheet_has_no_rules() {
    let sheet = Stylesheet::new();
    let top = sheet.rule_list();
    assert_eq!(sheet.length(top), 0);
}

#[test]
fn replace_parses_two_rules() {
    let mut sheet = Stylesheet::new();
    let r = sheet.replace_sync(".a{color:red} .b{color:blue}");
    assert!(r.is_ok());
    let top = sheet.rule_list();
    assert_eq!(sheet.length(top), 2);
}

#[test]
fn replace_rejects_garbage_and_keeps_tree() {
    let mut sheet = Stylesheet::new();
    sheet.replace_sync(".a{color:red}").unwrap();
    let r = sheet.replace_sync("@@@not css");
    assert_eq!(r, Err(CssomError::Syntax));
    assert_eq!(sheet.length(sheet.rule_list()), 1);
}

#[test]
fn item_returns_same_identity_twice() {
    let mut sheet = Stylesheet::new();
    sheet.replace_sync(".a{color:red} .b{color:blue}").unwrap();
    let top = sheet.rule_list();
    let h1 = sheet.item(top, 0).unwrap();
    let h2 = sheet.item(top, 0).unwrap();
    assert_eq!(h1, h2);
    let h3 = sheet.item(top, 1).unwrap();
    assert_ne!(h1, h3);
}

#[test]
fn item_past_end_is_none() {
    let mut sheet = Stylesheet::new();
    sheet.replace_sync(".a{color:red}").unwrap();
    let top = sheet.rule_list();
    assert!(sheet.item(top, 1).is_none());
}

#[test]
fn insert_shifts_later_handles_up() {
    let mut sheet = Stylesheet::new();
    sheet.replace_sync(".a{color:red} .b{color:blue}").unwrap();
    let top = sheet.rule_list();
    let hb = sheet.item(top, 1).unwrap();
    let at = sheet.insert_rule(top, ".c{color:green}", 1).unwrap();
    assert_eq!(at, 1);
    assert_eq!(sheet.length(top), 3);
    match sheet.handles[hb].state {
        HandleState::Connected { view, index } => {
            assert_eq!(view, top);
            assert_eq!(index, 2);
        }
        _ => panic!("handle should stay connected"),
    }
    assert_eq!(sheet.item(top, 2), Some(hb));
}

#[test]
fn insert_out_of_range_is_rejected() {
    let mut sheet = Stylesheet::new();
    sheet.replace_sync(".a{color:red}").unwrap();
    let top = sheet.rule_list();
    assert_eq!(sheet.insert_rule(top, ".c{}", 2), Err(CssomError::OutOfRange));
    assert_eq!(sheet.length(top), 1);
}

#[test]
fn insert_bad_syntax_is_rejected() {
    let mut sheet = Stylesheet::new();
    sheet.replace_sync(".a{color:red}").unwrap();
    let top = sheet.rule_list();
    assert_eq!(sheet.insert_rule(top, "][", 0), Err(CssomError::Syntax));
    assert_eq!(sheet.length(top), 1);
}

#[test]
fn delete_disconnects_and_shifts_down() {
    let mut sheet = Stylesheet::new();
    sheet.replace_sync(".a{color:red} .b{color:blue}").unwrap();
    let top = sheet.rule_list();
    let ha = sheet.item(top, 0).unwrap();
    let hb = sheet.item(top, 1).unwrap();
    sheet.delete_rule(top, 0).unwrap();
    assert_eq!(sheet.length(top), 1);
    assert!(matches!(sheet.handles[ha].state, HandleState::Disconnected { .. }));
    assert!(sheet.handles[ha].parent.is_none());
    match sheet.handles[hb].state {
        HandleState::Connected { view, index } => {
            assert_eq!(view, top);
            assert_eq!(index, 0);
        }
        _ => panic!("later handle should stay connected"),
    }
}

#[test]
fn delete_out_of_range_is_rejected() {
    let mut sheet = Stylesheet::new();
    sheet.replace_sync(".a{color:red}").unwrap();
    let top = sheet.rule_list();
    assert_eq!(sheet.delete_rule(top, 1), Err(CssomError::OutOfRange));
    assert_eq!(sheet.length(top), 1);
}

#[test]
fn replace_disconnects_all_handles() {
    let mut sheet = Stylesheet::new();
    sheet.replace_sync(".a{color:red} .b{color:blue}").unwrap();
    let top = sheet.rule_list();
    let ha = sheet.item(top, 0).unwrap();
    sheet.replace_sync(".c{color:green}").unwrap();
    assert!(matches!(sheet.handles[ha].state, HandleState::Disconnected { .. }));
    assert_eq!(sheet.length(top), 1);
}

#[test]
fn error_messages_are_stable() {
    assert_eq!(CssomError::OutOfRange.message(), "Index out of bounds");
    assert_eq!(CssomError::NotFound.message(), "Rule not found");
}

#[test]
fn media_rule_parses_at_top_level() {
    let mut sheet = Stylesheet::new();
    sheet.replace_sync("@media screen{.a{color:red}}").unwrap();
    let top = sheet.rule_list();
    assert_eq!(sheet.length(top), 1);
}

#[test]
fn nested_view_reaches_child_rules_and_cascade_disconnects() {
    let mut sheet = Stylesheet::new();
    sheet.replace_sync("@media screen{.a{color:red}}").unwrap();
    let top = sheet.rule_list();
    let media = sheet.item(top, 0).unwrap();
    assert_eq!(sheet.kind(media), 4);
    let inner = sheet.child_rules(media).unwrap();
    assert_eq!(sheet.length(inner), 1);
    let style = sheet.item(inner, 0).unwrap();
    assert_eq!(sheet.kind(style), 1);
    assert_eq!(sheet.selector_text(style).unwrap(), ".a");
    assert_eq!(sheet.parent_rule(style), Some(media));
    // The same rule answers with the same view.
    assert_eq!(sheet.child_rules(media), Some(inner));
    // Deleting the grouping rule disconnects the nested handle too.
    sheet.delete_rule(top, 0).unwrap();
    assert!(!sheet.connected(style));
    assert!(!sheet.connected(media));
}

#[test]
fn nested_insert_leaves_top_level_untouched() {
    let mut sheet = Stylesheet::new();
    sheet.replace_sync(".x{color:red} @media screen{.a{color:red}} .y{color:blue}").unwrap();
    let top = sheet.rule_list();
    let media = sheet.item(top, 1).unwrap();
    let inner = sheet.child_rules(media).unwrap();
    let at = sheet.insert_rule(inner, ".b{color:green}", 1).unwrap();
    assert_eq!(at, 1);
    assert_eq!(sheet.length(inner), 2);
    assert_eq!(sheet.length(top), 3);
    let hx = sheet.item(top, 0).unwrap();
    assert_eq!(sheet.selector_text(hx).unwrap(), ".x");
}

#[test]
fn keyframes_last_match_wins() {
    let mut sheet = Stylesheet::new();
    sheet.replace_sync("@keyframes spin{50%{color:red} 50%{color:blue}}").unwrap();
    let top = sheet.rule_list();
    let kf = sheet.item(top, 0).unwrap();
    assert_eq!(sheet.kind(kf), 7);
    assert_eq!(sheet.name(kf).unwrap(), "spin");
    assert_eq!(sheet.find_keyframe(kf, "50%"), Some(1));
    let frame = sheet.find_rule(kf, "50%").unwrap();
    assert_eq!(sheet.kind(frame), 8);
    assert_eq!(sheet.get_property_value(frame, "color"), "");
    assert_eq!(sheet.key_text(frame).unwrap(), "50%");
    assert_eq!(sheet.find_keyframe(kf, "not a key"), None);
}

#[test]
fn keyframes_append_and_delete_by_selector() {
    let mut sheet = Stylesheet::new();
    sheet.replace_sync("@keyframes spin{from{opacity:0}}").unwrap();
    let top = sheet.rule_list();
    let kf = sheet.item(top, 0).unwrap();
    assert!(sheet.append_rule(kf, "to { opacity: 1 }"));
    let frames = sheet.child_rules(kf).unwrap();
    assert_eq!(sheet.length(frames), 2);
    let last = sheet.item(frames, 1).unwrap();
    assert_eq!(sheet.key_text(last).unwrap(), "to");
    sheet.delete_keyframe_rule(kf, "from");
    assert_eq!(sheet.length(frames), 1);
    let remaining = sheet.item(frames, 0).unwrap();
    assert_eq!(sheet.key_text(remaining).unwrap(), "to");
    sheet.delete_keyframe_rule(kf, "][");
    assert_eq!(sheet.length(frames), 1);
}

#[test]
fn round_trip_single_rule_is_semantically_stable() {
    let mut sheet = Stylesheet::new();
    sheet.replace_sync(".a{color:red}").unwrap();
    let top = sheet.rule_list();
    let h = sheet.item(top, 0).unwrap();
    let text = sheet.css_text(h);
    // Reparse the printed rule: same selector, same declaration.
    let mut second = Stylesheet::new();
    second.replace_sync(&text).unwrap();
    let top2 = second.rule_list();
    assert_eq!(second.length(top2), 1);
    let h2 = second.item(top2, 0).unwrap();
    assert_eq!(second.selector_text(h2).unwrap(), ".a");
    assert_eq!(second.get_property_value(h2, "color"), "red");
}

#[test]
fn insert_scenario_shifts_selector_texts() {
    let mut sheet = Stylesheet::new();
    sheet.replace_sync(".a{color:red} .b{color:blue}").unwrap();
    let top = sheet.rule_list();
    sheet.insert_rule(top, ".c{color:green}", 1).unwrap();
    assert_eq!(sheet.length(top), 3);
    let h1 = sheet.item(top, 1).unwrap();
    let h2 = sheet.item(top, 2).unwrap();
    assert_eq!(sheet.selector_text(h1).unwrap(), ".c");
    assert_eq!(sheet.selector_text(h2).unwrap(), ".b");
}

#[test]
fn deleted_handle_stays_readable() {
    let mut sheet = Stylesheet::new();
    sheet.replace_sync(".a{color:red} .b{color:blue}").unwrap();
    let top = sheet.rule_list();
    let ha = sheet.item(top, 0).unwrap();
    let before = sheet.css_text(ha);
    sheet.delete_rule(top, 0).unwrap();
    assert_eq!(sheet.parent_rule(ha), None);
    assert!(!sheet.connected(ha));
    assert_eq!(sheet.css_text(ha), before);
    assert!(before.contains(".a"));
    assert!(before.contains("red"));
}

#[test]
fn selector_text_set_and_reject() {
    let mut sheet = Stylesheet::new();
    sheet.replace_sync(".a{color:red}").unwrap();
    let top = sheet.rule_list();
    let h = sheet.item(top, 0).unwrap();
    assert!(sheet.set_selector_text(h, ".z > .w"));
    assert_eq!(sheet.selector_text(h).unwrap(), ".z > .w");
    assert!(!sheet.set_selector_text(h, "][nonsense"));
    assert_eq!(sheet.selector_text(h).unwrap(), ".z > .w");
}

#[test]
fn declaration_view_reads_and_writes() {
    let mut sheet = Stylesheet::new();
    sheet.replace_sync(".a{color:red}").unwrap();
    let top = sheet.rule_list();
    let h = sheet.item(top, 0).unwrap();
    assert_eq!(sheet.get_property_value(h, "color"), "red");
    assert_eq!(sheet.get_property_priority(h, "color"), "");
    assert!(sheet.set_property(h, "color", "green", true));
    assert_eq!(sheet.get_property_value(h, "color"), "green");
    assert_eq!(sheet.get_property_priority(h, "color"), "important");
    assert_eq!(sheet.style_length(h), 1);
    assert_eq!(sheet.style_item(h, 0), "color");
    assert_eq!(sheet.style_item(h, 1), "");
    let previous = sheet.remove_property(h, "color");
    assert_eq!(previous, "green");
    assert_eq!(sheet.get_property_value(h, "color"), "");
    assert!(sheet.set_style(h, "margin: 0"));
    assert_eq!(sheet.get_property_value(h, "margin"), "0");
}

#[test]
fn media_list_operations() {
    let mut sheet = Stylesheet::new();
    sheet.replace_sync("@media screen{.a{color:red}}").unwrap();
    let top = sheet.rule_list();
    let media = sheet.item(top, 0).unwrap();
    assert_eq!(sheet.media_length(media), 1);
    assert_eq!(sheet.media_item(media, 0).unwrap(), "screen");
    assert_eq!(sheet.media_text(media).unwrap(), "screen");
    assert_eq!(sheet.condition_text(media).unwrap(), "screen");
    assert!(sheet.append_medium(media, "print"));
    assert_eq!(sheet.media_length(media), 2);
    assert_eq!(sheet.media_text(media).unwrap(), "screen, print");
    // A query already present is not appended twice.
    assert!(!sheet.append_medium(media, "print"));
    assert_eq!(sheet.media_length(media), 2);
    assert_eq!(sheet.delete_medium(media, "print"), Ok(()));
    assert_eq!(sheet.media_length(media), 1);
    assert_eq!(sheet.delete_medium(media, "print"), Err(CssomError::NotFound));
    assert!(sheet.set_condition_text(media, "(min-width: 10px)"));
    assert_eq!(sheet.media_text(media).unwrap(), "(min-width: 10px)");
}

#[test]
fn keyframe_key_text_set_and_reject() {
    let mut sheet = Stylesheet::new();
    sheet.replace_sync("@keyframes spin{from{opacity:0}}").unwrap();
    let top = sheet.rule_list();
    let kf = sheet.item(top, 0).unwrap();
    let frames = sheet.child_rules(kf).unwrap();
    let frame = sheet.item(frames, 0).unwrap();
    assert_eq!(sheet.key_text(frame).unwrap(), "from");
    assert!(sheet.set_key_text(frame, "25%, 75%"));
    assert_eq!(sheet.key_text(frame).unwrap(), "25%, 75%");
    assert!(!sheet.set_key_text(frame, "nonsense"));
    assert_eq!(sheet.key_text(frame).unwrap(), "25%, 75%");
    assert!(sheet.set_name(kf, "whirl"));
    assert_eq!(sheet.name(kf).unwrap(), "whirl");
}

#[test]
fn set_css_text_is_a_no_op() {
    let mut sheet = Stylesheet::new();
    sheet.replace_sync(".a{color:red}").unwrap();
    let top = sheet.rule_list();
    let h = sheet.item(top, 0).unwrap();
    let before = sheet.css_text(h);
    sheet.set_css_text(h, ".b{color:blue}");
    assert_eq!(sheet.css_text(h), before);
}

#[test]
fn add_rule_returns_legacy_sentinel() {
    let mut sheet = Stylesheet::new();
    sheet.replace_sync(".a{color:red}").unwrap();
    assert_eq!(sheet.add_rule(".b", "color: blue", 1), Ok(-1));
    let top = sheet.rule_list();
    assert_eq!(sheet.length(top), 2);
    let h = sheet.item(top, 1).unwrap();
    assert_eq!(sheet.selector_text(h).unwrap(), ".b");
    assert_eq!(sheet.remove_rule(top, 1), Ok(()));
    assert_eq!(sheet.length(top), 1);
}

#[test]
fn supports_condition_is_readable_and_set_is_ignored() {
    let mut sheet = Stylesheet::new();
    sheet.replace_sync("@supports (display: flex){.a{color:red}}").unwrap();
    let top = sheet.rule_list();
    let h = sheet.item(top, 0).unwrap();
    assert_eq!(sheet.kind(h), 12);
    let before = sheet.condition_text(h).unwrap();
    assert!(before.contains("display: flex"));
    assert!(!sheet.set_condition_text(h, "(color: red)"));
    assert_eq!(sheet.condition_text(h).unwrap(), before);
}
