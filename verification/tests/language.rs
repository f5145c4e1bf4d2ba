use game_rs::language::{resolve_language, Languages};

fn languages() -> Option<Languages> {
    let mut table = Languages::new();
    table.insert("en".to_string(), 1);
    table.insert("ja".to_string(), 2);
    table.insert("zh".to_string(), 3);
    table.insert("yue".to_string(), 4);
    Some(table)
}

#[test]
fn known_codes_have_identifiers() {
    assert_eq!(resolve_language(&Some("en".to_string()), &languages()), 1);
    assert_eq!(resolve_language(&Some("yue".to_string()), &languages()), 4);
}

#[test]
fn anything_else_is_no_language_in_particular() {
    assert_eq!(resolve_language(&Some("fr".to_string()), &languages()), 0);
    assert_eq!(resolve_language(&None, &languages()), 0);
    assert_eq!(resolve_language(&Some("en".to_string()), &None), 0);
    assert_eq!(resolve_language(&None, &None), 0);
    assert_eq!(resolve_language(&Some("en".to_string()), &Some(Languages::new())), 0);
}

#[test]
fn later_identifiers_replace_earlier_ones() {
    let mut table = Languages::new();
    table.insert("en".to_string(), 1);
    table.insert("ja".to_string(), 2);
    table.insert("en".to_string(), 5);
    assert_eq!(table.get(&"en".to_string()), Some(5));
    assert_eq!(table.get(&"ja".to_string()), Some(2));
    assert_eq!(table.get(&"EN".to_string()), None);
}
