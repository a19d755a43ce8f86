use kcursor::{join_path, search_roots, theme_inherits};

#[test]
fn inherits_plain_value() {
    assert_eq!(theme_inherits("Inherits=Parent"), Some("Parent".to_string()));
}

#[test]
fn inherits_skips_spaces_and_separators() {
    let text = "[Icon Theme]\nName=Child\nInherits = ;Parent,Other\n";
    assert_eq!(theme_inherits(text), Some("Parent".to_string()));
}

#[test]
fn inherits_handles_crlf() {
    let text = "[Icon Theme]\r\nInherits=Adwaita\r\nComment=x\r\n";
    assert_eq!(theme_inherits(text), Some("Adwaita".to_string()));
}

#[test]
fn inherits_empty_value_keeps_scanning() {
    let text = "Inherits=\nInherits= , \nInherits=Second\nInherits=Third\n";
    assert_eq!(theme_inherits(text), Some("Second".to_string()));
}

#[test]
fn inherits_needs_key_at_line_start_and_equals() {
    assert_eq!(theme_inherits("  Inherits=A\n"), None);
    assert_eq!(theme_inherits("InheritsX=A\n"), None);
    assert_eq!(theme_inherits("Inherits A\n"), None);
    assert_eq!(theme_inherits(""), None);
}

#[test]
fn inherits_value_stops_at_whitespace() {
    assert_eq!(theme_inherits("Inherits=\tBreeze Light\n"), Some("Breeze".to_string()));
}

#[test]
fn join_rules() {
    assert_eq!(join_path("/usr/share", "icons"), "/usr/share/icons");
    assert_eq!(join_path("/usr/share/", "icons"), "/usr/share/icons");
    assert_eq!(join_path("", "icons"), "icons");
    assert_eq!(join_path("/home/u", "/abs"), "/abs");
}

#[test]
fn roots_default() {
    let roots = search_roots("/home/u", None, None);
    assert_eq!(
        roots,
        vec![
            "/home/u/.local/share/icons".to_string(),
            "/home/u/.icons".to_string(),
            "/usr/share/icons".to_string(),
        ]
    );
}

#[test]
fn roots_with_overrides() {
    let roots = search_roots("/home/u", Some("/data"), Some("/a:/b/::/c"));
    assert_eq!(
        roots,
        vec![
            "/data/icons".to_string(),
            "/home/u/.icons".to_string(),
            "/a/icons".to_string(),
            "/b/icons".to_string(),
            "icons".to_string(),
            "/c/icons".to_string(),
        ]
    );
}
