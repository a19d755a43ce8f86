use kcursor::{Cursor, CursorTheme, DirEntry, EntryKind, Listing, Resolver, ThemeDir};

fn plain(name: &str) -> DirEntry {
    DirEntry { name: name.to_string(), kind: EntryKind::Plain }
}

fn link(name: &str, target: Option<&str>) -> DirEntry {
    DirEntry { name: name.to_string(), kind: EntryKind::Link { target: target.map(|t| t.to_string()) } }
}

fn listing(path: &str, entries: Vec<DirEntry>) -> Option<Listing> {
    Some(Listing { path: path.to_string(), entries })
}

fn legacy_dir(path: &str, entries: Vec<DirEntry>, index: Option<&str>) -> Option<ThemeDir> {
    Some(ThemeDir { scalable: None, legacy: listing(path, entries), index: index.map(|s| s.to_string()) })
}

/// Runs a resolution, answering each theme name with `lookup`.
fn resolve(name: &str, lookup: impl Fn(&str) -> Vec<Option<ThemeDir>>) -> (Option<CursorTheme>, Vec<String>) {
    let mut r = Resolver::new(name);
    let mut order = Vec::new();
    while let Some(theme) = r.next_theme() {
        let dirs = lookup(&theme);
        order.push(theme);
        r.absorb(&dirs);
    }
    (r.finish(), order)
}

fn path_of(c: &Cursor) -> &str {
    match c {
        Cursor::Svg { path } => path,
        Cursor::X { path } => path,
    }
}

#[test]
fn missing_theme_is_not_found() {
    let (theme, order) = resolve("Missing", |_| vec![None, None, None]);
    assert!(theme.is_none());
    assert_eq!(order, vec!["Missing".to_string()]);
}

#[test]
fn theme_without_shapes_is_not_found() {
    let (theme, _) = resolve("Empty", |_| vec![legacy_dir("/r/Empty/cursors", vec![], None)]);
    assert!(theme.is_none());
}

#[test]
fn earlier_root_wins() {
    let (theme, _) = resolve("T", |_| {
        vec![
            legacy_dir("/r1/T/cursors", vec![plain("wait")], None),
            legacy_dir("/r2/T/cursors", vec![plain("wait"), plain("pointer")], None),
        ]
    });
    let theme = theme.unwrap();
    assert_eq!(path_of(theme.icon("wait").unwrap()), "/r1/T/cursors/wait");
    assert_eq!(path_of(theme.icon("pointer").unwrap()), "/r2/T/cursors/pointer");
}

#[test]
fn earlier_root_wins_over_later_link() {
    let (theme, _) = resolve("T", |_| {
        vec![
            legacy_dir("/r1/T/cursors", vec![plain("wait")], None),
            legacy_dir("/r2/T/cursors", vec![link("wait", Some("/r2/T/cursors/busy")), plain("busy")], None),
        ]
    });
    let theme = theme.unwrap();
    assert_eq!(path_of(theme.icon("wait").unwrap()), "/r1/T/cursors/wait");
}

#[test]
fn link_shares_icon_with_target() {
    let (theme, _) = resolve("T", |_| {
        vec![legacy_dir(
            "/r/T/cursors",
            vec![link("watch", Some("/r/T/cursors/wait")), plain("wait")],
            None,
        )]
    });
    let theme = theme.unwrap();
    let a = theme.icon("watch").unwrap();
    let b = theme.icon("wait").unwrap();
    assert!(std::ptr::eq(a, b));
    assert_eq!(path_of(a), "/r/T/cursors/wait");
    assert!(matches!(a, Cursor::X { .. }));
}

#[test]
fn link_out_of_directory_is_dropped() {
    let (theme, _) = resolve("T", |_| {
        vec![legacy_dir(
            "/r/T/cursors",
            vec![
                plain("wait"),
                link("evil", Some("/etc/wait")),
                link("broken", None),
                link("root", Some("/")),
                link("dangling", Some("/r/T/cursors/nothing")),
            ],
            None,
        )]
    });
    let theme = theme.unwrap();
    assert!(theme.icon("wait").is_some());
    assert!(theme.icon("evil").is_none());
    assert!(theme.icon("broken").is_none());
    assert!(theme.icon("root").is_none());
    assert!(theme.icon("dangling").is_none());
}

#[test]
fn inherited_theme_supplies_shapes() {
    let (theme, order) = resolve("Child", |name| match name {
        "Child" => vec![Some(ThemeDir {
            scalable: None,
            legacy: None,
            index: Some("[Icon Theme]\nName=Child\nInherits=Parent\n".to_string()),
        })],
        "Parent" => vec![legacy_dir("/r/Parent/cursors", vec![plain("X")], None)],
        _ => vec![None],
    });
    let theme = theme.unwrap();
    assert_eq!(path_of(theme.icon("X").unwrap()), "/r/Parent/cursors/X");
    assert_eq!(order, vec!["Child".to_string(), "Parent".to_string()]);
}

#[test]
fn child_shapes_precede_parent_shapes() {
    let (theme, _) = resolve("Child", |name| match name {
        "Child" => vec![legacy_dir("/r/Child/cursors", vec![plain("wait")], Some("Inherits=Parent"))],
        _ => vec![legacy_dir("/r/Parent/cursors", vec![plain("wait"), plain("text")], None)],
    });
    let theme = theme.unwrap();
    assert_eq!(path_of(theme.icon("wait").unwrap()), "/r/Child/cursors/wait");
    assert_eq!(path_of(theme.icon("text").unwrap()), "/r/Parent/cursors/text");
}

#[test]
fn first_root_declaring_a_parent_wins() {
    let (_, order) = resolve("T", |name| match name {
        "T" => vec![
            None,
            Some(ThemeDir { scalable: None, legacy: None, index: Some("Name=T".to_string()) }),
            Some(ThemeDir { scalable: None, legacy: None, index: Some("Inherits=A".to_string()) }),
            Some(ThemeDir { scalable: None, legacy: None, index: Some("Inherits=B".to_string()) }),
        ],
        _ => vec![None],
    });
    assert_eq!(order, vec!["T".to_string(), "A".to_string()]);
}

#[test]
fn inheritance_cycle_ends() {
    let (theme, order) = resolve("A", |name| match name {
        "A" => vec![legacy_dir("/r/A/cursors", vec![plain("a")], Some("Inherits=B"))],
        _ => vec![legacy_dir("/r/B/cursors", vec![plain("b")], Some("Inherits=A"))],
    });
    let theme = theme.unwrap();
    assert!(theme.icon("a").is_some() && theme.icon("b").is_some());
    assert_eq!(order, vec!["A".to_string(), "B".to_string()]);
}

#[test]
fn svg_directory_preferred_over_legacy() {
    let (theme, _) = resolve("T", |_| {
        vec![Some(ThemeDir {
            scalable: listing("/r/T/cursors_scalable", vec![plain("wait")]),
            legacy: listing("/r/T/cursors", vec![plain("wait"), plain("text")]),
            index: None,
        })]
    });
    let theme = theme.unwrap();
    match theme.icon("wait").unwrap() {
        Cursor::Svg { path } => assert_eq!(path, "/r/T/cursors_scalable/wait"),
        Cursor::X { .. } => panic!("expected an SVG icon"),
    }
    assert!(theme.icon("text").is_none());
}

#[test]
fn unknown_shape_is_not_found() {
    let (theme, _) = resolve("T", |_| vec![legacy_dir("/r/T/cursors", vec![plain("wait")], None)]);
    assert!(theme.unwrap().icon("pointer").is_none());
}

#[test]
fn directory_path_with_trailing_slash() {
    let (theme, _) = resolve("T", |_| vec![legacy_dir("/r/T/cursors/", vec![plain("wait")], None)]);
    assert_eq!(path_of(theme.unwrap().icon("wait").unwrap()), "/r/T/cursors/wait");
}
