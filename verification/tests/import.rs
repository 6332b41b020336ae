use cursorpack::import::{
    from_listing, is_cursor_file, is_install_inf, is_scheme_file, natural_key, parse_crs, parse_inf,
    role_from_name, sanitize, MapSource,
};

#[test]
fn inf_strings_section_is_parsed() {
    let inf = r#"
[Version]
signature="$CHICAGO$"

[Scheme.Reg]
HKCU,"Control Panel\Cursors\Schemes","%SCHEME_NAME%",,"..."

[Strings]
SCHEME_NAME = "My Pack"
pointer     = "normal.cur"
help        = "help.cur"
work        = "working.ani"
busy        = "busy.ani"
cross       = "cross.cur"
text        = "beam.cur"
hand        = "pen.cur"
unavailiable= "no.cur"
vert        = "ns.cur"
horz        = "we.cur"
dgn1        = "nwse.cur"
dgn2        = "nesw.cur"
move        = "move.cur"
alternate   = "up.cur"
link        = "link.cur"
"#;
    let map = parse_inf(inf);
    assert_eq!(map.get("Arrow").unwrap(), "normal.cur");
    assert_eq!(map.get("Wait").unwrap(), "busy.ani");
    assert_eq!(map.get("AppStarting").unwrap(), "working.ani");
    assert_eq!(map.get("NWPen").unwrap(), "pen.cur", "inf 'hand' means the pen");
    assert_eq!(map.get("Hand").unwrap(), "link.cur", "inf 'link' is the hand");
    assert_eq!(map.get("No").unwrap(), "no.cur");
    assert_eq!(map.len(), 15);
    assert!(!map.entries().iter().any(|(_, v)| v.contains("Control Panel")));
}

#[test]
fn crs_sections_are_parsed() {
    let crs = "\u{feff}[Arrow]\r\nPath=normal.cur\r\n\r\n[Wait]\r\nPath=weaver.ani\r\n\
               \r\n[AppStarting]\r\nPath=backbusy.ani\r\n\r\n[NotARole]\r\nPath=junk.cur\r\n\
               \r\n[SizeNWSE]\r\nPath=C:\\somewhere\\diag1.cur\r\n\r\n[Crosshair]\r\nPath=\r\n";
    let map = parse_crs(crs);

    assert_eq!(map.get("Arrow").unwrap(), "normal.cur", "BOM must not break the first section");
    assert_eq!(map.get("Wait").unwrap(), "weaver.ani");
    assert_eq!(map.get("AppStarting").unwrap(), "backbusy.ani");
    assert_eq!(map.get("SizeNWSE").unwrap(), "diag1.cur", "a full path should reduce to its file name");
    assert!(!map.contains_key("NotARole"), "unknown sections are ignored, not guessed");
    assert!(!map.contains_key("Crosshair"), "an empty Path is not a mapping");
}

#[test]
fn natural_sort_orders_numbers_numerically() {
    let mut names = vec!["Blue-10.cur", "Blue-2.cur", "Blue-1.cur", "Blue-17.cur"];
    names.sort_by_key(|n| natural_key(n));
    assert_eq!(names, vec!["Blue-1.cur", "Blue-2.cur", "Blue-10.cur", "Blue-17.cur"]);
}

#[test]
fn name_hints_cover_real_world_spellings() {
    assert_eq!(role_from_name("SilksongDiagonal1Cursor"), Some("SizeNWSE"));
    assert_eq!(role_from_name("SilksongDiagonal2Cursor"), Some("SizeNESW"));
    assert_eq!(role_from_name("SilksongUnavalibleCursor"), Some("No"));
    assert_eq!(role_from_name("SilksongWritingCursor"), Some("NWPen"));
    assert_eq!(role_from_name("SilksongAltCursor"), Some("UpArrow"));
}

#[test]
fn name_hints_prefer_specific_matches() {
    assert_eq!(role_from_name("normal"), Some("Arrow"));
    assert_eq!(role_from_name("Arrow"), Some("Arrow"));
    assert_eq!(role_from_name("busy"), Some("Wait"));
    assert_eq!(role_from_name("working"), Some("AppStarting"));
    assert_eq!(role_from_name("crosshair"), Some("Crosshair"));
    assert_eq!(role_from_name("size_nwse"), Some("SizeNWSE"));
    assert_eq!(role_from_name("link"), Some("Hand"));
    assert_eq!(role_from_name("handwriting"), Some("NWPen"));
    assert_eq!(role_from_name("zzz"), None);
}

#[test]
fn generic_patterns_do_not_swallow_specific_ones() {
    assert_eq!(role_from_name("normal"), Some("Arrow"));
    assert_eq!(role_from_name("normal_select"), Some("Arrow"));
    assert_eq!(role_from_name("unavailable"), Some("No"));
    assert_eq!(role_from_name("precision"), Some("Crosshair"));
}

fn names(list: &[&str]) -> Vec<String> {
    list.iter().map(|s| s.to_string()).collect()
}

#[test]
fn scheme_file_beats_misleading_file_names() {
    let files = names(&[
        "SilksongNormalCursor.cur",
        "SilksongBackBusyCursor.ani",
        "SilksongBusyWeaver.ani",
        "SilksongLinkCursorGeo.cur",
        "scheme.crs",
    ]);
    let crs = "\u{feff}[Arrow]\r\nPath=SilksongNormalCursor.cur\r\n\
               [AppStarting]\r\nPath=SilksongBackBusyCursor.ani\r\n\
               [Wait]\r\nPath=SilksongBusyWeaver.ani\r\n\
               [Pin]\r\nPath=SilksongLinkCursorGeo.cur\r\n";
    assert_eq!(role_from_name("SilksongBackBusyCursor"), Some("Wait"));

    let import = from_listing("dir", &files, Some(("scheme.crs".into(), crs.into())), None, "Silksong").unwrap();
    assert_eq!(import.source, MapSource::SchemeFile);
    assert_eq!(import.mappings.len(), 4);
    assert!(import.unmatched.is_empty());
    let role_of = |file: &str| {
        import.mappings.iter().find(|m| m.file == file).map(|m| m.role.as_str()).unwrap()
    };
    assert_eq!(role_of("SilksongBackBusyCursor.ani"), "AppStarting");
    assert_eq!(role_of("SilksongBusyWeaver.ani"), "Wait");
    assert_eq!(role_of("SilksongLinkCursorGeo.cur"), "Pin");
    assert_eq!(import.scheme_file.as_deref(), Some("scheme.crs"));
}

#[test]
fn scheme_file_outranks_install_inf() {
    let files = names(&["a.cur", "b.cur", "scheme.crs", "install.inf"]);
    let import = from_listing(
        "dir",
        &files,
        Some(("scheme.crs".into(), "[Arrow]\r\nPath=a.cur\r\n".into())),
        Some(("install.inf".into(), "[Strings]\r\npointer = \"b.cur\"\r\n".into())),
        "Both",
    )
    .unwrap();
    assert_eq!(import.source, MapSource::SchemeFile);
    let arrow = import.mappings.iter().find(|m| m.role == "Arrow").unwrap();
    assert_eq!(arrow.file, "a.cur");
}

#[test]
fn anonymous_sets_map_by_position() {
    let files: Vec<String> = (1..=17).map(|i| format!("Blue-{i}.cur")).collect();
    let import = from_listing("dir", &files, None, None, "Blue").unwrap();
    assert_eq!(import.source, MapSource::Position);
    assert!(!import.source.is_reliable(), "positional mapping must be flagged");
    assert_eq!(import.mappings.len(), 17);
    assert!(import.unmatched.is_empty());
    let of = |f: &str| import.mappings.iter().find(|m| m.file == f).map(|m| m.role.as_str()).unwrap();
    assert_eq!(of("Blue-1.cur"), "Arrow");
    assert_eq!(of("Blue-2.cur"), "Help");
    assert_eq!(of("Blue-10.cur"), "SizeWE", "10 must not sort next to 1");
    assert_eq!(of("Blue-17.cur"), "Person");
}

#[test]
fn oversized_anonymous_sets_are_refused() {
    let files: Vec<String> = (1..=25).map(|i| format!("zz{i}.cur")).collect();
    assert!(from_listing("dir", &files, None, None, "Too Many").is_err());
}

#[test]
fn a_role_is_never_assigned_twice() {
    let files = names(&["arrow.cur", "normal.cur", "busy.ani"]);
    let import = from_listing("dir", &files, None, None, "Dup").unwrap();
    let arrows = import.mappings.iter().filter(|m| m.role == "Arrow").count();
    assert_eq!(arrows, 1, "only one file may claim Arrow");
    assert_eq!(import.unmatched.len(), 1, "the loser should be reported");
}

#[test]
fn a_folder_without_cursors_is_refused() {
    let files = names(&["readme.txt", "preview.png"]);
    let err = from_listing("dir", &files, None, None, "Empty").unwrap_err();
    assert!(matches!(err, cursorpack::Error::NoFrames { .. }));
    let many: Vec<String> = (0..20).map(|i| format!("zz{i}.ani")).collect();
    let err = from_listing("dir", &many, None, None, "x").unwrap_err();
    assert!(matches!(err, cursorpack::Error::TooManyFiles { found: 20, .. }));
}

#[test]
fn an_imported_pack_lists_its_roles_in_canonical_order_and_validates() {
    let files = names(&["busy.ani", "arrow.cur", "link.cur"]);
    let import = from_listing("dir", &files, None, None, "Mine").unwrap();
    let order: Vec<&str> = import.mappings.iter().map(|m| m.role.as_str()).collect();
    assert_eq!(order, vec!["Arrow", "Wait", "Hand"]);
    assert!(import.pack.validate().is_ok());
    assert_eq!(import.pack.description.as_deref(), Some("Imported from 3 ready-made cursor file(s)."));
    assert_eq!(import.pack.version.as_deref(), Some("1.0.0"));
    assert_eq!(import.pack.roles.get("Wait").unwrap().source.as_deref(), Some("busy.ani"));
    assert_eq!(import.source, MapSource::FileName);
}

#[test]
fn file_kinds_are_told_by_extension() {
    assert!(is_cursor_file("a.CUR"));
    assert!(is_cursor_file("b.ani"));
    assert!(!is_cursor_file(".cur"));
    assert!(!is_cursor_file("cur"));
    assert!(is_scheme_file("x.Crs"));
    assert!(is_install_inf("INSTALL.INF"));
    assert!(!is_install_inf("install.inf.bak"));
}

#[test]
fn sanitized_names_keep_only_safe_characters() {
    assert_eq!(sanitize("My Pack (v2)"), "My-Pack--v2");
    assert_eq!(sanitize("---"), "imported-pack");
    assert_eq!(MapSource::Inf.label(), "install.inf");
    assert!(MapSource::SchemeFile.is_reliable());
    assert!(!MapSource::FileName.is_reliable());
}

#[test]
fn the_longest_matching_fragment_names_the_role() {
    assert_eq!(role_from_name("pen_arrow"), Some("Arrow"));
    assert_eq!(role_from_name("handwriting"), Some("NWPen"));
}

#[test]
fn the_source_is_the_strongest_any_mapping_used() {
    let files = names(&["arrow.cur", "install.inf"]);
    let inf = "[Strings]\npointer = \"missing.cur\"\n";
    let import =
        from_listing("dir", &files, None, Some(("install.inf".into(), inf.into())), "X").unwrap();
    assert_eq!(import.mappings.len(), 1);
    assert_eq!(import.mappings[0].file, "arrow.cur");
    assert_eq!(import.mappings[0].role, "Arrow");
    assert_eq!(import.mappings[0].source, MapSource::FileName);
    assert_eq!(import.source, MapSource::FileName);
    assert_eq!(import.scheme_file.as_deref(), Some("install.inf"));
}
