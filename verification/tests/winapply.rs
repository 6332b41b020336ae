use cursorpack::apply::{
    apply, delete_pack, inside_packs_folder, install_dir_for, quit_step, reapply_last_pack, QuitStep, reconcile_state, restore_defaults,
    restore_defaults_for_exit, slug, state_path, State,
};
use cursorpack::registry::{
    encode_sz, get_base_size, get_role, roles_present, set_base_size, set_role, set_scheme_name,
    set_scheme_source, snapshot, string_value, RawValue, Snapshot, REG_DWORD, REG_SZ,
    SCHEME_SOURCE_USER,
};
use cursorpack::restore::{
    decode_dword, decode_sz, ensure_restore_point, original_path, previous_path, restore_original,
    restore_plan, restore_previous, roles_added_by_us, script_path, snapshot_summary, write_script,
};
use cursorpack::Error;

fn sz(name: &str, value: &str) -> RawValue {
    RawValue { name: name.into(), vtype: REG_SZ, bytes: encode_sz(value) }
}

fn snap(values: Vec<RawValue>) -> Snapshot {
    snapshot(values, "1700000000".into())
}

#[test]
fn slugs_are_safe_for_paths() {
    assert_eq!(slug("Inverted Default"), "inverted-default");
    assert_eq!(slug("Silk/Song: v2"), "silk-song--v2");
    assert_eq!(slug("  "), "pack");
    assert_eq!(slug("!!!"), "pack");
    assert!(!slug("../../etc").contains('.'), "must not escape the install dir");
}

#[test]
fn a_role_reads_back_the_path_it_was_set_to() {
    let path = "C:\\Users\\Zoë\\AppData\\Local\\Installed\\pack\\Arrow.cur 🖱";
    let v = set_role("Arrow", path);
    assert_eq!(v.vtype, REG_SZ);
    assert_eq!(string_value(&v).unwrap(), path);
    assert_eq!(decode_sz(&v.bytes), path);
    let s = snap(vec![v, sz("Wait", "")]);
    assert_eq!(get_role(&s, "arrow").unwrap(), Some(path.to_string()));
    assert_eq!(get_role(&s, "Hand").unwrap(), None);
    let bad = RawValue { name: "Arrow".into(), vtype: REG_DWORD, bytes: vec![1, 0, 0, 0] };
    assert_eq!(
        string_value(&bad),
        Err(Error::BadValueType { name: "Arrow".into(), vtype: REG_DWORD })
    );
}

#[test]
fn strings_stop_at_the_first_nul_and_replace_broken_surrogates() {
    assert_eq!(decode_sz(&[0x41, 0, 0, 0, 0x42, 0]), "A");
    assert_eq!(decode_sz(&[0x00, 0xD8, 0x41, 0]), "\u{FFFD}A");
    assert_eq!(decode_sz(&[0x3D, 0xD8, 0x00, 0xDE]), "😀");
    assert_eq!(decode_dword(&[1, 2, 0, 0, 9]), Some(513));
    assert_eq!(decode_dword(&[1, 2]), None);
}

#[test]
fn numbers_are_stored_as_dwords() {
    let v = set_base_size(48);
    assert_eq!((v.name.as_str(), v.vtype, v.bytes.clone()), ("CursorBaseSize", REG_DWORD, vec![48, 0, 0, 0]));
    assert_eq!(get_base_size(&snap(vec![v])), 48);
    assert_eq!(get_base_size(&snap(vec![])), 32);
    let src = set_scheme_source(SCHEME_SOURCE_USER);
    assert_eq!((src.name.as_str(), src.bytes.clone()), ("Scheme Source", vec![1, 0, 0, 0]));
    assert_eq!(set_scheme_name("Mine").name, "");
}

#[test]
fn snapshots_are_ordered_and_lookups_ignore_case() {
    let s = snap(vec![sz("Wait", "w"), sz("Arrow", "a"), sz("", "Scheme")]);
    let names: Vec<&str> = s.values.iter().map(|v| v.name.as_str()).collect();
    assert_eq!(names, vec!["", "Arrow", "Wait"]);
    assert_eq!(s.get("WAIT").unwrap().name, "Wait");
    assert!(s.names().contains_key("arrow"));
    assert!(!s.names().contains_key("Arrow"));
    assert_eq!(roles_present(&s), vec!["Arrow".to_string(), "Wait".to_string()]);
}

#[test]
fn restoring_deletes_what_was_added_and_writes_back_the_rest() {
    let original = snap(vec![sz("Arrow", "a"), sz("Wait", "")]);
    let current = snap(vec![sz("Arrow", "b"), sz("Pin", "p"), sz("Wait", "w")]);
    let plan = restore_plan(&original, &current);
    assert_eq!(plan.delete, vec!["Pin".to_string()]);
    assert_eq!(plan.write, original.values);
    assert!(matches!(restore_original(None, &current), Err(Error::NoRestorePoint)));
    assert_eq!(restore_original(Some(&original), &current).unwrap().write, original.values);
    let previous = snap(vec![sz("Arrow", "x")]);
    assert_eq!(restore_previous(Some(&previous), Some(&original), &current).unwrap().write, previous.values);
    assert_eq!(restore_previous(None, Some(&original), &current).unwrap().write, original.values);
}

#[test]
fn the_offline_script_puts_every_value_back() {
    let original = snap(vec![
        sz("", "Windows Default"),
        sz("Arrow", "%SystemRoot%\\cursors\\aero_arrow.cur"),
        RawValue { name: "Scheme Source".into(), vtype: REG_DWORD, bytes: vec![2, 0, 0, 0] },
        RawValue { name: "Odd".into(), vtype: 3, bytes: vec![0xAB, 0x01] },
    ]);
    let text = write_script(Some(&original)).unwrap();
    assert!(text.starts_with("@echo off\r\n"));
    assert!(text.contains("reg add \"HKCU\\Control Panel\\Cursors\" /ve /t REG_SZ /d \"Windows Default\" /f >nul\r\n"));
    assert!(text.contains("/v \"Arrow\" /t REG_SZ /d \"%%SystemRoot%%\\cursors\\aero_arrow.cur\" /f"));
    assert!(text.contains("/v \"Scheme Source\" /t REG_DWORD /d 2 /f"));
    assert!(text.contains("/v \"Odd\" /t REG_BINARY /d ab01 /f"));
    assert!(text.contains("reg delete \"HKCU\\Control Panel\\Cursors\" /v \"Wait\" /f >nul 2>nul\r\n"));
    assert!(!text.contains("/v \"Arrow\" /f >nul 2>nul"));
    assert!(text.ends_with("pause\r\n"));
    assert_eq!(write_script(None), Err(Error::NoRestorePoint));
    assert_eq!(roles_added_by_us(&original).len(), 16);
}

#[test]
fn a_restore_point_is_taken_once() {
    let current = snap(vec![sz("Arrow", "a")]);
    let first = ensure_restore_point(None, false, current.clone());
    assert!(first.save);
    assert!(first.script.is_some());
    let again = ensure_restore_point(Some(first.snapshot.clone()), true, snap(vec![sz("Arrow", "changed")]));
    assert!(!again.save);
    assert!(again.script.is_none());
    assert_eq!(again.snapshot, current);
}

#[test]
fn the_summary_names_every_value() {
    let s = snap(vec![
        sz("", "Mine"),
        sz("Arrow", ""),
        RawValue { name: "CursorBaseSize".into(), vtype: REG_DWORD, bytes: vec![32, 0, 0, 0] },
        RawValue { name: "Blob".into(), vtype: 3, bytes: vec![1, 2, 3] },
    ]);
    let sum = snapshot_summary(&s);
    assert_eq!(sum[0], ("(scheme name)".to_string(), "Mine".to_string()));
    assert_eq!(sum[1], ("Arrow".to_string(), "(Windows default)".to_string()));
    assert_eq!(sum[2], ("Blob".to_string(), "3 bytes".to_string()));
    assert_eq!(sum[3], ("CursorBaseSize".to_string(), "32".to_string()));
}

#[test]
fn paths_live_under_the_data_folder() {
    assert_eq!(original_path("C:\\Data"), "C:\\Data\\restore-point.json");
    assert_eq!(previous_path("C:\\Data\\"), "C:\\Data\\previous.json");
    assert_eq!(script_path("C:\\Data"), "C:\\Data\\Restore-Default-Cursors.cmd");
    assert_eq!(state_path("C:\\Data"), "C:\\Data\\state.json");
    assert_eq!(install_dir_for("C:\\Data", "My Pack!"), "C:\\Data\\installed\\my-pack");
}

#[test]
fn applying_sets_every_present_role_and_resets_the_rest() {
    let written = vec![("Arrow".to_string(), "C:\\i\\Arrow.cur".to_string()), ("wait".to_string(), "C:\\i\\Wait.ani".to_string())];
    let present = vec!["Arrow".to_string(), "Wait".to_string(), "Hand".to_string()];
    let plan = apply("Mine", "C:\\packs\\mine", "C:\\i", &written, &present, Vec::new(), &State::default());
    assert_eq!(plan.applied.roles, vec![
        ("Arrow".to_string(), "C:\\i\\Arrow.cur".to_string()),
        ("Wait".to_string(), "C:\\i\\Wait.ani".to_string()),
    ]);
    assert_eq!(plan.applied.reset_to_default, vec!["Hand".to_string()]);
    assert_eq!(plan.writes.len(), 5);
    assert_eq!(plan.writes[2], set_role("Hand", ""));
    assert_eq!(plan.writes[4], set_scheme_source(SCHEME_SOURCE_USER));
    assert_eq!(plan.state.active_pack.as_deref(), Some("Mine"));
    assert_eq!(plan.state.last_pack_dir.as_deref(), Some("C:\\packs\\mine"));
}

#[test]
fn restoring_defaults_forgets_the_pack_but_exiting_keeps_it() {
    let mut s = State::default();
    s.active_pack = Some("Mine".into());
    s.active_pack_dir = Some("d".into());
    s.last_pack = Some("Mine".into());
    s.last_pack_dir = Some("d".into());
    let exit = restore_defaults_for_exit(&s);
    assert_eq!((exit.active_pack.clone(), exit.last_pack.clone()), (None, Some("Mine".into())));
    assert_eq!(reapply_last_pack(&exit, true), Some("d".to_string()));
    assert_eq!(reapply_last_pack(&exit, false), None);
    assert_eq!(reapply_last_pack(&s, true), None);
    let reset = restore_defaults(&s);
    assert_eq!((reset.active_pack, reset.last_pack_dir), (None, None));
}

#[test]
fn a_pack_applied_elsewhere_is_forgotten() {
    let mut s = State::default();
    s.active_pack = Some("Mine".into());
    s.active_pack_dir = Some("C:\\packs\\mine".into());
    let kept = reconcile_state(&s, &["".to_string(), "C:\\i\\mine\\Arrow.cur".to_string()], "C:\\i\\mine");
    assert_eq!(kept.active_pack.as_deref(), Some("Mine"));
    let gone = reconcile_state(&s, &["C:\\i\\mine2\\Arrow.cur".to_string()], "C:\\i\\mine");
    assert_eq!(gone.active_pack, None);
    assert!(delete_pack(&s, "C:/packs/mine/"));
    assert!(!delete_pack(&s, "C:\\packs\\other"));
}

/// A model of the cursors key: value names told apart by their lowercase
/// form.
fn carry_out(key: &mut std::collections::BTreeMap<String, (u32, Vec<u8>)>, delete: &[String], write: &[RawValue]) {
    for name in delete {
        key.remove(&name.to_lowercase());
    }
    for v in write {
        key.insert(v.name.to_lowercase(), (v.vtype, v.bytes.clone()));
    }
}

#[test]
fn a_restore_leaves_exactly_what_the_snapshot_captured() {
    let original = snap(vec![
        sz("", "Windows Default"),
        sz("Arrow", "%SystemRoot%\\cursors\\aero_arrow.cur"),
        RawValue { name: "Scheme Source".into(), vtype: REG_DWORD, bytes: vec![2, 0, 0, 0] },
    ]);
    let current = snap(vec![
        sz("", "Silk"),
        sz("ARROW", "C:\\packs\\silk\\Arrow.cur"),
        sz("Pin", "C:\\packs\\silk\\Pin.cur"),
        RawValue { name: "Scheme Source".into(), vtype: REG_DWORD, bytes: vec![1, 0, 0, 0] },
    ]);
    let mut key = std::collections::BTreeMap::new();
    carry_out(&mut key, &[], &current.values);
    let plan = restore_plan(&original, &current);
    carry_out(&mut key, &plan.delete, &plan.write);

    let mut expected = std::collections::BTreeMap::new();
    carry_out(&mut expected, &[], &original.values);
    assert_eq!(key, expected);
    assert!(!key.contains_key("pin"));
}

#[test]
fn quitting_never_leaves_a_pack_applied_silently() {
    let mut state = State::default();
    assert_eq!(quit_step(&state), QuitStep::Quit { restore: true });
    state.active_pack = Some("Silk".into());
    assert_eq!(quit_step(&state), QuitStep::Quit { restore: true });
    state.restore_on_exit = false;
    assert_eq!(quit_step(&state), QuitStep::Ask);
    state.active_pack = None;
    assert_eq!(quit_step(&state), QuitStep::Quit { restore: false });
}

#[test]
fn only_packs_inside_the_packs_folder_may_be_deleted() {
    assert!(inside_packs_folder("C:\\Users\\z\\AppData\\Local\\CustoMouse\\packs\\silk", "C:\\Users\\z\\AppData\\Local\\CustoMouse\\packs"));
    assert!(!inside_packs_folder("C:\\Users\\z\\Desktop\\silk", "C:\\Users\\z\\AppData\\Local\\CustoMouse\\packs"));
    assert!(!inside_packs_folder("C:\\Users\\z\\AppData\\Local\\CustoMouse\\packs-old\\silk", "C:\\Users\\z\\AppData\\Local\\CustoMouse\\packs"));
}
