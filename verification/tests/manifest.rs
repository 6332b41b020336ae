use cursorpack::error::Invalid;
use cursorpack::manifest::{
    default_base_size, default_format, default_fps, default_loop, default_sizes, role, roles, Grid, Pack,
    RoleMap, RoleSpec, UpscaleMode, DEFAULT_FPS_BITS,
};
use cursorpack::Error;

fn spec_with(source: &str) -> RoleSpec {
    RoleSpec { source: Some(source.to_string()), ..Default::default() }
}

fn pack_with(hotspot: [u32; 2], base: u32) -> Pack {
    let mut roles = RoleMap::new();
    roles.insert("Arrow".into(), RoleSpec { source: Some("a.svg".into()), hotspot: Some(hotspot), ..Default::default() });
    Pack {
        format: 1,
        name: "t".into(),
        author: None,
        version: None,
        description: None,
        base_size: base,
        sizes: default_sizes(),
        roles,
    }
}

#[test]
fn rejects_hotspot_outside_base_canvas() {
    let err = pack_with([32, 0], 32).validate().unwrap_err();
    assert!(matches!(err, Error::HotspotOutOfBounds { .. }), "{err:?}");
    assert_eq!(
        err,
        Error::HotspotOutOfBounds { role: "Arrow".into(), x: 32, y: 0, size: 32, max: 31 }
    );
}

#[test]
fn rejects_unknown_role() {
    let mut p = pack_with([0, 0], 32);
    p.roles.insert("Sparkle".into(), spec_with("x.svg"));
    assert!(matches!(p.validate(), Err(Error::UnknownRole(_))));
}

#[test]
fn rejects_pack_that_changes_nothing() {
    let mut p = pack_with([0, 0], 32);
    let mut arrow = p.roles.get("Arrow").unwrap().clone();
    arrow.inherit = Some("system".into());
    p.roles.insert("Arrow".into(), arrow);
    assert!(matches!(p.validate(), Err(Error::EmptyPack)));

    p.roles.clear();
    assert!(matches!(p.validate(), Err(Error::EmptyPack)));
}

#[test]
fn active_roles_follow_canonical_order_not_alphabetical() {
    let mut p = pack_with([0, 0], 32);
    for r in ["Hand", "Wait", "IBeam"] {
        p.roles.insert(r.into(), spec_with("x.svg"));
    }
    let order: Vec<&str> = p.active_roles().iter().map(|(n, _)| *n).collect();
    assert_eq!(order, vec!["Arrow", "Wait", "IBeam", "Hand"]);
}

#[test]
fn every_role_has_a_unique_name_and_xcursor_mapping() {
    let mut seen = std::collections::HashSet::new();
    for r in roles() {
        assert!(seen.insert(r.win), "duplicate role {}", r.win);
        assert!(!r.xcursor.is_empty(), "{} has no xcursor names", r.win);
    }
    assert!(role("arrow").is_some(), "lookup should be case-insensitive");
}

#[test]
fn each_manifest_value_out_of_range_is_reported() {
    let mut p = pack_with([0, 0], 0);
    assert_eq!(p.validate(), Err(Error::Invalid(Invalid::BaseSizeZero)));
    p.base_size = 32;
    p.sizes = Vec::new();
    assert_eq!(p.validate(), Err(Error::Invalid(Invalid::NoSizes)));
    p.sizes = vec![32, 300, 0];
    assert_eq!(p.validate(), Err(Error::Invalid(Invalid::SizeOutOfRange(300))));
    p.sizes = default_sizes();
    let mut bad_fps = spec_with("w.ani");
    bad_fps.fps_bits = f32::INFINITY.to_bits();
    p.roles.insert("Wait".into(), bad_fps);
    assert_eq!(p.validate(), Err(Error::Invalid(Invalid::InvalidFps { role: "Wait".into(), fps_bits: f32::INFINITY.to_bits() })));
    let mut bad_grid = spec_with("w.png");
    bad_grid.grid = Some(Grid { cols: 0, rows: 2, frames: None });
    p.roles.insert("Wait".into(), bad_grid);
    assert_eq!(p.validate(), Err(Error::Invalid(Invalid::ZeroGrid { role: "Wait".into() })));
    p.roles.insert("Wait".into(), spec_with("w.png"));
    assert_eq!(p.validate(), Ok(()));
}

#[test]
fn the_role_map_reads_back_what_was_written() {
    let mut m = RoleMap::new();
    assert!(m.is_empty());
    m.insert("Wait".into(), spec_with("a"));
    m.insert("Arrow".into(), spec_with("b"));
    m.insert("Wait".into(), spec_with("c"));
    assert_eq!(m.len(), 2);
    assert_eq!(m.get("Wait").unwrap().source.as_deref(), Some("c"));
    assert_eq!(m.get("Arrow").unwrap().source.as_deref(), Some("b"));
    assert!(m.get("Hand").is_none());
    let keys: Vec<&str> = m.entries().iter().map(|(k, _)| k.as_str()).collect();
    assert_eq!(keys, vec!["Arrow", "Wait"], "entries stay in name order");
}

#[test]
fn defaults_match_a_fresh_manifest() {
    let d = RoleSpec::default();
    assert_eq!(f32::from_bits(d.fps_bits), 20.0);
    assert_eq!(default_fps(), DEFAULT_FPS_BITS);
    assert!(d.looping && default_loop());
    assert_eq!(d.upscale, UpscaleMode::Off);
    assert_eq!(UpscaleMode::default(), UpscaleMode::Off);
    assert_eq!(default_base_size(), 32);
    assert_eq!(default_format(), 1);
    assert_eq!(default_sizes(), vec![32, 48, 64, 96, 128, 192, 256]);
    assert!(d.is_system(), "no source means the Windows default");
    assert!(!spec_with("a").is_system());
}

#[test]
fn removing_a_role_takes_out_only_that_role() {
    let mut roles = RoleMap::new();
    roles.insert("Wait".into(), spec_with("w.ani"));
    roles.insert("Arrow".into(), spec_with("a.cur"));
    let taken = roles.remove("Arrow").unwrap();
    assert_eq!(taken.source.as_deref(), Some("a.cur"));
    assert!(roles.get("Arrow").is_none());
    assert_eq!(roles.get("Wait").unwrap().source.as_deref(), Some("w.ani"));
    assert_eq!(roles.len(), 1);
    assert!(roles.remove("Arrow").is_none());
    assert_eq!(roles.len(), 1);
}

#[test]
fn replacing_a_role_keeps_the_others_and_their_order() {
    let mut roles = RoleMap::new();
    roles.insert("Wait".into(), spec_with("w.ani"));
    roles.insert("Arrow".into(), spec_with("a.cur"));
    roles.insert("Hand".into(), spec_with("h.cur"));
    assert!(roles.set_existing("Hand", spec_with("h2.cur")));
    assert!(!roles.set_existing("Pin", spec_with("p.cur")));
    let names: Vec<&str> = roles.entries().iter().map(|(n, _)| n.as_str()).collect();
    assert_eq!(names, vec!["Arrow", "Hand", "Wait"]);
    assert_eq!(roles.get("Hand").unwrap().source.as_deref(), Some("h2.cur"));
    assert_eq!(roles.get("Wait").unwrap().source.as_deref(), Some("w.ani"));
    assert!(roles.get("Pin").is_none());
}
