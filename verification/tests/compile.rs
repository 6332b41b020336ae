use cursorpack::ani::Anim;
use cursorpack::compile::{
    collapse_warnings, dedup_warnings, kept_images, upscale_low_resolution, WarningLine,
    apply_gif_timing, cursor_file_name, frame_sizes, group_frames, is_ready_made, native_size,
    plan_ready_made, ready_made_info, role_sizes,
};
use cursorpack::ico::{encode, Image, TYPE_CURSOR};
use cursorpack::manifest::UpscaleMode;
use cursorpack::raster::Warning;
use cursorpack::Error;

fn solid(size: u32) -> Image {
    Image { size, rgba: vec![7; (size * size * 4) as usize], hot_x: 1, hot_y: 2 }
}

#[test]
fn ready_made_files_are_told_by_extension() {
    assert!(is_ready_made("a.cur") && is_ready_made("b.ANI") && is_ready_made("c.ico"));
    assert!(!is_ready_made("d.png"));
}

#[test]
fn a_cursor_reports_its_sizes_from_the_directory() {
    let bytes = encode(&[solid(48), solid(32)], TYPE_CURSOR).unwrap();
    assert_eq!(frame_sizes(&bytes), vec![32, 48]);
    assert_eq!(ready_made_info("a.cur", &bytes).unwrap(), (false, 1, vec![32, 48]));
    assert_eq!(
        ready_made_info("junk.cur", b"junk"),
        Err(Error::UnreadableCursor { path: "junk.cur".into() })
    );
    assert_eq!(native_size(&[32, 48]), 48);
    assert_eq!(native_size(&[]), 32);
}

#[test]
fn a_plain_pass_through_keeps_its_sizes_and_flags_low_resolution() {
    let plan = plan_ready_made("Arrow", false, &[32], &[32, 64], UpscaleMode::Off, false);
    assert!(!plan.needs_decode);
    assert_eq!(plan.target, vec![32]);
    assert_eq!(plan.warnings, vec![Warning::LowResolutionSource { role: "Arrow".into(), largest: 32 }]);
}

#[test]
fn upscaling_adds_the_pack_sizes() {
    let plan = plan_ready_made("Arrow", false, &[32], &[32, 64], UpscaleMode::Raster, false);
    assert!(plan.needs_decode);
    assert_eq!(plan.target, vec![32, 64]);
    assert_eq!(
        plan.warnings,
        vec![Warning::ReadyMadeUpscaled { role: "Arrow".into(), native: 32, added: vec![64], mode: UpscaleMode::Raster }]
    );
}

#[test]
fn an_upscaled_animation_respects_the_frame_budget() {
    let plan = plan_ready_made("Wait", true, &[32], &[32, 48, 64, 96, 128], UpscaleMode::Raster, false);
    assert_eq!(plan.target, vec![32, 48, 64]);
    assert_eq!(plan.warnings.len(), 2);
    assert_eq!(
        plan.warnings[0],
        Warning::AnimationSizesDropped { role: "Wait".into(), kept: vec![32, 48, 64], dropped: vec![96, 128] }
    );
}

#[test]
fn drawn_animations_drop_sizes_past_the_budget() {
    let (sizes, warnings) = role_sizes("Wait", &[128, 32, 48, 32, 64, 96], true);
    assert_eq!(sizes, vec![32, 48, 64]);
    assert_eq!(warnings.len(), 1);
    let (sizes, warnings) = role_sizes("Arrow", &[64, 32, 32], false);
    assert_eq!(sizes, vec![32, 64]);
    assert!(warnings.is_empty());
}

#[test]
fn rendered_frames_regroup_by_frame() {
    let sizes = [32u32, 64];
    let hot = [(1u16, 1u16), (2, 2)];
    let rendered = vec![
        vec![vec![1u8; 32 * 32 * 4], vec![2u8; 32 * 32 * 4]],
        vec![vec![3u8; 64 * 64 * 4], vec![4u8; 64 * 64 * 4]],
    ];
    let frames = group_frames("Wait", &sizes, &hot, &rendered, 2).unwrap();
    assert_eq!(frames.len(), 2);
    assert_eq!(frames[1][0].rgba[0], 2);
    assert_eq!(frames[1][1].size, 64);
    assert_eq!((frames[1][1].hot_x, frames[1][1].hot_y), (2, 2));
    assert_eq!(
        group_frames("Wait", &sizes, &hot, &rendered, 3).err(),
        Some(Error::LostFrame { role: "Wait".into(), frame: 2, size: 32 })
    );
}

#[test]
fn gif_timing_is_honoured() {
    let mut a = Anim { frames: vec![vec![solid(32)], vec![solid(32)]], default_rate: 6, rates: None, seq: None };
    apply_gif_timing(&mut a, vec![3, 3]);
    assert_eq!((a.default_rate, a.rates.clone()), (3, None));
    apply_gif_timing(&mut a, vec![3, 9]);
    assert_eq!(a.rates, Some(vec![3, 9]));
    assert_eq!(cursor_file_name("Wait", true), "Wait.ani");
    assert_eq!(cursor_file_name("Arrow", false), "Arrow.cur");
}

fn pack_of(roles: &[&str]) -> cursorpack::manifest::Pack {
    let mut map = cursorpack::manifest::RoleMap::new();
    for r in roles {
        map.insert(
            r.to_string(),
            cursorpack::manifest::RoleSpec { source: Some(format!("{r}.cur")), ..Default::default() },
        );
    }
    cursorpack::manifest::Pack {
        format: 1,
        name: "p".into(),
        author: None,
        version: None,
        description: None,
        base_size: 32,
        sizes: vec![32, 64],
        roles: map,
    }
}

#[test]
fn low_resolution_roles_get_upscaling_and_nothing_else_changes() {
    let mut pack = pack_of(&["Arrow", "Wait", "Hand"]);
    let warnings = vec![
        Warning::LowResolutionSource { role: "Arrow".into(), largest: 32 },
        Warning::Upscaled { path: "x.png".into(), native: 128, requested: 256 },
        Warning::LowResolutionSource { role: "Hand".into(), largest: 48 },
        Warning::LowResolutionSource { role: "Person".into(), largest: 32 },
    ];
    let changed = upscale_low_resolution(&mut pack, &warnings, UpscaleMode::Vector);
    assert_eq!(changed, 2);
    assert_eq!(pack.roles.get("Arrow").unwrap().upscale, UpscaleMode::Vector);
    assert_eq!(pack.roles.get("Hand").unwrap().upscale, UpscaleMode::Vector);
    assert_eq!(pack.roles.get("Wait").unwrap().upscale, UpscaleMode::Off);
    assert_eq!(pack.roles.get("Arrow").unwrap().source.as_deref(), Some("Arrow.cur"));
    assert!(pack.roles.get("Person").is_none());
    assert_eq!(pack.roles.len(), 3);
    assert_eq!(pack.validate(), Ok(()));
}

#[test]
fn repetitive_warnings_collapse_into_one_line() {
    let up = Warning::Upscaled { path: "x.png".into(), native: 128, requested: 256 };
    let pad = Warning::Padded { path: "y.png".into(), from_w: 128, from_h: 130, to: 130 };
    let warnings = vec![
        Warning::LowResolutionSource { role: "Arrow".into(), largest: 32 },
        up.clone(),
        up.clone(),
        Warning::LowResolutionSource { role: "Wait".into(), largest: 48 },
        Warning::LowResolutionSource { role: "Hand".into(), largest: 32 },
        up.clone(),
        pad.clone(),
    ];
    let lines = collapse_warnings(&warnings);
    assert_eq!(lines.len(), 3);
    match &lines[0] {
        WarningLine::LowResolution { count, first_role, biggest } => {
            assert_eq!((*count, first_role.as_str(), *biggest), (3, "Arrow", 48));
        }
        other => panic!("expected the folded line first, got {other:?}"),
    }
    assert!(matches!(&lines[1], WarningLine::Single(w) if *w == up));
    assert!(matches!(&lines[2], WarningLine::Single(w) if *w == pad));

    let none = collapse_warnings(&[up.clone()]);
    assert_eq!(none.len(), 1);
    assert!(matches!(&none[0], WarningLine::Single(w) if *w == up));
    assert!(collapse_warnings(&[]).is_empty());
}

#[test]
fn runs_of_equal_warnings_are_kept_once() {
    let a = Warning::Upscaled { path: "x.png".into(), native: 128, requested: 192 };
    let b = Warning::Upscaled { path: "x.png".into(), native: 128, requested: 256 };
    let out = dedup_warnings(&[a.clone(), a.clone(), b.clone(), a.clone(), a.clone()]);
    assert_eq!(out, vec![a.clone(), b, a]);
    assert!(dedup_warnings(&[]).is_empty());
}

#[test]
fn existing_sizes_are_kept_and_missing_ones_synthesized() {
    let images = vec![solid(32), solid(48), solid(32)];
    assert_eq!(kept_images(&images, &[32, 48, 64]), vec![Some(2), Some(1), None]);
    assert_eq!(kept_images(&images, &[]), Vec::<Option<usize>>::new());
}
