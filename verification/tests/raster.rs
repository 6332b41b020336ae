use cursorpack::manifest::Grid;
use cursorpack::raster::{
    cell_origin, check_frame, gif_delay_ms, pad_square, premultiply, resize_rgba, sequence_frames,
    sheet_cells, size_warnings, trailing_number, unpremultiply, Warning,
};
use cursorpack::Error;

#[test]
fn reads_trailing_frame_numbers() {
    assert_eq!(trailing_number("walk_007.png"), Some(7));
    assert_eq!(trailing_number("f0.png"), Some(0));
    assert_eq!(trailing_number("spin-12.png"), Some(12));
    assert_eq!(trailing_number("frame.png"), None);
    assert_eq!(trailing_number("3d_arrow.png"), None);
}

#[test]
fn premultiply_round_trips_within_rounding_error() {
    let mut img: Vec<u8> = Vec::new();
    for x in 0..4u32 {
        for y in 0..4u32 {
            img.extend_from_slice(&[200, 100, 50, ((x * 4 + y) * 16).min(255) as u8]);
        }
    }
    let original = img.clone();
    premultiply(&mut img, 16);
    unpremultiply(&mut img, 16);
    for (a, b) in original.chunks_exact(4).zip(img.chunks_exact(4)) {
        assert_eq!(a[3], b[3], "alpha must be exact");
        if a[3] > 32 {
            for c in 0..3 {
                let diff = (a[c] as i32 - b[c] as i32).abs();
                assert!(diff <= 8, "channel drifted by {diff} at alpha {}", a[3]);
            }
        }
    }
}

#[test]
fn downscaling_does_not_darken_soft_edges() {
    let mut img: Vec<u8> = Vec::with_capacity(256 * 256 * 4);
    for _y in 0..256u32 {
        for x in 0..256u32 {
            img.extend_from_slice(&[255, 255, 255, 255 - (x as f32 / 255.0 * 255.0) as u8]);
        }
    }
    let small = resize_rgba(&img, 256, 32).unwrap();
    assert_eq!(small.len(), 32 * 32 * 4);
    for p in small.chunks_exact(4) {
        if p[3] > 16 {
            assert!(p[0] > 230 && p[1] > 230 && p[2] > 230, "edge pixel darkened to {:?}", p);
        }
    }
}

#[test]
fn resizing_to_the_same_size_keeps_the_pixels() {
    let img: Vec<u8> = (0..16 * 16 * 4).map(|i| (i % 251) as u8).collect();
    assert_eq!(resize_rgba(&img, 16, 16).unwrap(), img);
    assert_eq!(resize_rgba(&img[..10], 16, 8), Err(Error::NotRgba { size: 16 }));
}

#[test]
fn non_square_art_is_padded_and_reported() {
    let (side, warn) = pad_square("a.png", 200, 128);
    assert_eq!(side, 200);
    assert_eq!(warn, Some(Warning::Padded { path: "a.png".into(), from_w: 200, from_h: 128, to: 200 }));
}

#[test]
fn square_art_is_left_alone() {
    let (side, warn) = pad_square("a.png", 128, 128);
    assert_eq!(side, 128);
    assert!(warn.is_none());
}

#[test]
fn raster_art_warns_when_a_requested_size_would_upscale() {
    let w = size_warnings(Some(128), "a.png", &[32, 64, 128, 256]);
    assert_eq!(w.len(), 1);
    assert!(matches!(w[0], Warning::Upscaled { native: 128, requested: 256, .. }));
    assert!(size_warnings(None, "a.svg", &[256]).is_empty());
}

fn names(list: &[&str]) -> Vec<String> {
    list.iter().map(|s| s.to_string()).collect()
}

#[test]
fn numbered_frames_play_in_number_order() {
    let files = names(&["spin_10.png", "spin_9.png", "notes.txt", "spin_11.PNG", "cover.png"]);
    assert_eq!(sequence_frames("spin", &files).unwrap(), names(&["spin_9.png", "spin_10.png", "spin_11.PNG"]));
}

#[test]
fn frame_number_gaps_are_reported() {
    let files = names(&["f_1.png", "f_2.png", "f_5.png"]);
    assert_eq!(
        sequence_frames("anim", &files),
        Err(Error::FrameGap { dir: "anim".into(), found: 3, max: 5, first: 1, missing: vec![3, 4] })
    );
    assert_eq!(sequence_frames("none", &names(&["a.txt"])), Err(Error::NoFrames { dir: "none".into() }));
}

#[test]
fn every_frame_must_match_the_first() {
    assert_eq!(check_frame(None, "a.png", 256, 200), Ok((256, 200)));
    assert_eq!(
        check_frame(None, "a.png", 64, 200),
        Err(Error::SourceTooSmall { path: "a.png".into(), got: 64, want: 128 })
    );
    assert_eq!(check_frame(Some((256, 200)), "b.png", 256, 200), Ok((256, 200)));
    assert_eq!(
        check_frame(Some((256, 200)), "b.png", 200, 256),
        Err(Error::FrameSizeMismatch { path: "b.png".into(), w: 200, h: 256, fw: 256, fh: 200 })
    );
}

#[test]
fn sprite_sheets_divide_into_cells() {
    let g = Grid { cols: 4, rows: 2, frames: None };
    let c = sheet_cells("s.png", 1024, 512, g).unwrap();
    assert_eq!((c.cell_w, c.cell_h, c.count), (256, 256, 8));
    assert_eq!(cell_origin(5, 4, 256, 256), (256, 256));
    assert!(matches!(sheet_cells("s.png", 1001, 512, g), Err(Error::SheetNotDivisible { .. })));
    let g9 = Grid { cols: 4, rows: 2, frames: Some(9) };
    assert!(matches!(sheet_cells("s.png", 1024, 512, g9), Err(Error::SheetFrameCount { capacity: 8, .. })));
    assert!(matches!(sheet_cells("s.png", 400, 200, g), Err(Error::SourceTooSmall { got: 100, .. })));
}

#[test]
fn gif_delays_default_to_a_tenth_of_a_second() {
    assert_eq!(gif_delay_ms(70, 1), 70);
    assert_eq!(gif_delay_ms(1000, 0), 100);
    assert_eq!(gif_delay_ms(100, 3), 33);
}
