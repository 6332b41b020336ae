use cursorpack::artwork::{
    cell_pixels, gif_art, load_frames, load_gif, load_sheet, load_static, pad_to_square, sequence_art, sheet_art,
    static_art,
};
use cursorpack::manifest::Grid;
use cursorpack::raster::Warning;
use cursorpack::Error;
use image::codecs::gif::GifEncoder;
use image::{Delay, Frame, ImageFormat, RgbaImage};
use std::io::Cursor;

/// A `w`x`h` image whose pixel at (x, y) is (x, y, 7, 255), as PNG bytes.
fn png(w: u32, h: u32) -> Vec<u8> {
    let img = RgbaImage::from_fn(w, h, |x, y| image::Rgba([x as u8, y as u8, 7, 255]));
    let mut out = Vec::new();
    img.write_to(&mut Cursor::new(&mut out), ImageFormat::Png).unwrap();
    out
}

/// What `image` says of `bytes` as the file at `path`.
fn msg_of(path: &str, bytes: &[u8]) -> String {
    let format = match ImageFormat::from_path(path) {
        Ok(f) => f,
        Err(e) => return e.to_string(),
    };
    image::load_from_memory_with_format(bytes, format).unwrap_err().to_string()
}

/// A GIF of `count` opaque `side`x`side` frames, each shown for `ms`.
fn gif(side: u32, count: u32, ms: u32) -> Vec<u8> {
    let mut out = Vec::new();
    {
        let mut enc = GifEncoder::new(&mut out);
        let frames: Vec<Frame> = (0..count)
            .map(|i| {
                let img = RgbaImage::from_pixel(side, side, image::Rgba([10 * i as u8, 0, 0, 255]));
                Frame::from_parts(img, 0, 0, Delay::from_numer_denom_ms(ms, 1))
            })
            .collect();
        enc.encode_frames(frames).unwrap();
    }
    out
}

#[test]
fn pads_art_into_the_top_left_of_a_square() {
    let px: Vec<u8> = vec![1, 2, 3, 4, 5, 6, 7, 8];
    let sq = pad_to_square(&px, 1, 2);
    assert_eq!(sq, vec![1, 2, 3, 4, 0, 0, 0, 0, 5, 6, 7, 8, 0, 0, 0, 0]);
    let wide: Vec<u8> = vec![1, 1, 1, 1, 2, 2, 2, 2];
    assert_eq!(pad_to_square(&wide, 2, 1), vec![1, 1, 1, 1, 2, 2, 2, 2, 0, 0, 0, 0, 0, 0, 0, 0]);
}

#[test]
fn cuts_a_cell_out_of_a_sheet() {
    // 2x2 pixels, each pixel's bytes all equal to its index.
    let px: Vec<u8> = (0..4u8).flat_map(|p| [p; 4]).collect();
    assert_eq!(cell_pixels(&px, 2, 1, 0, 1, 2), vec![1, 1, 1, 1, 3, 3, 3, 3]);
    assert_eq!(cell_pixels(&px, 2, 0, 1, 2, 1), vec![2, 2, 2, 2, 3, 3, 3, 3]);
}

#[test]
fn a_square_still_image_loads_as_one_frame() {
    let (art, warnings) = load_static("a.png", &png(128, 128)).unwrap();
    assert!(warnings.is_empty());
    assert_eq!(art.frames.len(), 1);
    assert_eq!(art.frames[0].0, 128);
    assert_eq!(art.frames[0].1.len(), 128 * 128 * 4);
    // Pixel (3, 5) keeps its place.
    let at = 4 * (5 * 128 + 3);
    assert_eq!(&art.frames[0].1[at..at + 4], &[3, 5, 7, 255]);
    assert_eq!(art.delays_ms, None);
}

#[test]
fn a_tall_still_image_is_padded_and_reported() {
    let (art, warnings) = load_static("a.png", &png(128, 130)).unwrap();
    assert_eq!(warnings, vec![Warning::Padded { path: "a.png".into(), from_w: 128, from_h: 130, to: 130 }]);
    assert_eq!(art.frames[0].0, 130);
    let px = &art.frames[0].1;
    assert_eq!(px.len(), 130 * 130 * 4);
    // Right of the art is transparent.
    let at = 4 * (10 * 130 + 129);
    assert_eq!(&px[at..at + 4], &[0, 0, 0, 0]);
    let at = 4 * (129 * 130 + 127);
    assert_eq!(&px[at..at + 4], &[127, 129, 7, 255]);
}

#[test]
fn undecodable_bytes_are_refused() {
    assert_eq!(
        load_static("bad.png", b"not an image").unwrap_err(),
        Error::Image { path: "bad.png".into(), msg: msg_of("bad.png", b"not an image") }
    );
}

#[test]
fn a_small_still_image_is_refused() {
    assert_eq!(
        load_static("s.png", &png(64, 200)).unwrap_err(),
        Error::SourceTooSmall { path: "s.png".into(), got: 64, want: 128 }
    );
}

#[test]
fn a_sheet_is_cut_into_its_cells() {
    let grid = Grid { cols: 2, rows: 1, frames: None };
    let (art, warnings) = load_sheet("sheet.png", &png(256, 128), grid).unwrap();
    assert!(warnings.is_empty());
    assert_eq!(art.frames.len(), 2);
    assert_eq!(art.frames[1].0, 128);
    // Pixel (0, 0) of the second cell is pixel (128, 0) of the sheet.
    assert_eq!(&art.frames[1].1[0..4], &[128, 0, 7, 255]);
}

#[test]
fn a_sheet_that_does_not_divide_is_refused() {
    let grid = Grid { cols: 3, rows: 1, frames: None };
    assert_eq!(
        load_sheet("sheet.png", &png(256, 128), grid).unwrap_err(),
        Error::SheetNotDivisible { path: "sheet.png".into(), w: 256, h: 128, cols: 3, rows: 1 }
    );
}

#[test]
fn a_gif_keeps_its_frames_and_delays() {
    let (art, _) = load_gif("spin.gif", &gif(128, 3, 50)).unwrap();
    assert_eq!(art.frames.len(), 3);
    assert!(art.frames.iter().all(|f| f.0 == 128 && f.1.len() == 128 * 128 * 4));
    assert_eq!(art.delays_ms, Some(vec![50, 50, 50]));
}

#[test]
fn a_small_gif_is_refused() {
    assert_eq!(
        load_gif("tiny.gif", &gif(32, 2, 50)).unwrap_err(),
        Error::SourceTooSmall { path: "tiny.gif".into(), got: 32, want: 128 }
    );
}

#[test]
fn sequence_frames_must_share_a_size() {
    let files = vec![
        ("d/f1.png".to_string(), png(128, 128)),
        ("d/f2.png".to_string(), png(128, 128)),
    ];
    let (art, warnings) = load_frames("d", &files).unwrap();
    assert_eq!(art.frames.len(), 2);
    assert!(warnings.is_empty());

    let files = vec![
        ("d/f1.png".to_string(), png(128, 128)),
        ("d/f2.png".to_string(), png(130, 128)),
    ];
    assert_eq!(
        load_frames("d", &files).unwrap_err(),
        Error::FrameSizeMismatch { path: "d/f2.png".into(), w: 130, h: 128, fw: 128, fh: 128 }
    );
}

#[test]
fn an_unknown_extension_is_refused_with_the_decoders_reason() {
    let err = load_static("a.xyz", &png(128, 128)).unwrap_err();
    let want = msg_of("a.xyz", &png(128, 128));
    assert!(!want.is_empty());
    assert_eq!(err, Error::Image { path: "a.xyz".into(), msg: want });
}

#[test]
fn still_art_from_decoded_pixels() {
    // A 2-wide, 1-tall decode too small for a cursor.
    let small = Ok((2u32, 1u32, vec![9u8; 8]));
    assert_eq!(
        static_art("p.png", small).unwrap_err(),
        Error::SourceTooSmall { path: "p.png".into(), got: 1, want: 128 }
    );
    assert_eq!(
        static_art("p.png", Err("broken".to_string())).unwrap_err(),
        Error::Image { path: "p.png".into(), msg: "broken".into() }
    );
    let px: Vec<u8> = (0..128 * 129 * 4).map(|i| (i % 256) as u8).collect();
    let (art, warnings) = static_art("p.png", Ok((129, 128, px.clone()))).unwrap();
    assert_eq!(warnings, vec![Warning::Padded { path: "p.png".into(), from_w: 129, from_h: 128, to: 129 }]);
    assert_eq!(art.frames[0].0, 129);
    assert_eq!(&art.frames[0].1[..129 * 4], &px[..129 * 4]);
    assert!(art.frames[0].1[128 * 129 * 4..].iter().all(|b| *b == 0));
}

#[test]
fn sheet_art_from_decoded_pixels() {
    let grid = Grid { cols: 1, rows: 2, frames: None };
    assert_eq!(
        sheet_art("s.png", Err("bad".to_string()), grid).unwrap_err(),
        Error::Image { path: "s.png".into(), msg: "bad".into() }
    );
    let px: Vec<u8> = (0..128 * 256).flat_map(|p| [(p / 128 / 128) as u8; 4]).collect();
    let (art, warnings) = sheet_art("s.png", Ok((128, 256, px)), grid).unwrap();
    assert!(warnings.is_empty());
    assert_eq!(art.frames.len(), 2);
    assert!(art.frames[0].1.iter().all(|b| *b == 0));
    assert!(art.frames[1].1.iter().all(|b| *b == 1));
}

#[test]
fn gif_art_from_decoded_frames() {
    let frame = |n: u32, d: u32| (n, d, 128u32, 128u32, vec![5u8; 128 * 128 * 4]);
    let (art, _) = gif_art("g.gif", Ok(vec![frame(70, 1), frame(7, 0)])).unwrap();
    assert_eq!(art.delays_ms, Some(vec![70, 100]));
    assert_eq!(gif_art("g.gif", Ok(vec![])).unwrap_err(), Error::NoFrames { dir: "g.gif".into() });
    assert_eq!(
        gif_art("g.gif", Err("eof".to_string())).unwrap_err(),
        Error::Image { path: "g.gif".into(), msg: "eof".into() }
    );
}

#[test]
fn sequence_art_stops_at_the_first_bad_frame() {
    let ok = |side: u32| Ok((side, side, vec![1u8; (side * side * 4) as usize]));
    let frames = vec![
        ("d/a1.png".to_string(), ok(128)),
        ("d/a2.png".to_string(), Err("truncated".to_string())),
        ("d/a3.png".to_string(), ok(130)),
    ];
    assert_eq!(
        sequence_art("d", &frames).unwrap_err(),
        Error::Image { path: "d/a2.png".into(), msg: "truncated".into() }
    );
    assert_eq!(sequence_art("d", &[]).unwrap_err(), Error::NoFrames { dir: "d".into() });
    let (art, _) = sequence_art("d", &[("d/a1.png".to_string(), ok(128))]).unwrap();
    assert_eq!(art.frames.len(), 1);
}
