use cursorpack::ani::{self, decode, encode, fit_sizes, parse, Anim, AF_ICON, AF_SEQUENCE, MAX_FRAME_BYTES};
use cursorpack::bytes::read_u32;
use cursorpack::ico::{frame_bytes, Image};

fn img(size: u32, tint: u8) -> Image {
    Image {
        size,
        rgba: (0..size * size * 4).map(|i| (i as u8).wrapping_add(tint)).collect(),
        hot_x: (size / 8) as u16,
        hot_y: (size / 16) as u16,
    }
}

/// The frame delay in jiffies for a frame rate, as the application computes it.
fn jiffies_for_fps(fps: f32) -> u32 {
    if !fps.is_finite() || fps <= 0.0 {
        return 6;
    }
    ((60.0 / fps).round() as i64).clamp(1, u32::MAX as i64) as u32
}

fn anim(n: usize, fps: f32) -> Anim {
    let frames = (0..n).map(|i| vec![img(32, i as u8), img(64, i as u8)]).collect();
    Anim::from_frames(frames, jiffies_for_fps(fps)).unwrap()
}

fn duration_ms(a: &Anim) -> f32 {
    a.total_jiffies() as f32 / 60.0 * 1000.0
}

#[test]
fn round_trip_preserves_frames_sizes_and_rate() {
    let a = anim(6, 20.0);
    let bytes = encode(&a).unwrap();
    let back = decode(&bytes).unwrap();

    assert_eq!(back.frames.len(), 6);
    assert_eq!(back.default_rate, 3);
    assert_eq!(back.sizes(), vec![32, 64]);
    for (orig, got) in a.frames.iter().zip(&back.frames) {
        for o in orig {
            let g = got.iter().find(|g| g.size == o.size).expect("size present");
            assert_eq!(g.rgba, o.rgba);
            assert_eq!((g.hot_x, g.hot_y), (o.hot_x, o.hot_y));
        }
    }
}

#[test]
fn header_matches_the_shape_windows_writes() {
    let bytes = encode(&anim(18, 20.0)).unwrap();
    let raw = parse(&bytes).unwrap();
    assert_eq!(raw.header.cb_size, 36);
    assert_eq!(raw.header.frames, 18);
    assert_eq!(raw.header.steps, 18);
    assert_eq!(raw.header.bit_count, 32);
    assert_eq!(raw.header.planes, 1);
    assert_eq!(raw.header.display_rate, 3);
    assert_eq!(raw.header.flags, AF_ICON, "no seq chunk means AF_ICON alone");
    assert!(raw.rates.is_none());
    assert!(raw.seq.is_none());
}

#[test]
fn riff_size_field_matches_actual_length() {
    let bytes = encode(&anim(5, 15.0)).unwrap();
    let declared = read_u32(&bytes, 4) as usize;
    assert_eq!(declared + 8, bytes.len());
    assert_eq!(bytes.len() % 2, 0, "top level should stay word aligned");
}

#[test]
fn sequence_and_rate_chunks_survive() {
    let mut a = anim(3, 20.0);
    a.seq = Some(vec![0, 1, 2, 1]);
    a.rates = Some(vec![3, 6, 3, 9]);

    let bytes = encode(&a).unwrap();
    let raw = parse(&bytes).unwrap();
    assert_eq!(raw.header.flags, AF_ICON | AF_SEQUENCE);
    assert_eq!(raw.header.steps, 4);
    assert_eq!(raw.header.frames, 3);
    assert_eq!(raw.seq.unwrap(), vec![0, 1, 2, 1]);
    assert_eq!(raw.rates.unwrap(), vec![3, 6, 3, 9]);
    assert_eq!(duration_ms(&a), 21.0 / 60.0 * 1000.0);
}

#[test]
fn rejects_inconsistent_frames() {
    let bad = Anim {
        frames: vec![vec![img(32, 0), img(64, 0)], vec![img(32, 1)]],
        default_rate: 3,
        rates: None,
        seq: None,
    };
    assert!(encode(&bad).is_err());

    let bad_seq = Anim {
        frames: vec![vec![img(32, 0)]],
        default_rate: 3,
        rates: None,
        seq: Some(vec![0, 5]),
    };
    assert!(encode(&bad_seq).is_err());

    let bad_rate = Anim {
        frames: vec![vec![img(32, 0)], vec![img(32, 1)]],
        default_rate: 3,
        rates: Some(vec![3]),
        seq: None,
    };
    assert!(encode(&bad_rate).is_err());
}

#[test]
fn size_budget_keeps_the_small_sizes_and_drops_the_large() {
    let (kept, dropped) = fit_sizes(&[32, 48, 64, 96, 128]);
    assert_eq!(kept, vec![32, 48, 64], "should match what Windows ships");
    assert_eq!(dropped, vec![96, 128]);
    assert!(frame_bytes(&kept) <= MAX_FRAME_BYTES);

    let (kept, dropped) = fit_sizes(&[32, 48]);
    assert_eq!(kept, vec![32, 48]);
    assert!(dropped.is_empty());

    let (kept, dropped) = fit_sizes(&[256]);
    assert_eq!(kept, vec![256]);
    assert!(dropped.is_empty());

    assert_eq!(fit_sizes(&[128, 32, 48, 32, 64]).0, vec![32, 48, 64]);
}

#[test]
fn rejects_junk() {
    assert!(parse(b"not a riff file at all").is_err());
    assert!(parse(b"RIFF\x04\x00\x00\x00WAVE").is_err());
}

#[test]
fn total_duration_counts_every_step() {
    let mut a = anim(3, 20.0);
    assert_eq!(a.steps(), 3);
    assert_eq!(a.total_jiffies(), 9);
    a.rates = Some(vec![1, 2, 3]);
    assert_eq!(a.total_jiffies(), 6);
    a.seq = Some(vec![0, 1, 2, 2, 1]);
    a.rates = None;
    assert_eq!(a.steps(), 5);
    assert_eq!(a.total_jiffies(), 15);
}

#[test]
fn an_animation_needs_frames() {
    assert!(Anim::from_frames(Vec::new(), 3).is_err());
}

#[test]
fn an_empty_frame_is_refused() {
    let bad = Anim { frames: vec![vec![img(32, 0)], vec![]], default_rate: 3, rates: None, seq: None };
    assert!(encode(&bad).is_err());
}

#[test]
fn decoding_an_encoded_animation_gives_it_back_with_images_largest_first() {
    let a = anim(2, 30.0);
    let back = decode(&encode(&a).unwrap()).unwrap();
    assert_eq!(back.default_rate, 2);
    for (orig, got) in a.frames.iter().zip(&back.frames) {
        assert_eq!(got.len(), 2);
        assert_eq!(got[0], orig[1]);
        assert_eq!(got[1], orig[0]);
    }
}

#[test]
fn fit_keeps_every_size_that_fits_and_drops_in_order() {
    let (kept, dropped) = fit_sizes(&[256, 128, 64, 48, 32]);
    let mut all = kept.clone();
    all.extend(dropped.iter().copied());
    assert_eq!(all, vec![32, 48, 64, 96, 128, 256].into_iter().filter(|s| *s != 96).collect::<Vec<_>>());
    assert!(frame_bytes(&kept) <= MAX_FRAME_BYTES);
    let mut more = kept.clone();
    more.push(dropped[0]);
    assert!(frame_bytes(&more) > MAX_FRAME_BYTES);
    assert_eq!(ani::JIFFIES_PER_SECOND, 60);
}
