use imagegen::color::from_3;
use imagegen::generate::Pixel;
use imagegen::geometry::{CanonicalPixel, Geometry};
use imagegen::getopt::{Getopt, GetoptItem, Opt};
use imagegen::pnmdata::PnmData;
use imagegen::progress::{NoOpProgressor, ProgressorSel, TextProgressor};
use imagegen::setup::{handle_opts as setup_handle_opts, SetupError};

fn parse_setup(args: &[&str]) -> Vec<GetoptItem> {
    let mut o: Vec<Opt> = Vec::new();
    o.extend(imagegen::setup::opts());
    o.extend(imagegen::progress::opts());
    let getopt = Getopt::from_iter(o).unwrap();
    let mut it = getopt.parse(args.iter().map(|s| s.to_string()).collect());
    let mut items = Vec::new();
    while let Some(r) = it.next() {
        items.push(r.unwrap());
    }
    items
}

#[test]
fn setup_defaults_and_options() {
    let c = setup_handle_opts(&parse_setup(&[]), 77).unwrap();
    assert_eq!((c.dimx, c.dimy), (256, 256));
    assert_eq!(c.locked.image.maxval, 255);
    assert_eq!(c.rng_seed, 77);
    assert_eq!(c.pixels_placed, 0);
    assert!(!c.finished);

    let c = setup_handle_opts(&parse_setup(&["-x8", "-y4", "--maxval", "100", "-S9"]), 77)
        .unwrap();
    assert_eq!((c.dimx, c.dimy), (8, 4));
    assert_eq!(c.size, 32);
    assert_eq!(c.locked.image.maxval, 100);
    assert_eq!(c.rng_seed, 9);

    let c = setup_handle_opts(&parse_setup(&["-s", "16x2"]), 0).unwrap();
    assert_eq!((c.dimx, c.dimy), (16, 2));
    let c = setup_handle_opts(&parse_setup(&["-s", "16,2"]), 0).unwrap();
    assert_eq!((c.dimx, c.dimy), (16, 2));
}

#[test]
fn setup_faults() {
    assert!(matches!(
        setup_handle_opts(&parse_setup(&["-x8", "-x9"]), 0),
        Err(SetupError::Duplicate)
    ));
    assert!(matches!(
        setup_handle_opts(&parse_setup(&["-x0"]), 0),
        Err(SetupError::BadValue)
    ));
    assert!(matches!(
        setup_handle_opts(&parse_setup(&["-xzz"]), 0),
        Err(SetupError::BadValue)
    ));
    assert!(matches!(
        setup_handle_opts(&parse_setup(&["-x40000"]), 0),
        Err(SetupError::TooLarge)
    ));
    assert!(matches!(
        setup_handle_opts(&parse_setup(&["-s", "8x4", "-y2"]), 0),
        Err(SetupError::Duplicate)
    ));
}

#[test]
fn image_set_then_get_round_trip() {
    let mut img = PnmData::new_zero(4, 3, 255);
    let c = from_3(1, 2, 3);
    img.set(2, 3, c);
    assert_eq!(img.get(2, 3), c);
    assert_eq!(img.get(2, 2), from_3(0, 0, 0));
    assert_eq!(img.get(0, 3), from_3(0, 0, 0));
}

#[test]
fn pnm_bytes_exact() {
    let mut img = PnmData::new_zero(2, 2, 255);
    img.set(0, 0, from_3(imagegen::color::UNIT, 0, 0));
    let b = img.to_bytes();
    let header: &[u8] = b"P6\n2 2\n255\n";
    assert_eq!(&b[..header.len()], header);
    assert_eq!(&b[header.len()..], &[255, 0, 0, 0, 0, 0, 0, 0, 0, 0, 0, 0]);

    // Channels beyond the scale clamp to the scale; negatives clamp to
    // zero.
    let mut img = PnmData::new_zero(1, 1, 200);
    img.set(0, 0, from_3(2 * imagegen::color::UNIT, -imagegen::color::UNIT, 0));
    let b = img.to_bytes();
    let header: &[u8] = b"P6\n1 1\n200\n";
    assert_eq!(&b[header.len()..], &[200, 0, 0]);
}

#[test]
fn geometry_canonicalize() {
    let g = Geometry::bounded(4, 3);
    assert_eq!(g.canonicalize(Pixel { x: 3, y: 2 }), Some(CanonicalPixel { x: 3, y: 2 }));
    assert_eq!(g.canonicalize(Pixel { x: 4, y: 0 }), None);
    assert_eq!(g.canonicalize(Pixel { x: -1, y: 0 }), None);

    let w = Geometry { ns_wrap: true, ew_wrap: true, dimx: 4, dimy: 3 };
    // Wrap-around uses floor-modulus: negative coordinates land at the
    // high edge.
    assert_eq!(w.canonicalize(Pixel { x: -1, y: -1 }), Some(CanonicalPixel { x: 3, y: 2 }));
    assert_eq!(w.canonicalize(Pixel { x: 5, y: 3 }), Some(CanonicalPixel { x: 1, y: 0 }));
    assert_eq!(w.canonicalize(Pixel { x: -4, y: -3 }), Some(CanonicalPixel { x: 0, y: 0 }));
}

#[test]
fn progress_interval_firing() {
    // With interval 1024, a 128-by-128 run of one step per pixel fires the
    // observer roughly size over 1024 times, and the final report after
    // the run is exactly one.
    let size = 128usize * 128;
    let interval = 1024usize;
    let mut t = TextProgressor::new(interval);
    let mut fired = 0usize;
    for step in 0..size {
        if t.observe(4, step.min(size), step, size).is_some() {
            fired += 1;
        }
    }
    let expect = size / interval;
    assert!(fired + 1 >= expect && fired <= expect + 1, "fired {} times", fired);
    // The closing report, as the driver emits it after termination, is a
    // single nonempty line.
    let final_report = imagegen::progress::progress_line(interval, 0, size, size, size);
    assert!(!final_report.is_empty());

    // The line's bytes are pinned exactly.
    let line = imagegen::progress::progress_line(1024, 5, 8192, 9000, 16384);
    assert_eq!(
        String::from_utf8(line).unwrap(),
        "permille done 500 (interval 1024, edges 5, placed 8192, generated 9000)"
    );

    let noop = NoOpProgressor {};
    assert!(noop.observe().is_none());
}

#[test]
fn progress_options() {
    let (sels, data) = imagegen::progress::handle_opts(&parse_setup(&["-I", "16"]));
    assert_eq!(sels, vec![ProgressorSel::Text]);
    assert_eq!(data.progress_interval, 16);
    assert_eq!(data.progress_count, 0);

    let (sels, data) = imagegen::progress::handle_opts(&parse_setup(&[]));
    assert_eq!(sels, vec![ProgressorSel::Text]);
    assert_eq!(data.progress_interval, 1024);

    // Selections keep their order; asking for an unavailable back-end
    // degrades to a no-op observer instead of failing the run.
    let (sels, data) = imagegen::progress::handle_opts(&parse_setup(&[
        "-T",
        "-P",
        "frames.pnm",
        "-M",
        "3",
        "--SDL",
        "--framebuffer",
    ]));
    assert_eq!(
        sels,
        vec![
            ProgressorSel::Text,
            ProgressorSel::File("frames.pnm".to_string()),
            ProgressorSel::NoOp,
            ProgressorSel::NoOp,
        ]
    );
    assert_eq!(data.progress_count, 3);

    let (sels, _) = imagegen::progress::handle_opts(&parse_setup(&["-d"]));
    assert_eq!(sels, vec![ProgressorSel::DefaultFile]);
}

#[test]
fn file_progressor_emits_frames() {
    let mut f = imagegen::progress::FileProgressor::new(1);
    let img = PnmData::new_zero(2, 1, 255);
    assert!(f.observe(&img).is_none());
    let frame = f.observe(&img).unwrap();
    assert_eq!(frame, img.to_bytes());
}

#[test]
fn rng_below_stays_in_range() {
    let mut rng = imagegen::rng::seeded_rng(11);
    for _ in 0..1000 {
        let v = imagegen::rng::rng_below(&mut rng, 7);
        assert!(v < 7);
    }
}

#[test]
fn shuffle_keeps_contents() {
    let mut rng = imagegen::rng::seeded_rng(12);
    let mut v: Vec<imagegen::generate::Offset> = imagegen::generate::normal_offsets();
    let before = v.clone();
    imagegen::rng::shuffle_vec(&mut rng, &mut v);
    assert_eq!(v.len(), before.len());
    let mut sorted_a: Vec<(i32, i32)> = before.iter().map(|o| (o.dx, o.dy)).collect();
    let mut sorted_b: Vec<(i32, i32)> = v.iter().map(|o| (o.dx, o.dy)).collect();
    sorted_a.sort();
    sorted_b.sort();
    assert_eq!(sorted_a, sorted_b);
}

#[test]
fn choose_distinct_picks_from_source() {
    let mut rng = imagegen::rng::seeded_rng(13);
    let source: Vec<(usize, usize)> = (0..20).map(|i| (i, i + 1)).collect();
    let picked = imagegen::rng::choose_distinct(&mut rng, &source, 5);
    assert_eq!(picked.len(), 5);
    for p in &picked {
        assert!(source.contains(p));
    }
    let mut uniq = picked.clone();
    uniq.sort();
    uniq.dedup();
    assert_eq!(uniq.len(), 5);
    let all = imagegen::rng::choose_distinct(&mut rng, &source, 100);
    assert_eq!(all.len(), 20);
}
