use imagegen::color::handle_opts as color_handle_opts;
use imagegen::generate::{
    diagonal_offsets, handle_opts as gen_handle_opts, knight_offsets, normal_offsets, opts,
    orthogonal_offsets, place_pixel_inner, validate_inner_edges, GenError, Offset, Pixel,
};
use imagegen::getopt::{Getopt, GetoptItem, Opt};
use imagegen::setup::handle_opts as setup_handle_opts;
use imagegen::CommonData;

fn all_opts() -> Vec<Opt> {
    let mut v: Vec<Opt> = Vec::new();
    v.extend(imagegen::setup::opts());
    v.extend(imagegen::geometry::opts());
    v.extend(opts());
    v.extend(imagegen::color::opts());
    v.extend(imagegen::progress::opts());
    v
}

fn parse_args(args: &[&str]) -> Vec<GetoptItem> {
    let getopt = Getopt::from_iter(all_opts()).unwrap();
    let mut it = getopt.parse(args.iter().map(|s| s.to_string()).collect());
    let mut items = Vec::new();
    while let Some(r) = it.next() {
        items.push(r.unwrap());
    }
    items
}

fn run(args: &[&str], max_steps: usize) -> (CommonData, usize) {
    let items = parse_args(args);
    let mut common = setup_handle_opts(&items, 1).unwrap();
    let generator = gen_handle_opts(&items).unwrap();
    let model = color_handle_opts(&items).unwrap();
    let mut rng = imagegen::rng::seeded_rng(common.rng_seed);
    let steps = generator.generate(&mut common, &model, &mut rng, max_steps);
    (common, steps)
}

#[test]
fn basic_offsets() {
    let cases: [(&[&str], Vec<Offset>); 9] = [
        (&[], normal_offsets()),
        (&["-On"], normal_offsets()),
        (&["-Oo"], orthogonal_offsets()),
        (&["-Od"], diagonal_offsets()),
        (&["-Ok"], knight_offsets()),
        (&["-O", "k"], knight_offsets()),
        (&["-O3,3"], vec![Offset { dx: 3, dy: 3 }]),
        (&["-O", "n", "-O-3,-3"], {
            let mut v = normal_offsets();
            v.push(Offset { dx: -3, dy: -3 });
            v
        }),
        (&["-O", "n", "-O", "-3,-3"], {
            let mut v = normal_offsets();
            v.push(Offset { dx: -3, dy: -3 });
            v
        }),
    ];
    for (args, expected) in cases {
        let items = parse_args(args);
        let should_be_normal = gen_handle_opts(&items).unwrap();
        assert_eq!(should_be_normal.offsets(), &expected, "args {:?}", args);
    }
}

#[test]
fn generator_option_faults() {
    let items = parse_args(&["-e1", "-e2"]);
    assert_eq!(gen_handle_opts(&items), Err(GenError::Duplicate));
    let items = parse_args(&["-e0"]);
    assert_eq!(gen_handle_opts(&items), Err(GenError::BadValue));
    let items = parse_args(&["-Ozz"]);
    assert_eq!(gen_handle_opts(&items), Err(GenError::BadOffset));
    let items = parse_args(&["--outer"]);
    assert_eq!(gen_handle_opts(&items), Err(GenError::Unsupported));
}

#[test]
fn deterministic_small_run() {
    // The image bytes are a function of seed and configuration alone: two
    // identical runs agree byte for byte.
    let args: &[&str] = &["-x8", "-y8", "-S42", "-e1", "-w1", "-C1", "-On"];
    let (c1, _) = run(args, 10 * 64);
    let (c2, _) = run(args, 10 * 64);
    assert!(c1.finished);
    assert!(c2.finished);
    assert_eq!(c1.pixels_placed, 64);
    let b1 = c1.locked.image.to_bytes();
    let b2 = c2.locked.image.to_bytes();
    assert_eq!(b1, b2);
}

#[test]
fn seeding_fills_narrow_image() {
    // Four seeds on a four-cell image fill it during seeding: the run
    // finishes without one main-loop step.
    let (c, steps) = run(&["-x4", "-y1", "-e4", "-S5"], 100);
    assert!(c.finished);
    assert_eq!(c.pixels_placed, 4);
    assert_eq!(c.pixels_generated, 4);
    assert_eq!(steps, 0);
}

#[test]
fn multi_worker_matches_single() {
    // After termination every cell is placed, generation never lags
    // placement, and the worker split leaves the image untouched.
    let base: &[&str] = &["-x16", "-y16", "-S9", "-C3"];
    let mut one = base.to_vec();
    one.push("-w1");
    let mut four = base.to_vec();
    four.push("-w4");
    let (c1, _) = run(&one, 10 * 256);
    let (c4, _) = run(&four, 10 * 256);
    assert!(c1.finished && c4.finished);
    assert_eq!(c1.pixels_placed, 256);
    assert_eq!(c4.pixels_placed, 256);
    assert!(c1.pixels_generated >= c1.pixels_placed);
    assert_eq!(c1.locked.image.to_bytes(), c4.locked.image.to_bytes());
}

#[test]
fn placement_order_and_revalidation() {
    // On a 2-by-2 grid with only east and south neighbors, placements from
    // the corner proceed to its reachable neighbors first; once both are
    // placed, revalidation drops the corner from the frontier.
    let items = parse_args(&["-x2", "-y2"]);
    let mut common = setup_handle_opts(&items, 1).unwrap();
    let offsets = vec![Offset { dx: 1, dy: 0 }, Offset { dx: 0, dy: 1 }];
    let color = imagegen::color::from_3(imagegen::color::UNIT, 0, 0);

    // Seed the corner by hand.
    common.locked.image.set(0, 0, color);
    common.locked.placed_pixels.set((0, 0), true);
    common.locked.edges.push(Pixel { x: 0, y: 0 });

    let corner = Pixel { x: 0, y: 0 };
    let first = place_pixel_inner(
        2,
        2,
        corner,
        color,
        &mut common.locked.image,
        &mut common.locked.edges,
        &mut common.locked.placed_pixels,
        &offsets,
    );
    assert_eq!(first, Ok(Pixel { x: 1, y: 0 }));
    let second = place_pixel_inner(
        2,
        2,
        corner,
        color,
        &mut common.locked.image,
        &mut common.locked.edges,
        &mut common.locked.placed_pixels,
        &offsets,
    );
    assert_eq!(second, Ok(Pixel { x: 0, y: 1 }));
    // Both reachable neighbors of the corner are now placed; the corner
    // cannot reach its diagonal, so revalidation removes it.
    validate_inner_edges(2, 2, &mut common.locked.edges, &common.locked.placed_pixels, &offsets);
    assert!(!common.locked.edges.contains(&corner));
    assert!(common.locked.edges.contains(&Pixel { x: 1, y: 0 }));
    // A third placement from the corner has nowhere to go.
    let third = place_pixel_inner(
        2,
        2,
        corner,
        color,
        &mut common.locked.image,
        &mut common.locked.edges,
        &mut common.locked.placed_pixels,
        &offsets,
    );
    assert_eq!(third, Err(()));
}

#[test]
fn zero_fitness_cap_does_not_livelock() {
    // With a zero cap only perfect color matches may be placed; the run
    // still returns within its step bound instead of spinning forever.
    let size = 256usize * 256;
    let (c, steps) = run(&["-x256", "-y256", "-S3", "--maxfitness", "0"], 2 * size);
    assert!(steps <= 2 * size);
    assert!(c.pixels_placed >= 1);
    assert!(c.pixels_placed <= size);
}

#[test]
fn best_fit_prefers_first_minimum() {
    // The earliest frontier pixel with the minimal fitness wins; an equal
    // later fitness does not displace it.
    let items = parse_args(&["-x4", "-y1"]);
    let mut common = setup_handle_opts(&items, 1).unwrap();
    let red = imagegen::color::from_3(imagegen::color::UNIT, 0, 0);
    for x in 0..3 {
        common.locked.image.set(0, x, red);
        common.locked.placed_pixels.set((0, x), true);
        common.locked.edges.push(Pixel { x: x as i32, y: 0 });
    }
    let best = imagegen::generate::select_best(
        &common.locked.image,
        &common.locked.edges,
        &vec![red],
        1,
        None,
    );
    assert_eq!(best[0], Some((Pixel { x: 0, y: 0 }, 0)));
    // The same selection through three workers agrees.
    let best3 = imagegen::generate::select_best(
        &common.locked.image,
        &common.locked.edges,
        &vec![red],
        3,
        None,
    );
    assert_eq!(best, best3);
    // A cap below the attainable fitness rejects every anchor.
    let blue = imagegen::color::from_3(0, 0, imagegen::color::UNIT);
    let none = imagegen::generate::select_best(
        &common.locked.image,
        &common.locked.edges,
        &vec![blue],
        1,
        Some(0),
    );
    assert_eq!(none[0], None);
}

#[test]
fn fitness_exact_value() {
    let a = imagegen::color::from_3(imagegen::color::UNIT, 0, 0);
    let b = imagegen::color::from_3(0, imagegen::color::UNIT, 0);
    // Two full-intensity channels differ: squared distance is two.
    assert_eq!(
        imagegen::generate::fitness(&a, &b),
        2 * imagegen::color::UNIT * imagegen::color::UNIT
    );
    assert_eq!(imagegen::generate::fitness(&a, &a), 0);
}
