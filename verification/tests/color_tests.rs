use imagegen::color::{
    basic_color, full_intensity_hues, from_3, handle_opts, opts, ColorError, ColorModel,
    VectorSet, VectorSetGroup, VectorSetKind, UNIT,
};
use imagegen::getopt::{Getopt, GetoptItem};

fn parse_color_opts(args: &[&str]) -> Vec<GetoptItem> {
    let getopt = Getopt::from_iter(opts()).unwrap();
    let mut it = getopt.parse(args.iter().map(|s| s.to_string()).collect());
    let mut items = Vec::new();
    while let Some(r) = it.next() {
        items.push(r.unwrap());
    }
    items
}

#[test]
fn basic_color_test() {
    let args_iter: [&[&str]; 3] = [&[], &["-N"], &["--normal"]];
    for args in args_iter {
        let items = parse_color_opts(args);
        let should_be_normal = handle_opts(&items).unwrap();
        let should_be_normal = should_be_normal.as_vectorset().unwrap();
        assert_eq!(should_be_normal, &basic_color());
    }
}

#[test]
fn hues_test() {
    let expected = VectorSetGroup::new(full_intensity_hues()).unwrap();
    let items = parse_color_opts(&["--hues"]);
    let should_be_hues = handle_opts(&items).unwrap();
    let should_be_hues = should_be_hues.as_vectorsetgroup().unwrap();
    assert_eq!(should_be_hues, &expected);
}

#[test]
fn vector_test() {
    let empty = VectorSetGroup::new(vec![VectorSet {
        start: from_3(0, 0, 0),
        vectors: vec![],
        chance: 1,
        kind: VectorSetKind::Full,
    }])
    .unwrap();
    let redgreen = VectorSetGroup::new(vec![VectorSet {
        start: from_3(0, 0, 0),
        vectors: vec![from_3(UNIT, 0, 0), from_3(0, UNIT, 0)],
        chance: 1,
        kind: VectorSetKind::Full,
    }])
    .unwrap();
    let args_iter: [(&[&str], &VectorSetGroup); 8] = [
        (&["-n"], &empty),
        (&["--newvectorset"], &empty),
        (&["-v1,0,0", "-v0,1,0"], &redgreen),
        (&["--vector=1.0,0,0.0", "-v0,1,0"], &redgreen),
        (&["--vector", "1.0,0,0.0", "-v", "0,1.000,00.0"], &redgreen),
        (&["-n", "-v1,0,0", "-v0,1,0"], &redgreen),
        (&["-n", "--vector=1.0,0,0.0", "-v0,1,0"], &redgreen),
        (&["-n", "-b0,0,0", "--vector", "1.0,0,0.0", "-v", "0,1.000,00.0"], &redgreen),
    ];
    for (args, expected) in args_iter {
        let items = parse_color_opts(args);
        let should_be_expected = handle_opts(&items).unwrap();
        let should_be_expected = should_be_expected.as_vectorsetgroup().unwrap();
        assert_eq!(should_be_expected, expected);
    }
}

#[test]
fn color_option_faults() {
    let items = parse_color_opts(&["-v", "zz"]);
    assert_eq!(handle_opts(&items), Err(ColorError::BadColor));

    let items = parse_color_opts(&["-t", "warped"]);
    assert_eq!(handle_opts(&items), Err(ColorError::BadKind));

    let items = parse_color_opts(&["-N", "--hues"]);
    assert_eq!(handle_opts(&items), Err(ColorError::TwoColorspaces));

    // A 256.0 vector uses the whole channel budget; one more overflows it.
    let items = parse_color_opts(&["-v256,0,0", "-v1,0,0"]);
    assert_eq!(handle_opts(&items), Err(ColorError::RangeExceeded));
}

#[test]
fn fixed_point_parsing() {
    // Channel strings parse to exact fixed-point values through the
    // public option path.
    let items = parse_color_opts(&["-v0.5,0.25,2"]);
    let model = handle_opts(&items).unwrap();
    let g = model.as_vectorsetgroup().unwrap();
    assert_eq!(g.vectorsets[0].vectors[0], from_3(UNIT / 2, UNIT / 4, 2 * UNIT));

    let items = parse_color_opts(&["-v-1,0,0"]);
    let model = handle_opts(&items).unwrap();
    let g = model.as_vectorsetgroup().unwrap();
    assert_eq!(g.vectorsets[0].vectors[0], from_3(-UNIT, 0, 0));

    // Malformed numbers are rejected.
    for bad in ["1..2", "1.2.3", "-", ".", "300"] {
        let items = parse_color_opts(&[&format!("-v{}", bad)]);
        assert_eq!(handle_opts(&items), Err(ColorError::BadColor), "input {:?}", bad);
    }
}

#[test]
fn sample_without_vectors_is_the_start() {
    // With no vectors the Full law has nothing to add: every draw returns
    // exactly the start color; the other laws answer nothing.
    let set = VectorSet {
        start: from_3(1, 2, 3),
        vectors: vec![],
        chance: 1,
        kind: VectorSetKind::Full,
    };
    let mut rng = imagegen::rng::seeded_rng(21);
    for _ in 0..10 {
        assert_eq!(set.new_color(&mut rng), Some(from_3(1, 2, 3)));
    }
    let deferred = VectorSet {
        start: from_3(1, 2, 3),
        vectors: vec![],
        chance: 1,
        kind: VectorSetKind::SumOne,
    };
    assert_eq!(deferred.new_color(&mut rng), None);

    // A one-member group delegates to its only member.
    let group = VectorSetGroup::new(vec![set.clone()]).unwrap();
    assert_eq!(group.new_color(&mut rng), Some(from_3(1, 2, 3)));
}

#[test]
fn sampling_stays_in_range() {
    // Sampling from a well-formed model always lands inside the channel
    // limit, whatever the generator draws.
    let items = parse_color_opts(&["--hues"]);
    let model = handle_opts(&items).unwrap();
    let mut rng = imagegen::rng::seeded_rng(7);
    for _ in 0..100 {
        let c = model.new_color(&mut rng).unwrap();
        for v in [c.r, c.g, c.b, c.pad] {
            assert!(v.abs() <= imagegen::color::CHAN_LIMIT);
        }
    }
    // The hue edges keep one channel at full intensity.
    if let ColorModel::Group(g) = &model {
        assert_eq!(g.total_chance, 6);
        assert_eq!(g.vectorsets.len(), 6);
    } else {
        panic!("expected a group");
    }
}
