use imagegen::getopt::{Getopt, GetoptError, GetoptItem, HasArgument, Opt};

fn collect_all(g: &Getopt, args: &[&str]) -> Vec<Result<GetoptItem, GetoptError>> {
    let mut it = g.parse(args.iter().map(|s| s.to_string()).collect());
    let mut out = Vec::new();
    while let Some(r) = it.next() {
        out.push(r);
    }
    out
}

fn opt_item(opt: &Opt, arg: Option<&str>) -> Result<GetoptItem, GetoptError> {
    Ok(GetoptItem::Opt { opt: opt.clone(), arg: arg.map(|s| s.to_string()) })
}

#[test]
fn basic_short() {
    let a = Opt::short('a', HasArgument::No);
    let b = Opt::short('b', HasArgument::No);
    let c = Opt::short('c', HasArgument::Optional);
    let getopt = Getopt::from_iter(vec![a.clone(), b.clone(), c.clone()]).unwrap();

    assert_eq!(
        collect_all(&getopt, &["-abc"]),
        vec![opt_item(&a, None), opt_item(&b, None), opt_item(&c, None)]
    );

    assert_eq!(
        collect_all(&getopt, &["-abcarg=arg"]),
        vec![opt_item(&a, None), opt_item(&b, None), opt_item(&c, Some("arg=arg"))]
    );

    assert_eq!(
        collect_all(&getopt, &["-abc=arg=arg"]),
        vec![opt_item(&a, None), opt_item(&b, None), opt_item(&c, Some("arg=arg"))]
    );

    assert_eq!(
        collect_all(&getopt, &["-abc", "arg=arg"]),
        vec![opt_item(&a, None), opt_item(&b, None), opt_item(&c, Some("arg=arg"))]
    );
}

#[test]
fn short_missing_arg() {
    let a = Opt::short('a', HasArgument::No);
    let b = Opt::short('b', HasArgument::Yes);
    let c = Opt::short('c', HasArgument::Optional);
    let getopt = Getopt::from_iter(vec![a.clone(), b.clone(), c.clone()]).unwrap();

    assert_eq!(
        collect_all(&getopt, &["-abc"]),
        vec![opt_item(&a, None), opt_item(&b, Some("c"))]
    );

    assert_eq!(
        collect_all(&getopt, &["-abcarg=arg"]),
        vec![opt_item(&a, None), opt_item(&b, Some("carg=arg"))]
    );

    assert_eq!(
        collect_all(&getopt, &["-abc=arg=arg"]),
        vec![opt_item(&a, None), opt_item(&b, Some("c=arg=arg"))]
    );

    assert_eq!(
        collect_all(&getopt, &["-abc", "arg=arg"]),
        vec![
            opt_item(&a, None),
            opt_item(&b, Some("c")),
            Ok(GetoptItem::NonOpt("arg=arg".to_string())),
        ]
    );

    assert_eq!(
        collect_all(&getopt, &["-ab", "arg=arg"]),
        vec![opt_item(&a, None), opt_item(&b, Some("arg=arg"))]
    );

    assert_eq!(
        collect_all(&getopt, &["-ab", "-carg=arg"]),
        vec![opt_item(&a, None), opt_item(&b, Some("-carg=arg"))]
    );

    assert_eq!(
        collect_all(&getopt, &["-ab"]),
        vec![
            opt_item(&a, None),
            Err(GetoptError::UnrecognizedShortOpt { opt: 'b', arg: None }),
        ]
    );
}

#[test]
fn basic_long() {
    let a = Opt::long("a", HasArgument::No);
    let b = Opt::long("b", HasArgument::No);
    let c = Opt::long("c", HasArgument::Optional);
    let getopt = Getopt::from_iter(vec![a.clone(), b.clone(), c.clone()]).unwrap();

    assert_eq!(
        collect_all(&getopt, &["--a", "--b", "--c"]),
        vec![opt_item(&a, None), opt_item(&b, None), opt_item(&c, None)]
    );

    assert_eq!(
        collect_all(&getopt, &["--a", "--b", "--c=arg=arg"]),
        vec![opt_item(&a, None), opt_item(&b, None), opt_item(&c, Some("arg=arg"))]
    );

    assert_eq!(
        collect_all(&getopt, &["--a", "--b", "--c", "arg=arg"]),
        vec![opt_item(&a, None), opt_item(&b, None), opt_item(&c, Some("arg=arg"))]
    );

    assert_eq!(
        collect_all(&getopt, &["--a", "--b", "--carg=arg"]),
        vec![
            opt_item(&a, None),
            opt_item(&b, None),
            Err(GetoptError::UnrecognizedLongOpt {
                opt: "carg".to_string(),
                arg: Some("arg".to_string()),
            }),
        ]
    );
}

#[test]
fn long_missing_arg() {
    let a = Opt::long("a", HasArgument::No);
    let b = Opt::long("b", HasArgument::Yes);
    let c = Opt::long("c", HasArgument::Optional);
    let getopt = Getopt::from_iter(vec![a.clone(), b.clone(), c.clone()]).unwrap();

    assert_eq!(
        collect_all(&getopt, &["--a", "--b", "--c=arg=arg"]),
        vec![opt_item(&a, None), opt_item(&b, Some("--c=arg=arg"))]
    );

    assert_eq!(
        collect_all(&getopt, &["--a", "--b=", "--c=arg=arg"]),
        vec![opt_item(&a, None), opt_item(&b, Some("")), opt_item(&c, Some("arg=arg"))]
    );

    assert_eq!(
        collect_all(&getopt, &["--a", "--b"]),
        vec![
            opt_item(&a, None),
            Err(GetoptError::UnrecognizedLongOpt { opt: "b".to_string(), arg: None }),
        ]
    );
}

#[test]
fn dash_dash_ends_options() {
    let a = Opt::short('a', HasArgument::No);
    let getopt = Getopt::from_iter(vec![a.clone()]).unwrap();
    assert_eq!(
        collect_all(&getopt, &["-a", "--", "-a", "plain"]),
        vec![
            opt_item(&a, None),
            Ok(GetoptItem::NonOpt("-a".to_string())),
            Ok(GetoptItem::NonOpt("plain".to_string())),
        ]
    );
}

#[test]
fn add_option_rejections() {
    let mut g = Getopt::from_iter(Vec::<Opt>::new()).unwrap();
    assert!(g
        .add_option(Opt { short: None, long: None, has_argument: HasArgument::No })
        .is_err());
    assert!(g.add_option(Opt::short('-', HasArgument::No)).is_err());
    assert!(g.add_option(Opt::long("", HasArgument::No)).is_err());
    assert!(g.add_option(Opt::long("a-b", HasArgument::No)).is_err());
    assert!(g.add_option(Opt::short('a', HasArgument::No)).is_ok());
    let dup = g.add_option(Opt::short('a', HasArgument::Yes));
    assert_eq!(dup.unwrap_err().0, "duplicate short option");
}
