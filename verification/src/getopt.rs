//! Command-line option parsing: short options (`-a`, clustered, with inline,
//! attached or following arguments), long options (`--name`, `--name=value`),
//! `--` to end option processing, and exact error values for unrecognized or
//! malformed options.

use vstd::prelude::*;

verus! {

/// Whether an option takes an argument.
///
/// `No`: a short option is followed by further short options in the same
/// parameter; a long option takes nothing.
/// `Yes`: the argument may sit in the same parameter (`-oarg`, `-o=arg`,
/// `--out=arg`) or in the next one (`-o arg`, `--out arg`).
/// `Optional`: as `Yes`, but a following parameter that starts with `-` is not
/// taken as the argument.
#[derive(Debug, Clone, Copy, PartialEq, Eq, Structural)]
pub enum HasArgument {
    No,
    Yes,
    Optional,
}

/// One recognized option: a short name, a long name, or both.
#[derive(Debug, PartialEq, Eq)]
pub struct Opt {
    pub short: Option<char>,
    pub long: Option<String>,
    pub has_argument: HasArgument,
}

/// The abstract value of an [`Opt`]: the long name as a character sequence.
pub struct OptGhost {
    pub short: Option<char>,
    pub long: Option<Seq<char>>,
    pub has_argument: HasArgument,
}

impl View for Opt {
    type V = OptGhost;

    open spec fn view(&self) -> OptGhost {
        OptGhost {
            short: self.short,
            long: match self.long {
                Some(s) => Some(s@),
                None => None,
            },
            has_argument: self.has_argument,
        }
    }
}

impl Clone for Opt {
    fn clone(&self) -> (r: Self)
        ensures
            r@ == self@,
    {
        Opt {
            short: self.short,
            long: match &self.long {
                Some(s) => Some(s.clone()),
                None => None,
            },
            has_argument: self.has_argument,
        }
    }
}

impl Opt {
    pub fn short(short: char, arg: HasArgument) -> (r: Self)
        ensures
            r@ == (OptGhost { short: Some(short), long: None, has_argument: arg }),
    {
        Opt { short: Some(short), long: None, has_argument: arg }
    }

    pub fn long(long: &str, arg: HasArgument) -> (r: Self)
        ensures
            r@ == (OptGhost { short: None, long: Some(long@), has_argument: arg }),
    {
        Opt { short: None, long: Some(long.to_owned()), has_argument: arg }
    }

    pub fn short_long(short: char, long: &str, arg: HasArgument) -> (r: Self)
        ensures
            r@ == (OptGhost { short: Some(short), long: Some(long@), has_argument: arg }),
    {
        Opt { short: Some(short), long: Some(long.to_owned()), has_argument: arg }
    }

    /// True iff this option's long name is exactly `name`.
    pub fn is_long(&self, name: &str) -> (r: bool)
        ensures
            r == (self@.long == Some(name@)),
    {
        match &self.long {
            Some(l) => str_eq(l.as_str(), name),
            None => false,
        }
    }
}

/// One parsed item: a recognized option with its argument, or a plain
/// non-option parameter.
#[derive(Debug, PartialEq, Eq)]
pub enum GetoptItem {
    Opt { opt: Opt, arg: Option<String> },
    NonOpt(String),
}

/// The abstract value of a [`GetoptItem`].
pub enum ItemGhost {
    Opt { opt: OptGhost, arg: Option<Seq<char>> },
    NonOpt(Seq<char>),
}

impl View for GetoptItem {
    type V = ItemGhost;

    open spec fn view(&self) -> ItemGhost {
        match self {
            GetoptItem::Opt { opt, arg } => ItemGhost::Opt {
                opt: opt@,
                arg: match arg {
                    Some(s) => Some(s@),
                    None => None,
                },
            },
            GetoptItem::NonOpt(s) => ItemGhost::NonOpt(s@),
        }
    }
}

impl Clone for GetoptItem {
    fn clone(&self) -> (r: Self)
        ensures
            r@ == self@,
    {
        match self {
            GetoptItem::Opt { opt, arg } => GetoptItem::Opt {
                opt: opt.clone(),
                arg: match arg {
                    Some(s) => Some(s.clone()),
                    None => None,
                },
            },
            GetoptItem::NonOpt(s) => GetoptItem::NonOpt(s.clone()),
        }
    }
}

/// A parse error: an option that is not recognized, lacks a required
/// argument, or carries an argument it cannot take.
#[derive(Debug, PartialEq, Eq)]
pub enum GetoptError {
    UnrecognizedShortOpt { opt: char, arg: Option<String> },
    UnrecognizedLongOpt { opt: String, arg: Option<String> },
}

/// The abstract value of a [`GetoptError`].
pub enum ErrorGhost {
    Short { opt: char, arg: Option<Seq<char>> },
    Long { opt: Seq<char>, arg: Option<Seq<char>> },
}

impl View for GetoptError {
    type V = ErrorGhost;

    open spec fn view(&self) -> ErrorGhost {
        match self {
            GetoptError::UnrecognizedShortOpt { opt, arg } => ErrorGhost::Short {
                opt: *opt,
                arg: match arg {
                    Some(s) => Some(s@),
                    None => None,
                },
            },
            GetoptError::UnrecognizedLongOpt { opt, arg } => ErrorGhost::Long {
                opt: opt@,
                arg: match arg {
                    Some(s) => Some(s@),
                    None => None,
                },
            },
        }
    }
}

impl Clone for GetoptError {
    fn clone(&self) -> (r: Self)
        ensures
            r@ == self@,
    {
        match self {
            GetoptError::UnrecognizedShortOpt { opt, arg } => GetoptError::UnrecognizedShortOpt {
                opt: *opt,
                arg: match arg {
                    Some(s) => Some(s.clone()),
                    None => None,
                },
            },
            GetoptError::UnrecognizedLongOpt { opt, arg } => GetoptError::UnrecognizedLongOpt {
                opt: opt.clone(),
                arg: match arg {
                    Some(s) => Some(s.clone()),
                    None => None,
                },
            },
        }
    }
}

/// The abstract value of one parse result.
pub open spec fn res_view(r: Result<GetoptItem, GetoptError>) -> Result<ItemGhost, ErrorGhost> {
    match r {
        Ok(item) => Ok(item@),
        Err(e) => Err(e@),
    }
}

pub open spec fn opts_view(v: Seq<Opt>) -> Seq<OptGhost> {
    v.map_values(|o: Opt| o@)
}

pub open spec fn args_view(v: Seq<String>) -> Seq<Seq<char>> {
    v.map_values(|s: String| s@)
}

pub open spec fn items_view(v: Seq<GetoptItem>) -> Seq<ItemGhost> {
    v.map_values(|it: GetoptItem| it@)
}

/// The first recognized option with the given short name.
pub open spec fn find_short(opts: Seq<OptGhost>, c: char) -> Option<OptGhost>
    decreases opts.len(),
{
    if opts.len() == 0 {
        None
    } else if opts[0].short == Some(c) {
        Some(opts[0])
    } else {
        find_short(opts.drop_first(), c)
    }
}

/// The first recognized option with the given long name.
pub open spec fn find_long(opts: Seq<OptGhost>, name: Seq<char>) -> Option<OptGhost>
    decreases opts.len(),
{
    if opts.len() == 0 {
        None
    } else if opts[0].long == Some(name) {
        Some(opts[0])
    } else {
        find_long(opts.drop_first(), name)
    }
}

/// The position of the first occurrence of `c` in `s`.
pub open spec fn first_eq(s: Seq<char>, c: char) -> Option<int>
    decreases s.len(),
{
    if s.len() == 0 {
        None
    } else if s[0] == c {
        Some(0)
    } else {
        match first_eq(s.drop_first(), c) {
            Some(i) => Some(i + 1),
            None => None,
        }
    }
}

/// What the position found by `first_eq` means: the first occurrence, or
/// none anywhere.
pub(crate) proof fn lemma_first_eq_inv(s: Seq<char>, c: char)
    ensures
        match first_eq(s, c) {
            Some(i) => 0 <= i < s.len() && s[i] == c && forall|q: int|
                0 <= q < i ==> #[trigger] s[q] != c,
            None => forall|q: int| 0 <= q < s.len() ==> #[trigger] s[q] != c,
        },
    decreases s.len(),
{
    if s.len() > 0 && s[0] != c {
        lemma_first_eq_inv(s.drop_first(), c);
        match first_eq(s.drop_first(), c) {
            Some(i) => {
                assert(s.drop_first()[i] == s[i + 1]);
                assert forall|q: int| 0 <= q < i + 1 implies #[trigger] s[q] != c by {
                    if q > 0 {
                        assert(s.drop_first()[q - 1] == s[q]);
                    }
                }
            },
            None => {
                assert forall|q: int| 0 <= q < s.len() implies #[trigger] s[q] != c by {
                    if q > 0 {
                        assert(s.drop_first()[q - 1] == s[q]);
                    }
                }
            },
        }
    }
}

/// The items produced by one `--name` or `--name=value` parameter, and
/// whether the following parameter was consumed as the argument.
pub open spec fn parse_long(opts: Seq<OptGhost>, body: Seq<char>, next: Option<Seq<char>>) -> (
    Seq<Result<ItemGhost, ErrorGhost>>,
    bool,
) {
    let (name, val) = match first_eq(body, '=') {
        Some(i) => (body.take(i), Some(body.skip(i + 1))),
        None => (body, None::<Seq<char>>),
    };
    match find_long(opts, name) {
        None => (seq![Err(ErrorGhost::Long { opt: name, arg: val })], false),
        Some(o) => match (o.has_argument, val) {
            (HasArgument::No, None) => (seq![Ok(ItemGhost::Opt { opt: o, arg: None })], false),
            (HasArgument::No, Some(v)) => (
                seq![Err(ErrorGhost::Long { opt: name, arg: Some(v) })],
                false,
            ),
            (HasArgument::Yes, Some(v)) => (
                seq![Ok(ItemGhost::Opt { opt: o, arg: Some(v) })],
                false,
            ),
            (HasArgument::Optional, Some(v)) => (
                seq![Ok(ItemGhost::Opt { opt: o, arg: Some(v) })],
                false,
            ),
            (HasArgument::Yes, None) => match next {
                Some(a) => (seq![Ok(ItemGhost::Opt { opt: o, arg: Some(a) })], true),
                None => (seq![Err(ErrorGhost::Long { opt: name, arg: None })], false),
            },
            (HasArgument::Optional, None) => match next {
                Some(a) => if a.len() == 0 || a[0] != '-' {
                    (seq![Ok(ItemGhost::Opt { opt: o, arg: Some(a) })], true)
                } else {
                    (seq![Ok(ItemGhost::Opt { opt: o, arg: None })], false)
                },
                None => (seq![Ok(ItemGhost::Opt { opt: o, arg: None })], false),
            },
        },
    }
}

/// The items produced by a cluster of short options (one `-abc...` parameter,
/// with the leading `-` removed), and whether the following parameter was
/// consumed as an argument.
pub open spec fn parse_shorts(opts: Seq<OptGhost>, chars: Seq<char>, next: Option<Seq<char>>) -> (
    Seq<Result<ItemGhost, ErrorGhost>>,
    bool,
)
    decreases chars.len(),
{
    if chars.len() == 0 {
        (Seq::empty(), false)
    } else {
        let c = chars[0];
        let rest = chars.drop_first();
        let starts_eq = rest.len() > 0 && rest[0] == '=';
        match find_short(opts, c) {
            None => if starts_eq {
                (seq![Err(ErrorGhost::Short { opt: c, arg: Some(rest.drop_first()) })], false)
            } else {
                let (tail, consumed) = parse_shorts(opts, rest, next);
                (seq![Err(ErrorGhost::Short { opt: c, arg: None })] + tail, consumed)
            },
            Some(o) => match o.has_argument {
                HasArgument::No => if starts_eq {
                    (
                        seq![Err(ErrorGhost::Short { opt: c, arg: Some(rest.drop_first()) })],
                        false,
                    )
                } else {
                    let (tail, consumed) = parse_shorts(opts, rest, next);
                    (seq![Ok(ItemGhost::Opt { opt: o, arg: None })] + tail, consumed)
                },
                HasArgument::Yes => if rest.len() == 0 {
                    match next {
                        Some(a) => (seq![Ok(ItemGhost::Opt { opt: o, arg: Some(a) })], true),
                        None => (seq![Err(ErrorGhost::Short { opt: c, arg: None })], false),
                    }
                } else if starts_eq {
                    (seq![Ok(ItemGhost::Opt { opt: o, arg: Some(rest.drop_first()) })], false)
                } else {
                    (seq![Ok(ItemGhost::Opt { opt: o, arg: Some(rest) })], false)
                },
                HasArgument::Optional => if rest.len() == 0 {
                    match next {
                        Some(a) => if a.len() == 0 || a[0] != '-' {
                            (seq![Ok(ItemGhost::Opt { opt: o, arg: Some(a) })], true)
                        } else {
                            (seq![Ok(ItemGhost::Opt { opt: o, arg: None })], false)
                        },
                        None => (seq![Ok(ItemGhost::Opt { opt: o, arg: None })], false),
                    }
                } else if starts_eq {
                    (seq![Ok(ItemGhost::Opt { opt: o, arg: Some(rest.drop_first()) })], false)
                } else {
                    (seq![Ok(ItemGhost::Opt { opt: o, arg: Some(rest) })], false)
                },
            },
        }
    }
}

/// Without a following parameter there is nothing to consume from it.
proof fn lemma_parse_long_no_next(opts: Seq<OptGhost>, body: Seq<char>)
    ensures
        !parse_long(opts, body, None).1,
{
}

/// Without a following parameter there is nothing to consume from it.
proof fn lemma_parse_shorts_no_next(opts: Seq<OptGhost>, chars: Seq<char>)
    ensures
        !parse_shorts(opts, chars, None).1,
    decreases chars.len(),
{
    if chars.len() > 0 {
        lemma_parse_shorts_no_next(opts, chars.drop_first());
    }
}

/// The full parse of `args[i..]`. After `--` every parameter is a non-option.
pub open spec fn parse_from(opts: Seq<OptGhost>, args: Seq<Seq<char>>, i: int, dd: bool) -> Seq<
    Result<ItemGhost, ErrorGhost>,
>
    decreases args.len() - i,
{
    if i < 0 || i >= args.len() {
        Seq::empty()
    } else if dd {
        seq![Ok(ItemGhost::NonOpt(args[i]))] + parse_from(opts, args, i + 1, dd)
    } else {
        let a = args[i];
        if a == seq!['-', '-'] {
            if i + 1 < args.len() {
                seq![Ok(ItemGhost::NonOpt(args[i + 1]))] + parse_from(opts, args, i + 2, true)
            } else {
                Seq::empty()
            }
        } else if a.len() >= 2 && a[0] == '-' && a[1] == '-' {
            let next = if i + 1 < args.len() {
                Some(args[i + 1])
            } else {
                None
            };
            let (items, consumed) = parse_long(opts, a.skip(2), next);
            let ni = if consumed && i + 1 < args.len() {
                i + 2
            } else {
                i + 1
            };
            items + parse_from(opts, args, ni, dd)
        } else if a.len() >= 1 && a[0] == '-' {
            let next = if i + 1 < args.len() {
                Some(args[i + 1])
            } else {
                None
            };
            let (items, consumed) = parse_shorts(opts, a.skip(1), next);
            let ni = if consumed && i + 1 < args.len() {
                i + 2
            } else {
                i + 1
            };
            items + parse_from(opts, args, ni, dd)
        } else {
            seq![Ok(ItemGhost::NonOpt(a))] + parse_from(opts, args, i + 1, dd)
        }
    }
}

/// Why an option cannot be added to a recognized set, by the first failing
/// check, or `None` when it can.
pub open spec fn add_err_msg(existing: Seq<OptGhost>, o: OptGhost) -> Option<Seq<char>> {
    if o.short is None && o.long is None {
        Some("short and long cannot both be None"@)
    } else if o.short is Some && (o.short->0 == '\0' || o.short->0 == '-' || o.short->0 == '=') {
        Some("short option cannot be '\0', '-', or '='"@)
    } else if o.long is Some && o.long->0.len() == 0 {
        Some("long option cannot be empty string"@)
    } else if o.long is Some && (exists|i: int|
        0 <= i < o.long->0.len() && (o.long->0[i] == '\0' || o.long->0[i] == '-' || o.long->0[i]
            == '=')) {
        Some("long option cannot contain '\0', '-', or '='"@)
    } else {
        match first_conflict(existing, o) {
            Some(e) => if e.short == o.short {
                Some("duplicate short option"@)
            } else {
                Some("duplicate long option"@)
            },
            None => None,
        }
    }
}

/// The first already-recognized option that shares a short or long name
/// with `o`.
pub open spec fn first_conflict(existing: Seq<OptGhost>, o: OptGhost) -> Option<OptGhost>
    decreases existing.len(),
{
    if existing.len() == 0 {
        None
    } else if (existing[0].short is Some && existing[0].short == o.short) || (existing[0].long
        is Some && existing[0].long == o.long) {
        Some(existing[0])
    } else {
        first_conflict(existing.drop_first(), o)
    }
}

/// The outcome of adding a whole list of options in order: the full list, or
/// the message and position of the first rejected one.
pub open spec fn build_opts(opts: Seq<OptGhost>) -> Result<Seq<OptGhost>, (Seq<char>, int)>
    decreases opts.len(),
{
    if opts.len() == 0 {
        Ok(Seq::empty())
    } else {
        match build_opts(opts.drop_last()) {
            Err(e) => Err(e),
            Ok(acc) => match add_err_msg(acc, opts.last()) {
                None => Ok(acc.push(opts.last())),
                Some(m) => Err((m, opts.len() - 1)),
            },
        }
    }
}

/// A recognized set of options.
pub struct Getopt {
    options: Vec<Opt>,
}

impl Getopt {
    pub closed spec fn spec_options(&self) -> Seq<OptGhost> {
        opts_view(self.options@)
    }

    /// Adds one option, rejecting empty, malformed and duplicate names; on
    /// rejection the set is unchanged and the option is handed back with a
    /// message.
    pub fn add_option(&mut self, opt: Opt) -> (r: Result<(), (&'static str, Opt)>)
        ensures
            match add_err_msg(old(self).spec_options(), opt@) {
                None => {
                    &&& r is Ok
                    &&& final(self).spec_options() == old(self).spec_options().push(opt@)
                },
                Some(m) => {
                    &&& r matches Err((msg, o)) && msg@ == m && o@ == opt@
                    &&& final(self).spec_options() == old(self).spec_options()
                },
            },
    {
        let bad_short = match opt.short {
            Some(c) => c == '\0' || c == '-' || c == '=',
            None => false,
        };
        if opt.short.is_none() && opt.long.is_none() {
            return Err(("short and long cannot both be None", opt));
        } else if bad_short {
            return Err(("short option cannot be '\0', '-', or '='", opt));
        }
        let (long_empty, long_bad) = match &opt.long {
            Some(l) => {
                let cs = chars_of(l.as_str());
                (cs.len() == 0, contains_forbidden(&cs))
            },
            None => (false, false),
        };
        if long_empty {
            return Err(("long option cannot be empty string", opt));
        } else if long_bad {
            return Err(("long option cannot contain '\0', '-', or '='", opt));
        }
        let conflict = self.find_conflict(&opt);
        match conflict {
            Some(e) => {
                let same_short = match (e.short, opt.short) {
                    (Some(a), Some(b)) => a == b,
                    (None, None) => true,
                    _ => false,
                };
                if same_short {
                    Err(("duplicate short option", opt))
                } else {
                    Err(("duplicate long option", opt))
                }
            },
            None => {
                proof {
                    assert(opts_view(self.options@.push(opt)) =~= opts_view(self.options@).push(
                        opt@,
                    ));
                }
                self.options.push(opt);
                Ok(())
            },
        }
    }

    fn find_conflict(&self, opt: &Opt) -> (r: Option<Opt>)
        ensures
            match r {
                Some(e) => first_conflict(self.spec_options(), opt@) == Some(e@),
                None => first_conflict(self.spec_options(), opt@) is None,
            },
    {
        let ghost all = self.spec_options();
        proof {
            assert(opts_view(self.options@).skip(0) =~= opts_view(self.options@));
        }
        let mut i: usize = 0;
        while i < self.options.len()
            invariant
                i <= self.options@.len(),
                all == self.spec_options(),
                first_conflict(all, opt@) == first_conflict(
                    opts_view(self.options@).skip(i as int),
                    opt@,
                ),
            decreases self.options@.len() - i,
        {
            let e = &self.options[i];
            let short_hit = match (e.short, opt.short) {
                (Some(a), Some(b)) => a == b,
                _ => false,
            };
            let long_hit = match (&e.long, &opt.long) {
                (Some(a), Some(b)) => str_eq(a.as_str(), b.as_str()),
                _ => false,
            };
            proof {
                let suf = opts_view(self.options@).skip(i as int);
                assert(suf[0] == self.options@[i as int]@);
                assert(suf.drop_first() =~= opts_view(self.options@).skip(i as int + 1));
            }
            if short_hit || long_hit {
                return Some(e.clone());
            }
            i += 1;
        }
        proof {
            assert(opts_view(self.options@).skip(i as int) =~= Seq::<OptGhost>::empty());
        }
        None
    }

    /// Builds a set from a list, adding each option in order; the first
    /// rejected option aborts the build.
    pub fn from_iter(opts: Vec<Opt>) -> (r: Result<Self, (&'static str, Opt)>)
        ensures
            match r {
                Ok(g) => {
                    &&& build_opts(opts_view(opts@)) == Ok::<_, (Seq<char>, int)>(opts_view(opts@))
                    &&& g.spec_options() == opts_view(opts@)
                },
                Err((msg, o)) => {
                    &&& build_opts(opts_view(opts@)) matches Err((m, j)) && m == msg@ && 0 <= j
                        < opts@.len() && o@ == opts_view(opts@)[j]
                },
            },
    {
        let ghost all = opts_view(opts@);
        let mut this = Getopt { options: Vec::new() };
        proof {
            assert(opts_view(Seq::<Opt>::empty()) =~= Seq::<OptGhost>::empty());
            assert(this.spec_options() =~= Seq::<OptGhost>::empty());
            assert(all.take(0) =~= Seq::<OptGhost>::empty());
        }
        let mut i: usize = 0;
        let n = opts.len();
        while i < n
            invariant
                i <= n,
                n == opts@.len(),
                all == opts_view(opts@),
                build_opts(all.take(i as int)) == Ok::<_, (Seq<char>, int)>(this.spec_options()),
                this.spec_options() == all.take(i as int),
            decreases n - i,
        {
            let opt = opts[i].clone();
            let ghost prefix = all.take(i as int);
            let res = this.add_option(opt);
            proof {
                assert(all.take(i as int + 1).drop_last() =~= prefix);
                assert(all.take(i as int + 1).last() == all[i as int]);
                assert(opts@[i as int]@ == all[i as int]);
            }
            match res {
                Ok(()) => {
                    proof {
                        assert(prefix.push(all[i as int]) =~= all.take(i as int + 1));
                    }
                },
                Err(e) => {
                    proof {
                        let j = i as int;
                        assert(build_opts(all.take(j + 1)) == Err::<Seq<OptGhost>, _>((
                            e.0@,
                            j,
                        )));
                        lemma_build_opts_err_persists(all, j + 1);
                        assert(all.take(all.len() as int) =~= all);
                        assert(build_opts(all) == Err::<Seq<OptGhost>, _>((e.0@, j)));
                        assert(e.1@ == all[j]);
                    }
                    return Err(e);
                },
            }
            i += 1;
        }
        proof {
            assert(all.take(n as int) =~= all);
        }
        Ok(this)
    }
}

impl Getopt {
    /// Starts a parse of the given parameters. The program name must not be
    /// among them.
    pub fn parse(&self, args: Vec<String>) -> (r: GetoptIter)
        ensures
            r.wf(),
            r.remaining() == parse_from(self.spec_options(), args_view(args@), 0, false),
    {
        let it = GetoptIter {
            opts: clone_opts(&self.options),
            args,
            idx: 0,
            pending: Vec::new(),
            pending_idx: 0,
            found_dash_dash: false,
        };
        proof {
            assert(it.pending@.skip(0) =~= Seq::<Result<GetoptItem, GetoptError>>::empty());
            assert(it.remaining() =~~= parse_from(
                self.spec_options(),
                args_view(it.args@),
                0,
                false,
            ));
        }
        it
    }
}

/// An in-progress parse. Each call of [`GetoptIter::next`] yields the next
/// parsed item or error, or `None` when the parameters are exhausted.
pub struct GetoptIter {
    opts: Vec<Opt>,
    args: Vec<String>,
    /// The next parameter to examine.
    idx: usize,
    /// Items already produced by the parameter most recently examined.
    pending: Vec<Result<GetoptItem, GetoptError>>,
    pending_idx: usize,
    /// After `--`, every parameter is a non-option.
    found_dash_dash: bool,
}

impl GetoptIter {
    pub closed spec fn wf(&self) -> bool {
        &&& self.pending_idx <= self.pending@.len()
        &&& self.idx <= self.args@.len()
    }

    /// The items this iterator has yet to yield.
    pub closed spec fn remaining(&self) -> Seq<Result<ItemGhost, ErrorGhost>> {
        self.pending@.skip(self.pending_idx as int).map_values(
            |x: Result<GetoptItem, GetoptError>| res_view(x),
        ) + parse_from(
            opts_view(self.opts@),
            args_view(self.args@),
            self.idx as int,
            self.found_dash_dash,
        )
    }

    /// Yields the next parsed item, exactly as the whole-input parse would.
    pub fn next(&mut self) -> (r: Option<Result<GetoptItem, GetoptError>>)
        requires
            old(self).wf(),
        ensures
            final(self).wf(),
            old(self).remaining().len() == 0 ==> r is None && final(self).remaining()
                == old(self).remaining(),
            old(self).remaining().len() > 0 ==> {
                &&& r matches Some(item) && res_view(item) == old(self).remaining()[0]
                &&& final(self).remaining() == old(self).remaining().drop_first()
            },
    {
        loop
            invariant
                self.wf(),
                self.remaining() == old(self).remaining(),
            decreases self.args@.len() - self.idx,
        {
            let ghost rem = self.remaining();
            let ghost ov = opts_view(self.opts@);
            let ghost av = args_view(self.args@);
            if self.pending_idx < self.pending.len() {
                let item = clone_res(&self.pending[self.pending_idx]);
                proof {
                    let pi = self.pending_idx as int;
                    let mapped = self.pending@.skip(pi).map_values(
                        |x: Result<GetoptItem, GetoptError>| res_view(x),
                    );
                    assert(mapped[0] == res_view(self.pending@[pi]));
                    assert(rem[0] == res_view(self.pending@[pi]));
                    assert(self.pending@.skip(pi + 1) =~= self.pending@.skip(pi).drop_first());
                    assert(self.pending@.skip(pi + 1).map_values(
                        |x: Result<GetoptItem, GetoptError>| res_view(x),
                    ) =~~= mapped.drop_first());
                }
                self.pending_idx += 1;
                proof {
                    assert(self.remaining() =~~= rem.drop_first());
                }
                return Some(item);
            }
            proof {
                assert(self.pending@.skip(self.pending_idx as int)
                    =~= Seq::<Result<GetoptItem, GetoptError>>::empty());
                assert(rem =~~= parse_from(ov, av, self.idx as int, self.found_dash_dash));
            }
            if self.found_dash_dash {
                if self.idx < self.args.len() {
                    let s = self.args[self.idx].clone();
                    self.idx += 1;
                    proof {
                        assert(rem[0] == Ok::<ItemGhost, ErrorGhost>(ItemGhost::NonOpt(s@)));
                        assert(self.remaining() =~~= rem.drop_first());
                    }
                    return Some(Ok(GetoptItem::NonOpt(s)));
                } else {
                    proof {
                        assert(rem.len() == 0);
                    }
                    return None;
                }
            }
            if self.idx >= self.args.len() {
                proof {
                    assert(rem.len() == 0);
                }
                return None;
            }
            let arg = self.args[self.idx].clone();
            let cs = chars_of(arg.as_str());
            let ghost a = av[self.idx as int];
            proof {
                assert(a == cs@);
            }
            if cs.len() == 2 && cs[0] == '-' && cs[1] == '-' {
                proof {
                    assert(a =~= seq!['-', '-']);
                }
                self.found_dash_dash = true;
                self.idx += 1;
                proof {
                    // Both the old and the new remaining sequence unfold to the
                    // same cases on whether another parameter follows.
                    assert(self.remaining() =~~= rem);
                }
            } else if cs.len() >= 2 && cs[0] == '-' && cs[1] == '-' {
                let body = subvec(&cs, 2, cs.len());
                let (items, consumed) = if self.idx + 1 < self.args.len() {
                    parse_long_exec(&self.opts, &body, Some(&self.args[self.idx + 1]))
                } else {
                    parse_long_exec(&self.opts, &body, None)
                };
                proof {
                    assert(a.skip(2) == body@);
                    assert(!(a == seq!['-', '-'])) by {
                        assert(a.len() != 2);
                    }
                }
                self.pending = items;
                self.pending_idx = 0;
                proof {
                    lemma_parse_long_no_next(ov, body@);
                }
                self.idx += if consumed {
                    2
                } else {
                    1
                };
                proof {
                    assert(self.remaining() =~~= rem);
                }
            } else if cs.len() >= 1 && cs[0] == '-' {
                let body = subvec(&cs, 1, cs.len());
                let (items, consumed) = if self.idx + 1 < self.args.len() {
                    parse_shorts_exec(&self.opts, &body, 0, Some(&self.args[self.idx + 1]))
                } else {
                    parse_shorts_exec(&self.opts, &body, 0, None)
                };
                proof {
                    assert(body@.skip(0) =~= body@);
                    assert(a.skip(1) == body@);
                    assert(a.len() < 2 || a[1] != '-');
                    assert(!(a == seq!['-', '-']));
                    assert(!(a.len() >= 2 && a[0] == '-' && a[1] == '-'));
                }
                self.pending = items;
                self.pending_idx = 0;
                proof {
                    lemma_parse_shorts_no_next(ov, body@);
                }
                self.idx += if consumed {
                    2
                } else {
                    1
                };
                proof {
                    assert(self.remaining() =~~= rem);
                }
            } else {
                self.idx += 1;
                proof {
                    assert(rem[0] == Ok::<ItemGhost, ErrorGhost>(ItemGhost::NonOpt(arg@)));
                    assert(self.remaining() =~~= rem.drop_first());
                }
                return Some(Ok(GetoptItem::NonOpt(arg)));
            }
        }
    }
}

spec fn next_view(n: Option<&String>) -> Option<Seq<char>> {
    match n {
        Some(s) => Some(s@),
        None => None,
    }
}

fn clone_res(r: &Result<GetoptItem, GetoptError>) -> (out: Result<GetoptItem, GetoptError>)
    ensures
        res_view(out) == res_view(*r),
{
    match r {
        Ok(item) => Ok(item.clone()),
        Err(e) => Err(e.clone()),
    }
}

fn clone_opts(v: &Vec<Opt>) -> (r: Vec<Opt>)
    ensures
        opts_view(r@) == opts_view(v@),
{
    let mut out: Vec<Opt> = Vec::new();
    let mut i: usize = 0;
    while i < v.len()
        invariant
            i <= v@.len(),
            out@.len() == i,
            forall|j: int| 0 <= j < i ==> (#[trigger] out@[j])@ == v@[j]@,
        decreases v@.len() - i,
    {
        out.push(v[i].clone());
        i += 1;
    }
    proof {
        assert(opts_view(out@) =~= opts_view(v@));
    }
    out
}

/// The characters `v[from..to]` as a new vector.
pub(crate) fn subvec(v: &Vec<char>, from: usize, to: usize) -> (r: Vec<char>)
    requires
        from <= to <= v@.len(),
    ensures
        r@ == v@.subrange(from as int, to as int),
{
    let mut out: Vec<char> = Vec::new();
    let mut i: usize = from;
    while i < to
        invariant
            from <= i <= to <= v@.len(),
            out@.len() == i - from,
            forall|j: int| 0 <= j < out@.len() ==> out@[j] == v@[from + j],
        decreases to - i,
    {
        out.push(v[i]);
        i += 1;
    }
    proof {
        assert(out@ =~= v@.subrange(from as int, to as int));
    }
    out
}

fn find_short_exec(opts: &Vec<Opt>, c: char) -> (r: Option<Opt>)
    ensures
        match r {
            Some(o) => find_short(opts_view(opts@), c) == Some(o@),
            None => find_short(opts_view(opts@), c) is None,
        },
{
    let ghost all = opts_view(opts@);
    proof {
        assert(all.skip(0) =~= all);
    }
    let mut i: usize = 0;
    while i < opts.len()
        invariant
            i <= opts@.len(),
            all == opts_view(opts@),
            find_short(all, c) == find_short(all.skip(i as int), c),
        decreases opts@.len() - i,
    {
        let hit = match opts[i].short {
            Some(s) => s == c,
            None => false,
        };
        proof {
            let suf = all.skip(i as int);
            assert(suf[0] == opts@[i as int]@);
            assert(suf.drop_first() =~= all.skip(i as int + 1));
        }
        if hit {
            return Some(opts[i].clone());
        }
        i += 1;
    }
    proof {
        assert(all.skip(i as int) =~= Seq::<OptGhost>::empty());
    }
    None
}

fn find_long_exec(opts: &Vec<Opt>, name: &Vec<char>) -> (r: Option<Opt>)
    ensures
        match r {
            Some(o) => find_long(opts_view(opts@), name@) == Some(o@),
            None => find_long(opts_view(opts@), name@) is None,
        },
{
    let ghost all = opts_view(opts@);
    proof {
        assert(all.skip(0) =~= all);
    }
    let mut i: usize = 0;
    while i < opts.len()
        invariant
            i <= opts@.len(),
            all == opts_view(opts@),
            find_long(all, name@) == find_long(all.skip(i as int), name@),
        decreases opts@.len() - i,
    {
        let hit = match &opts[i].long {
            Some(l) => {
                let lc = chars_of(l.as_str());
                chars_eq(&lc, name)
            },
            None => false,
        };
        proof {
            let suf = all.skip(i as int);
            assert(suf[0] == opts@[i as int]@);
            assert(suf.drop_first() =~= all.skip(i as int + 1));
        }
        if hit {
            return Some(opts[i].clone());
        }
        i += 1;
    }
    proof {
        assert(all.skip(i as int) =~= Seq::<OptGhost>::empty());
    }
    None
}

pub(crate) fn first_eq_exec(v: &Vec<char>, c: char) -> (r: Option<usize>)
    ensures
        match r {
            Some(i) => i < v@.len() && first_eq(v@, c) == Some(i as int),
            None => first_eq(v@, c) is None,
        },
{
    let mut i: usize = 0;
    while i < v.len()
        invariant
            i <= v@.len(),
            forall|j: int| 0 <= j < i ==> v@[j] != c,
        decreases v@.len() - i,
    {
        if v[i] == c {
            proof {
                lemma_first_eq_at(v@, c, i as int);
            }
            return Some(i);
        }
        i += 1;
    }
    proof {
        lemma_first_eq_none(v@, c);
    }
    None
}

pub(crate) proof fn lemma_first_eq_at(s: Seq<char>, c: char, i: int)
    requires
        0 <= i < s.len(),
        s[i] == c,
        forall|j: int| 0 <= j < i ==> s[j] != c,
    ensures
        first_eq(s, c) == Some(i),
    decreases i,
{
    if i == 0 {
    } else {
        assert(s.drop_first()[i - 1] == s[i]);
        assert forall|j: int| 0 <= j < i - 1 implies s.drop_first()[j] != c by {
            assert(s.drop_first()[j] == s[j + 1]);
        }
        lemma_first_eq_at(s.drop_first(), c, i - 1);
    }
}

pub(crate) proof fn lemma_first_eq_none(s: Seq<char>, c: char)
    requires
        forall|j: int| 0 <= j < s.len() ==> s[j] != c,
    ensures
        first_eq(s, c) is None,
    decreases s.len(),
{
    if s.len() > 0 {
        assert forall|j: int| 0 <= j < s.drop_first().len() implies s.drop_first()[j] != c by {
            assert(s.drop_first()[j] == s[j + 1]);
        }
        lemma_first_eq_none(s.drop_first(), c);
    }
}

/// The items of one `--name[=value]` parameter.
fn parse_long_exec(opts: &Vec<Opt>, body: &Vec<char>, next: Option<&String>) -> (r: (
    Vec<Result<GetoptItem, GetoptError>>,
    bool,
))
    ensures
        ({
            let (items, consumed) = parse_long(opts_view(opts@), body@, next_view(next));
            &&& r.0@.map_values(|x: Result<GetoptItem, GetoptError>| res_view(x)) == items
            &&& r.1 == consumed
        }),
{
    let ghost spec_r = parse_long(opts_view(opts@), body@, next_view(next));
    let blen = body.len();
    let eq_pos = first_eq_exec(body, '=');
    let (name, val): (Vec<char>, Option<String>) = match eq_pos {
        Some(i) => (subvec(body, 0, i), Some(string_of(&subvec(body, i + 1, blen)))),
        None => (subvec(body, 0, blen), None),
    };
    proof {
        assert(body@.subrange(0, body@.len() as int) =~= body@);
    }
    let mut out: Vec<Result<GetoptItem, GetoptError>> = Vec::new();
    let found = find_long_exec(opts, &name);
    let consumed: bool;
    match found {
        None => {
            out.push(
                Err(
                    GetoptError::UnrecognizedLongOpt {
                        opt: string_of(&name),
                        arg: val,
                    },
                ),
            );
            consumed = false;
        },
        Some(o) => {
            let has_val = val.is_some();
            match (o.has_argument, val) {
                (HasArgument::No, None) => {
                    out.push(Ok(GetoptItem::Opt { opt: o, arg: None }));
                    consumed = false;
                },
                (HasArgument::No, Some(v)) => {
                    out.push(
                        Err(GetoptError::UnrecognizedLongOpt { opt: string_of(&name), arg: Some(v) }),
                    );
                    consumed = false;
                },
                (HasArgument::Yes, Some(v)) => {
                    out.push(Ok(GetoptItem::Opt { opt: o, arg: Some(v) }));
                    consumed = false;
                },
                (HasArgument::Optional, Some(v)) => {
                    out.push(Ok(GetoptItem::Opt { opt: o, arg: Some(v) }));
                    consumed = false;
                },
                (HasArgument::Yes, None) => {
                    match next {
                        Some(a) => {
                            out.push(Ok(GetoptItem::Opt { opt: o, arg: Some(a.clone()) }));
                            consumed = true;
                        },
                        None => {
                            out.push(
                                Err(
                                    GetoptError::UnrecognizedLongOpt {
                                        opt: string_of(&name),
                                        arg: None,
                                    },
                                ),
                            );
                            consumed = false;
                        },
                    }
                },
                (HasArgument::Optional, None) => {
                    match next {
                        Some(a) => {
                            let ca = chars_of(a.as_str());
                            if ca.len() == 0 || ca[0] != '-' {
                                out.push(Ok(GetoptItem::Opt { opt: o, arg: Some(a.clone()) }));
                                consumed = true;
                            } else {
                                out.push(Ok(GetoptItem::Opt { opt: o, arg: None }));
                                consumed = false;
                            }
                        },
                        None => {
                            out.push(Ok(GetoptItem::Opt { opt: o, arg: None }));
                            consumed = false;
                        },
                    }
                },
            }
        },
    }
    proof {
        assert(out@.map_values(|x: Result<GetoptItem, GetoptError>| res_view(x)) =~~= spec_r.0);
    }
    (out, consumed)
}

/// Copies a character through a function boundary. The returned value carries
/// the character type's range facts, which the solver needs when the value is
/// stored in a datatype field.
fn copy_char(c: char) -> (r: char)
    ensures
        r == c,
{
    c
}

/// The items of one cluster of short options, from position `i` on.
#[verifier::rlimit(100)]
#[verifier::spinoff_prover]
fn parse_shorts_exec(opts: &Vec<Opt>, chars: &Vec<char>, i: usize, next: Option<&String>) -> (r: (
    Vec<Result<GetoptItem, GetoptError>>,
    bool,
))
    requires
        i <= chars@.len(),
    ensures
        ({
            let (items, consumed) = parse_shorts(
                opts_view(opts@),
                chars@.skip(i as int),
                next_view(next),
            );
            &&& r.0@.map_values(|x: Result<GetoptItem, GetoptError>| res_view(x)) == items
            &&& r.1 == consumed
        }),
    decreases chars@.len() - i,
{
    let ghost s = chars@.skip(i as int);
    let ghost spec_r = parse_shorts(opts_view(opts@), s, next_view(next));
    if i == chars.len() {
        let empty: Vec<Result<GetoptItem, GetoptError>> = Vec::new();
        proof {
            assert(s =~= Seq::<char>::empty());
            assert(empty@.map_values(|x: Result<GetoptItem, GetoptError>| res_view(x))
                =~~= spec_r.0);
        }
        return (empty, false);
    }
    let mut out: Vec<Result<GetoptItem, GetoptError>> = Vec::new();
    let c = copy_char(chars[i]);
    let starts_eq = i + 1 < chars.len() && chars[i + 1] == '=';
    proof {
        assert(s[0] == chars@[i as int]);
        assert(s.drop_first() =~= chars@.skip(i as int + 1));
        assert(s.drop_first().len() > 0 ==> s.drop_first()[0] == chars@[i as int + 1]);
        if s.drop_first().len() > 0 {
            assert(s.drop_first().drop_first() =~= chars@.skip(i as int + 2));
        }
    }
    let found = find_short_exec(opts, c);
    let consumed: bool;
    match found {
        None => {
            if starts_eq {
                let a = string_of(&subvec(chars, i + 2, chars.len()));
                out.push(Err(GetoptError::UnrecognizedShortOpt { opt: c, arg: Some(a) }));
                consumed = false;
            } else {
                out.push(Err(GetoptError::UnrecognizedShortOpt { opt: c, arg: None }));
                let (mut tail, tail_consumed) = parse_shorts_exec(opts, chars, i + 1, next);
                let ghost tail_items = tail@;
                out.append(&mut tail);
                consumed = tail_consumed;
                proof {
                    assert(out@ =~= seq![
                        Err::<GetoptItem, GetoptError>(
                            GetoptError::UnrecognizedShortOpt { opt: c, arg: None },
                        ),
                    ] + tail_items);
                }
            }
        },
        Some(o) => {
            match o.has_argument {
                HasArgument::No => {
                    if starts_eq {
                        out.push(
                            Err(
                                GetoptError::UnrecognizedShortOpt {
                                    opt: c,
                                    arg: Some(string_of(&subvec(chars, i + 2, chars.len()))),
                                },
                            ),
                        );
                        consumed = false;
                    } else {
                        out.push(Ok(GetoptItem::Opt { opt: o, arg: None }));
                        let (mut tail, tail_consumed) = parse_shorts_exec(opts, chars, i + 1, next);
                        let ghost tail_items = tail@;
                        let ghost head = out@[0];
                        out.append(&mut tail);
                        consumed = tail_consumed;
                        proof {
                            assert(out@ =~= seq![head] + tail_items);
                        }
                    }
                },
                HasArgument::Yes => {
                    let (v, cons) = short_arg_items(opts, chars, i, next, o);
                    out = v;
                    consumed = cons;
                },
                HasArgument::Optional => {
                    let (v, cons) = short_arg_items(opts, chars, i, next, o);
                    out = v;
                    consumed = cons;
                },
            }
        },
    }
    proof {
        assert(out@.map_values(|x: Result<GetoptItem, GetoptError>| res_view(x)) =~~= spec_r.0);
    }
    (out, consumed)
}

/// The items of a short option that can take an argument (`Yes` or
/// `Optional`): the cluster always ends here.
#[verifier::rlimit(100)]
fn short_arg_items(
    opts: &Vec<Opt>,
    chars: &Vec<char>,
    i: usize,
    next: Option<&String>,
    o: Opt,
) -> (r: (Vec<Result<GetoptItem, GetoptError>>, bool))
    requires
        i < chars@.len(),
        find_short(opts_view(opts@), chars@[i as int]) == Some(o@),
        o@.has_argument == HasArgument::Yes || o@.has_argument == HasArgument::Optional,
    ensures
        ({
            let (items, consumed) = parse_shorts(
                opts_view(opts@),
                chars@.skip(i as int),
                next_view(next),
            );
            &&& r.0@.map_values(|x: Result<GetoptItem, GetoptError>| res_view(x)) == items
            &&& r.1 == consumed
        }),
{
    let ghost s = chars@.skip(i as int);
    let ghost spec_r = parse_shorts(opts_view(opts@), s, next_view(next));
    let c = copy_char(chars[i]);
    let clen = chars.len();
    let starts_eq = i + 1 < clen && chars[i + 1] == '=';
    proof {
        assert(s[0] == chars@[i as int]);
        assert(s.drop_first() =~= chars@.skip(i as int + 1));
        assert(s.drop_first().len() > 0 ==> s.drop_first()[0] == chars@[i as int + 1]);
        if s.drop_first().len() > 0 {
            assert(s.drop_first().drop_first() =~= chars@.skip(i as int + 2));
        }
    }
    let mut out: Vec<Result<GetoptItem, GetoptError>> = Vec::new();
    let consumed: bool;
    let yes = match o.has_argument {
        HasArgument::Yes => true,
        _ => false,
    };
    if i + 1 == clen {
        match next {
            Some(a) => {
                if yes {
                    out.push(Ok(GetoptItem::Opt { opt: o, arg: Some(a.clone()) }));
                    consumed = true;
                } else {
                    let ca = chars_of(a.as_str());
                    if ca.len() == 0 || ca[0] != '-' {
                        out.push(Ok(GetoptItem::Opt { opt: o, arg: Some(a.clone()) }));
                        consumed = true;
                    } else {
                        out.push(Ok(GetoptItem::Opt { opt: o, arg: None }));
                        consumed = false;
                    }
                }
            },
            None => {
                if yes {
                    out.push(Err(GetoptError::UnrecognizedShortOpt { opt: c, arg: None }));
                } else {
                    out.push(Ok(GetoptItem::Opt { opt: o, arg: None }));
                }
                consumed = false;
            },
        }
    } else if starts_eq {
        out.push(
            Ok(GetoptItem::Opt { opt: o, arg: Some(string_of(&subvec(chars, i + 2, clen))) }),
        );
        consumed = false;
    } else {
        out.push(
            Ok(GetoptItem::Opt { opt: o, arg: Some(string_of(&subvec(chars, i + 1, clen))) }),
        );
        consumed = false;
    }
    proof {
        assert(out@.map_values(|x: Result<GetoptItem, GetoptError>| res_view(x)) =~~= spec_r.0);
    }
    (out, consumed)
}

/// Once a prefix of the option list is rejected, every longer prefix is
/// rejected for the same reason.
proof fn lemma_build_opts_err_persists(all: Seq<OptGhost>, k: int)
    requires
        0 < k <= all.len(),
        build_opts(all.take(k)) is Err,
    ensures
        build_opts(all.take(all.len() as int)) == build_opts(all.take(k)),
    decreases all.len() - k,
{
    if k < all.len() {
        assert(all.take(k + 1).drop_last() =~= all.take(k));
        lemma_build_opts_err_persists(all, k + 1);
    }
}

/// True iff `cs` holds one of the three characters a long name may not carry.
fn contains_forbidden(cs: &Vec<char>) -> (r: bool)
    ensures
        r == exists|i: int|
            0 <= i < cs@.len() && (cs@[i] == '\0' || cs@[i] == '-' || cs@[i] == '='),
{
    let mut i: usize = 0;
    while i < cs.len()
        invariant
            i <= cs@.len(),
            forall|j: int| 0 <= j < i ==> !(cs@[j] == '\0' || cs@[j] == '-' || cs@[j] == '='),
        decreases cs@.len() - i,
    {
        let c = cs[i];
        if c == '\0' || c == '-' || c == '=' {
            return true;
        }
        i += 1;
    }
    false
}

/// Relies on str::chars: the characters of the string, in order.
#[verifier::external_body]
pub(crate) fn chars_of(s: &str) -> (r: Vec<char>)
    ensures
        r@ == s@,
{
    s.chars().collect()
}

/// Relies on String's FromIterator over char: collecting characters yields
/// exactly that string.
#[verifier::external_body]
pub(crate) fn string_of(cs: &Vec<char>) -> (r: String)
    ensures
        r@ == cs@,
{
    cs.iter().collect()
}

/// True iff the two strings hold the same characters.
pub(crate) fn str_eq(a: &str, b: &str) -> (r: bool)
    ensures
        r == (a@ == b@),
{
    let ca = chars_of(a);
    let cb = chars_of(b);
    chars_eq(&ca, &cb)
}

pub(crate) fn chars_eq(a: &Vec<char>, b: &Vec<char>) -> (r: bool)
    ensures
        r == (a@ == b@),
{
    if a.len() != b.len() {
        return false;
    }
    let mut i: usize = 0;
    while i < a.len()
        invariant
            i <= a@.len(),
            a@.len() == b@.len(),
            forall|j: int| 0 <= j < i ==> a@[j] == b@[j],
        decreases a@.len() - i,
    {
        if a[i] != b[i] {
            return false;
        }
        i += 1;
    }
    proof {
        assert(a@ =~= b@);
    }
    true
}




} // verus!
