//! Setup: the image dimensions, channel scale and seed, and the shared
//! state built from them.

use vstd::prelude::*;
use crate::bitmap::BitMap;
use crate::color::parse_fixed_spec;
use crate::generate::parse_usize_spec;
use crate::getopt::{GetoptItem, HasArgument, ItemGhost, Opt, OptGhost};
use crate::pnmdata::PnmData;
use crate::{CommonData, CommonLockedData};

verus! {

/// A configuration fault in the setup options.
#[derive(Debug, Clone, Copy, PartialEq, Eq, Structural)]
pub enum SetupError {
    /// A dimension, scale or seed was given twice.
    Duplicate,
    /// An argument does not parse, or a dimension is zero.
    BadValue,
    /// A dimension beyond what the engine's coordinates carry.
    TooLarge,
}

/// The gathering setup configuration.
pub struct SetupGhost {
    pub x: Option<int>,
    pub y: Option<int>,
    pub maxval: Option<int>,
    pub seed: Option<int>,
}

pub open spec fn setup_state0() -> SetupGhost {
    SetupGhost { x: None, y: None, maxval: None, seed: None }
}

/// One dimension argument: a positive count the engine can carry.
pub open spec fn parse_dim_spec(s: Seq<char>) -> Result<int, SetupError> {
    match parse_usize_spec(s) {
        Some(v) => if v < 1 {
            Err(SetupError::BadValue)
        } else if v > 32767 {
            Err(SetupError::TooLarge)
        } else {
            Ok(v)
        },
        None => Err(SetupError::BadValue),
    }
}

/// One option's effect on the gathering setup configuration.
pub open spec fn apply_setup_item(st: SetupGhost, it: ItemGhost) -> Result<SetupGhost, SetupError> {
    match it {
        ItemGhost::Opt { opt, arg } => {
            if opt.long == Some("x"@) && arg is Some {
                match parse_dim_spec(arg->0) {
                    Ok(v) => if st.x is Some {
                        Err(SetupError::Duplicate)
                    } else {
                        Ok(SetupGhost { x: Some(v), ..st })
                    },
                    Err(e) => Err(e),
                }
            } else if opt.long == Some("y"@) && arg is Some {
                match parse_dim_spec(arg->0) {
                    Ok(v) => if st.y is Some {
                        Err(SetupError::Duplicate)
                    } else {
                        Ok(SetupGhost { y: Some(v), ..st })
                    },
                    Err(e) => Err(e),
                }
            } else if opt.long == Some("size"@) && arg is Some {
                let parts: Option<(Seq<char>, Seq<char>)> = match crate::getopt::first_eq(
                    arg->0,
                    ',',
                ) {
                    Some(i) => Some((arg->0.take(i), arg->0.skip(i + 1))),
                    None => match crate::getopt::first_eq(arg->0, 'x') {
                        Some(i) => Some((arg->0.take(i), arg->0.skip(i + 1))),
                        None => None,
                    },
                };
                match parts {
                    None => Err(SetupError::BadValue),
                    Some((a, b)) => match (parse_dim_spec(a), parse_dim_spec(b)) {
                        (Ok(w), Ok(h)) => if st.x is Some || st.y is Some {
                            Err(SetupError::Duplicate)
                        } else {
                            Ok(SetupGhost { x: Some(w), y: Some(h), ..st })
                        },
                        (Err(e), _) => Err(e),
                        (_, Err(e)) => Err(e),
                    },
                }
            } else if opt.long == Some("maxval"@) && arg is Some {
                match parse_usize_spec(arg->0) {
                    Some(v) => if v > u32::MAX {
                        Err(SetupError::BadValue)
                    } else if st.maxval is Some {
                        Err(SetupError::Duplicate)
                    } else {
                        Ok(SetupGhost { maxval: Some(v), ..st })
                    },
                    None => Err(SetupError::BadValue),
                }
            } else if opt.long == Some("seed"@) && arg is Some {
                match parse_usize_spec(arg->0) {
                    Some(v) => if st.seed is Some {
                        Err(SetupError::Duplicate)
                    } else {
                        Ok(SetupGhost { seed: Some(v), ..st })
                    },
                    None => Err(SetupError::BadValue),
                }
            } else {
                Ok(st)
            }
        },
        ItemGhost::NonOpt(_) => Ok(st),
    }
}

/// The setup configuration after the first `n` parsed options.
pub open spec fn setup_fold(items: Seq<ItemGhost>, n: int) -> Result<SetupGhost, SetupError>
    decreases n,
{
    if n <= 0 {
        Ok(setup_state0())
    } else {
        match setup_fold(items, n - 1) {
            Err(e) => Err(e),
            Ok(st) => apply_setup_item(st, items[n - 1]),
        }
    }
}

proof fn lemma_setup_fold_err_persists(items: Seq<ItemGhost>, k: int)
    requires
        0 < k <= items.len(),
        setup_fold(items, k) is Err,
    ensures
        setup_fold(items, items.len() as int) == setup_fold(items, k),
    decreases items.len() - k,
{
    if k < items.len() {
        lemma_setup_fold_err_persists(items, k + 1);
    }
}

/// The five option names are pairwise distinct character sequences.
proof fn lemma_setup_names_distinct()
    ensures
        "x"@ != "y"@ && "x"@ != "size"@ && "x"@ != "maxval"@ && "x"@ != "seed"@,
        "y"@ != "size"@ && "y"@ != "maxval"@ && "y"@ != "seed"@,
        "size"@ != "maxval"@ && "size"@ != "seed"@,
        "maxval"@ != "seed"@,
{
    reveal_strlit("x");
    reveal_strlit("y");
    reveal_strlit("size");
    reveal_strlit("maxval");
    reveal_strlit("seed");
    assert("x"@.len() == 1 && "y"@.len() == 1 && "size"@.len() == 4 && "maxval"@.len() == 6
        && "seed"@.len() == 4);
    assert("x"@[0] == 'x' && "y"@[0] == 'y');
    assert("size"@[0] == 's' && "seed"@[1] == 'e' && "size"@[1] == 'i');
}

/// The options this module recognizes.
pub fn opts() -> (r: Vec<Opt>)
    ensures
        r@.len() == 5,
        r@[0]@ == (OptGhost { short: Some('x'), long: Some("x"@), has_argument: HasArgument::Yes }),
        r@[1]@ == (OptGhost { short: Some('y'), long: Some("y"@), has_argument: HasArgument::Yes }),
        r@[2]@ == (OptGhost { short: Some('s'), long: Some("size"@), has_argument: HasArgument::Yes }),
        r@[3]@ == (OptGhost { short: None, long: Some("maxval"@), has_argument: HasArgument::Yes }),
        r@[4]@ == (OptGhost { short: Some('S'), long: Some("seed"@), has_argument: HasArgument::Yes }),
{
    let mut r: Vec<Opt> = Vec::new();
    r.push(Opt::short_long('x', "x", HasArgument::Yes));
    r.push(Opt::short_long('y', "y", HasArgument::Yes));
    r.push(Opt::short_long('s', "size", HasArgument::Yes));
    r.push(Opt::long("maxval", HasArgument::Yes));
    r.push(Opt::short_long('S', "seed", HasArgument::Yes));
    r
}

fn parse_dim(a: &str) -> (r: Result<usize, SetupError>)
    ensures
        match r {
            Ok(v) => parse_dim_spec(a@) == Ok::<int, SetupError>(v as int) && 1 <= v <= 32767,
            Err(e) => parse_dim_spec(a@) == Err::<int, SetupError>(e),
        },
{
    let cs = crate::getopt::chars_of(a);
    match crate::generate::parse_usize_pub(&cs) {
        Some(v) => {
            if v < 1 {
                Err(SetupError::BadValue)
            } else if v > 32767 {
                Err(SetupError::TooLarge)
            } else {
                Ok(v)
            }
        },
        None => Err(SetupError::BadValue),
    }
}

/// Builds the fresh shared state the parsed options ask for: an all-zero
/// image of the configured dimensions (256 by 256 unset), an all-false
/// mask, an empty frontier and zeroed counters. The seed defaults to
/// `fallback_seed` when none was given.
#[verifier::rlimit(100)]
pub fn handle_opts(items: &Vec<GetoptItem>, fallback_seed: u64) -> (r: Result<
    CommonData,
    SetupError,
>)
    ensures
        ({
            let folded = setup_fold(crate::getopt::items_view(items@), items@.len() as int);
            match folded {
                Err(e) => r == Err::<CommonData, SetupError>(e),
                Ok(st) => {
                    &&& r matches Ok(c)
                    &&& c.wf()
                    &&& c.dimx as int == match st.x {
                        Some(v) => v,
                        None => 256,
                    }
                    &&& c.dimy as int == match st.y {
                        Some(v) => v,
                        None => 256,
                    }
                    &&& c.locked.image.maxval as int == match st.maxval {
                        Some(v) => v,
                        None => 255,
                    }
                    &&& c.locked.image.depth == 3
                    &&& c.rng_seed as int == match st.seed {
                        Some(v) => v,
                        None => fallback_seed as int,
                    }
                    &&& c.pixels_placed == 0
                    &&& c.pixels_generated == 0
                    &&& !c.finished
                    &&& c.locked.edges@.len() == 0
                },
            }
        }),
{
    let ghost iv = crate::getopt::items_view(items@);
    let mut dim_x: Option<usize> = None;
    let mut dim_y: Option<usize> = None;
    let mut maxval: Option<u32> = None;
    let mut seed: Option<u64> = None;
    let mut i: usize = 0;
    while i < items.len()
        invariant
            i <= items@.len(),
            iv == crate::getopt::items_view(items@),
            setup_fold(iv, i as int) == Ok::<SetupGhost, SetupError>(
                SetupGhost {
                    x: match dim_x {
                        Some(v) => Some(v as int),
                        None => None,
                    },
                    y: match dim_y {
                        Some(v) => Some(v as int),
                        None => None,
                    },
                    maxval: match maxval {
                        Some(v) => Some(v as int),
                        None => None,
                    },
                    seed: match seed {
                        Some(v) => Some(v as int),
                        None => None,
                    },
                },
            ),
            match dim_x {
                Some(v) => 1 <= v <= 32767,
                None => true,
            },
            match dim_y {
                Some(v) => 1 <= v <= 32767,
                None => true,
            },
        decreases items@.len() - i,
    {
        let ghost st = SetupGhost {
            x: match dim_x {
                Some(v) => Some(v as int),
                None => None,
            },
            y: match dim_y {
                Some(v) => Some(v as int),
                None => None,
            },
            maxval: match maxval {
                Some(v) => Some(v as int),
                None => None,
            },
            seed: match seed {
                Some(v) => Some(v as int),
                None => None,
            },
        };
        proof {
            assert(iv[i as int] == items@[i as int]@);
            lemma_setup_names_distinct();
        }
        match &items[i] {
            GetoptItem::Opt { opt, arg } => {
                if opt.is_long("x") {
                    match arg {
                        Some(a) => match parse_dim(a.as_str()) {
                            Ok(v) => {
                                if dim_x.is_some() {
                                    proof {
                                        lemma_setup_fold_err_persists(iv, i as int + 1);
                                    }
                                    return Err(SetupError::Duplicate);
                                }
                                dim_x = Some(v);
                            },
                            Err(e) => {
                                proof {
                                    lemma_setup_fold_err_persists(iv, i as int + 1);
                                }
                                return Err(e);
                            },
                        },
                        None => {},
                    }
                } else if opt.is_long("y") {
                    match arg {
                        Some(a) => match parse_dim(a.as_str()) {
                            Ok(v) => {
                                if dim_y.is_some() {
                                    proof {
                                        lemma_setup_fold_err_persists(iv, i as int + 1);
                                    }
                                    return Err(SetupError::Duplicate);
                                }
                                dim_y = Some(v);
                            },
                            Err(e) => {
                                proof {
                                    lemma_setup_fold_err_persists(iv, i as int + 1);
                                }
                                return Err(e);
                            },
                        },
                        None => {},
                    }
                } else if opt.is_long("size") {
                    match arg {
                        Some(a) => {
                            let cs = crate::getopt::chars_of(a.as_str());
                            let clen = cs.len();
                            let cut = match crate::getopt::first_eq_exec(&cs, ',') {
                                Some(p) => Some(p),
                                None => crate::getopt::first_eq_exec(&cs, 'x'),
                            };
                            match cut {
                                None => {
                                    proof {
                                        lemma_setup_fold_err_persists(iv, i as int + 1);
                                    }
                                    return Err(SetupError::BadValue);
                                },
                                Some(p) => {
                                    let av = crate::getopt::subvec(&cs, 0, p);
                                    let bv = crate::getopt::subvec(&cs, p + 1, clen);
                                    let astr = crate::getopt::string_of(&av);
                                    let bstr = crate::getopt::string_of(&bv);
                                    proof {
                                        assert(av@ =~= a@.take(p as int));
                                        assert(bv@ =~= a@.skip(p as int + 1));
                                    }
                                    match (parse_dim(astr.as_str()), parse_dim(bstr.as_str())) {
                                        (Ok(w), Ok(h)) => {
                                            if dim_x.is_some() || dim_y.is_some() {
                                                proof {
                                                    lemma_setup_fold_err_persists(iv, i as int + 1);
                                                }
                                                return Err(SetupError::Duplicate);
                                            }
                                            dim_x = Some(w);
                                            dim_y = Some(h);
                                        },
                                        (Err(e), _) => {
                                            proof {
                                                lemma_setup_fold_err_persists(iv, i as int + 1);
                                            }
                                            return Err(e);
                                        },
                                        (_, Err(e)) => {
                                            proof {
                                                lemma_setup_fold_err_persists(iv, i as int + 1);
                                            }
                                            return Err(e);
                                        },
                                    }
                                },
                            }
                        },
                        None => {},
                    }
                } else if opt.is_long("maxval") {
                    match arg {
                        Some(a) => {
                            let cs = crate::getopt::chars_of(a.as_str());
                            match crate::generate::parse_usize_pub(&cs) {
                                Some(v) => {
                                    if v > u32::MAX as usize {
                                        proof {
                                            lemma_setup_fold_err_persists(iv, i as int + 1);
                                        }
                                        return Err(SetupError::BadValue);
                                    }
                                    if maxval.is_some() {
                                        proof {
                                            lemma_setup_fold_err_persists(iv, i as int + 1);
                                        }
                                        return Err(SetupError::Duplicate);
                                    }
                                    maxval = Some(v as u32);
                                },
                                None => {
                                    proof {
                                        lemma_setup_fold_err_persists(iv, i as int + 1);
                                    }
                                    return Err(SetupError::BadValue);
                                },
                            }
                        },
                        None => {},
                    }
                } else if opt.is_long("seed") {
                    match arg {
                        Some(a) => {
                            let cs = crate::getopt::chars_of(a.as_str());
                            match crate::generate::parse_usize_pub(&cs) {
                                Some(v) => {
                                    if seed.is_some() {
                                        proof {
                                            lemma_setup_fold_err_persists(iv, i as int + 1);
                                        }
                                        return Err(SetupError::Duplicate);
                                    }
                                    seed = Some(v as u64);
                                },
                                None => {
                                    proof {
                                        lemma_setup_fold_err_persists(iv, i as int + 1);
                                    }
                                    return Err(SetupError::BadValue);
                                },
                            }
                        },
                        None => {},
                    }
                }
            },
            GetoptItem::NonOpt(_) => {},
        }
        i += 1;
    }
    let dimx = match dim_x {
        Some(v) => v,
        None => 256,
    };
    let dimy = match dim_y {
        Some(v) => v,
        None => 256,
    };
    let mv = match maxval {
        Some(v) => v,
        None => 255,
    };
    let rng_seed = match seed {
        Some(v) => v,
        None => fallback_seed,
    };
    proof {
        assert((dimy as int) * (dimx as int) <= 32767 * 32767 && (dimy as int) * (dimx as int)
            >= 1) by (nonlinear_arith)
            requires 1 <= dimy <= 32767, 1 <= dimx <= 32767;
        assert((dimy as int) * (((dimx as int) + 7) / 8) <= 32767 * 4096) by (nonlinear_arith)
            requires 1 <= dimy <= 32767, 1 <= dimx <= 32767;
    }
    let size = dimy * dimx;
    let image = PnmData::new_zero(dimx as u32, dimy as u32, mv);
    let placed_pixels = match BitMap::new(dimy, dimx) {
        Some(b) => b,
        None => {
            proof {
                assert(false);
            }
            return Err(SetupError::TooLarge);
        },
    };
    proof {
        placed_pixels.lemma_shape();
        assert forall|r: int, cc: int|
            0 <= r < placed_pixels@.len() && 0 <= cc < (#[trigger] placed_pixels@[r]).len()
                implies !(#[trigger] placed_pixels@[r][cc]) by {
            assert(placed_pixels@[r].len() == dimx);
        }
        crate::bitmap::lemma_count_zero(placed_pixels@, placed_pixels@.len() as int);
    }
    let locked = CommonLockedData { image, placed_pixels, edges: Vec::new() };
    let c = CommonData {
        locked,
        dimy,
        dimx,
        size,
        finished: false,
        pixels_placed: 0,
        pixels_generated: 0,
        rng_seed,
    };
    proof {
        assert(c.locked.edges@.no_duplicates());
        assert forall|y: int, x: int|
            0 <= y < dimy && 0 <= x < dimx && !c.locked.placed(y, x)
                implies #[trigger] c.locked.image.spec_index(y, x) == (crate::color::Color {
            r: 0,
            g: 0,
            b: 0,
            pad: 0,
        }) by {
            assert(0 <= y * (dimx as int) + x < (dimy as int) * (dimx as int))
                by (nonlinear_arith)
                requires 0 <= y < dimy as int, 0 <= x < dimx as int;
        }
        assert(c.wf());
    }
    Ok(c)
}

} // verus!
