//! Progress observation: passive observers that read a consistent snapshot
//! between the generator's barrier phases. Here stand the observers'
//! decisions — when to report and what; the barrier plumbing and the actual
//! output live with the caller.

use vstd::prelude::*;
use crate::getopt::{GetoptItem, HasArgument, Opt, OptGhost};
use crate::pnmdata::{dec_digits, pnm_bytes, PnmData};

verus! {

/// Observer configuration: a report fires at most once every
/// `progress_interval` steps, and a file observer appends
/// `progress_count` extra copies of the final frame.
#[derive(Debug, Clone, Copy, PartialEq, Eq, Structural)]
pub struct ProgressData {
    pub progress_interval: usize,
    pub progress_count: usize,
}

/// An observer that ignores every snapshot.
#[derive(Debug, Clone, Copy, PartialEq, Eq, Structural)]
pub struct NoOpProgressor {}

impl NoOpProgressor {
    /// Observes one snapshot and reports nothing.
    pub fn observe(&self) -> (r: Option<Vec<u8>>)
        ensures
            r is None,
    {
        None
    }
}

/// A step-counting observer that renders a textual progress line every
/// `progress_interval` steps.
#[derive(Debug, Clone, PartialEq)]
pub struct TextProgressor {
    pub progress_interval: usize,
    pub step_count: usize,
    pub prev_edge_count: usize,
}

impl TextProgressor {
    pub fn new(progress_interval: usize) -> (r: TextProgressor)
        ensures
            r.progress_interval == progress_interval,
            r.step_count == 0,
            r.prev_edge_count == 0,
    {
        TextProgressor { progress_interval, step_count: 0, prev_edge_count: 0 }
    }

    /// One observation: fires and resets the step counter once
    /// `progress_interval` steps have accumulated, else counts the step.
    /// The report states permille done, the frontier size and both
    /// counters; the caller prints it.
    pub fn observe(
        &mut self,
        edge_count: usize,
        pixels_placed: usize,
        pixels_generated: usize,
        size: usize,
    ) -> (r: Option<Vec<u8>>)
        requires
            size >= 1,
            pixels_placed <= size,
        ensures
            r is Some <==> old(self).step_count >= old(self).progress_interval,
            r matches Some(line) ==> line@ == progress_line_bytes(
                old(self).progress_interval as int,
                edge_count as int,
                pixels_placed as int,
                pixels_generated as int,
                size as int,
            ),
            r is Some ==> final(self).step_count == 0 && final(self).prev_edge_count
                == edge_count,
            r is None ==> final(self).step_count == old(self).step_count + 1,
            r is None ==> final(self).prev_edge_count == old(self).prev_edge_count,
            final(self).progress_interval == old(self).progress_interval,
    {
        if self.step_count >= self.progress_interval {
            self.step_count = 0;
            self.prev_edge_count = edge_count;
            Some(
                progress_line(
                    self.progress_interval,
                    self.prev_edge_count,
                    pixels_placed,
                    pixels_generated,
                    size,
                ),
            )
        } else {
            self.step_count = self.step_count + 1;
            None
        }
    }
}

/// A counter clamped into the serializer's 32-bit range.
pub open spec fn clamp32(v: int) -> int {
    if v > u32::MAX {
        u32::MAX as int
    } else {
        v
    }
}

/// The report line, byte for byte: `permille done <p> (interval <i>,
/// edges <e>, placed <n>, generated <g>)`, with `<p>` the thousandths of
/// the grid placed so far and the counters clamped into 32 bits.
pub open spec fn progress_line_bytes(
    interval: int,
    edges: int,
    placed: int,
    generated: int,
    size: int,
) -> Seq<u8> {
    seq![
        112u8, 101u8, 114u8, 109u8, 105u8, 108u8, 108u8, 101u8, 32u8, 100u8, 111u8, 110u8,
        101u8, 32u8,
    ] + dec_digits((placed * 1000) / size) + seq![
        32u8, 40u8, 105u8, 110u8, 116u8, 101u8, 114u8, 118u8, 97u8, 108u8, 32u8,
    ] + dec_digits(clamp32(interval)) + seq![44u8, 32u8, 101u8, 100u8, 103u8, 101u8, 115u8, 32u8]
        + dec_digits(clamp32(edges)) + seq![
        44u8, 32u8, 112u8, 108u8, 97u8, 99u8, 101u8, 100u8, 32u8,
    ] + dec_digits(clamp32(placed)) + seq![
        44u8, 32u8, 103u8, 101u8, 110u8, 101u8, 114u8, 97u8, 116u8, 101u8, 100u8, 32u8,
    ] + dec_digits(clamp32(generated)) + seq![41u8]
}

/// A textual progress report, exactly the bytes of
/// [`progress_line_bytes`]; the caller prints them.
pub fn progress_line(
    progress_interval: usize,
    edge_count: usize,
    pixels_placed: usize,
    pixels_generated: usize,
    size: usize,
) -> (r: Vec<u8>)
    requires
        size >= 1,
        pixels_placed <= size,
    ensures
        r@ == progress_line_bytes(
            progress_interval as int,
            edge_count as int,
            pixels_placed as int,
            pixels_generated as int,
            size as int,
        ),
        r@.len() >= 1,
{
    proof {
        let pp = pixels_placed as int;
        let sz = size as int;
        assert(pp * 1000 <= sz * 1000 && pp * 1000 >= 0) by (nonlinear_arith)
            requires 0 <= pp <= sz;
        assert(pp * 1000 / sz <= 1000) by (nonlinear_arith)
            requires pp * 1000 <= sz * 1000, sz >= 1, 0 <= pp * 1000;
    }
    let permille = (((pixels_placed as u128) * 1000) / (size as u128)) as u32;
    proof {
        assert(permille as int == ((pixels_placed as int) * 1000) / (size as int));
    }
    let mut out: Vec<u8> = Vec::new();
    let head: [u8; 14] = [112, 101, 114, 109, 105, 108, 108, 101, 32, 100, 111, 110, 101, 32];
    push_label(&mut out, &head);
    let mut d = crate::pnmdata::u32_to_dec(permille);
    out.append(&mut d);
    let lab1: [u8; 11] = [32, 40, 105, 110, 116, 101, 114, 118, 97, 108, 32];
    push_label(&mut out, &lab1);
    let mut d2 = crate::pnmdata::u32_to_dec(clamp_u32(progress_interval));
    out.append(&mut d2);
    let lab2: [u8; 8] = [44, 32, 101, 100, 103, 101, 115, 32];
    push_label(&mut out, &lab2);
    let mut d3 = crate::pnmdata::u32_to_dec(clamp_u32(edge_count));
    out.append(&mut d3);
    let lab3: [u8; 9] = [44, 32, 112, 108, 97, 99, 101, 100, 32];
    push_label(&mut out, &lab3);
    let mut d4 = crate::pnmdata::u32_to_dec(clamp_u32(pixels_placed));
    out.append(&mut d4);
    let lab4: [u8; 12] = [44, 32, 103, 101, 110, 101, 114, 97, 116, 101, 100, 32];
    push_label(&mut out, &lab4);
    let mut d5 = crate::pnmdata::u32_to_dec(clamp_u32(pixels_generated));
    out.append(&mut d5);
    out.push(41);
    proof {
        assert(out@ =~= progress_line_bytes(
            progress_interval as int,
            edge_count as int,
            pixels_placed as int,
            pixels_generated as int,
            size as int,
        ));
    }
    out
}

fn clamp_u32(v: usize) -> (r: u32)
    ensures
        r as int == clamp32(v as int),
{
    if v > u32::MAX as usize {
        u32::MAX
    } else {
        v as u32
    }
}

/// Appends a fixed label.
fn push_label(out: &mut Vec<u8>, label: &[u8])
    ensures
        final(out)@ == old(out)@ + label@,
{
    let mut i: usize = 0;
    while i < label.len()
        invariant
            i <= label@.len(),
            out@ == old(out)@ + label@.take(i as int),
        decreases label@.len() - i,
    {
        proof {
            assert(label@.take(i as int + 1) =~= label@.take(i as int).push(label@[i as int]));
        }
        let b = label[i];
        out.push(b);
        i += 1;
    }
    proof {
        assert(label@.take(label@.len() as int) =~= label@);
    }
}

/// A file-rendering observer: every `progress_interval` steps it emits the
/// whole image as one PNM frame for the caller to append to its stream.
#[derive(Debug, Clone, PartialEq)]
pub struct FileProgressor {
    pub progress_interval: usize,
    pub step_count: usize,
}

impl FileProgressor {
    pub fn new(progress_interval: usize) -> (r: FileProgressor)
        ensures
            r.progress_interval == progress_interval,
            r.step_count == 0,
    {
        FileProgressor { progress_interval, step_count: 0 }
    }

    /// One observation: a full PNM frame once `progress_interval` steps
    /// have accumulated, else nothing.
    pub fn observe(&mut self, image: &PnmData) -> (r: Option<Vec<u8>>)
        requires
            image.wf(),
            image.maxval <= 255,
            image.depth == 3,
        ensures
            r is Some <==> old(self).step_count >= old(self).progress_interval,
            r matches Some(bytes) ==> bytes@ == pnm_bytes(*image),
            r is Some ==> final(self).step_count == 0,
            r is None ==> final(self).step_count == old(self).step_count + 1,
            final(self).progress_interval == old(self).progress_interval,
    {
        if self.step_count >= self.progress_interval {
            self.step_count = 0;
            Some(image.to_bytes())
        } else {
            self.step_count = self.step_count + 1;
            None
        }
    }
}

/// One selected observer: a textual reporter, a PNM frame stream into a
/// named or default file, or a no-op stand-in for an unavailable back-end.
#[derive(Debug, Clone, PartialEq)]
pub enum ProgressorSel {
    Text,
    File(String),
    DefaultFile,
    NoOp,
}

/// The abstract value of a [`ProgressorSel`].
pub enum SelGhost {
    Text,
    File(Seq<char>),
    DefaultFile,
    NoOp,
}

impl View for ProgressorSel {
    type V = SelGhost;

    open spec fn view(&self) -> SelGhost {
        match self {
            ProgressorSel::Text => SelGhost::Text,
            ProgressorSel::File(p) => SelGhost::File(p@),
            ProgressorSel::DefaultFile => SelGhost::DefaultFile,
            ProgressorSel::NoOp => SelGhost::NoOp,
        }
    }
}

pub open spec fn sels_view(v: Seq<ProgressorSel>) -> Seq<SelGhost> {
    v.map_values(|s: ProgressorSel| s@)
}

/// The gathering observer configuration.
pub struct ProgressCfgGhost {
    pub sels: Seq<SelGhost>,
    pub interval: Option<int>,
    pub count: Option<int>,
}

/// One option's effect on the observer configuration. An explicitly asked
/// back-end that is not available here (framebuffer, windowed) degrades to
/// a no-op observer rather than failing the run.
pub open spec fn apply_progress_item(st: ProgressCfgGhost, it: crate::getopt::ItemGhost) -> ProgressCfgGhost {
    match it {
        crate::getopt::ItemGhost::Opt { opt, arg } => {
            if opt.long == Some("progressfile"@) && arg is Some {
                ProgressCfgGhost { sels: st.sels.push(SelGhost::File(arg->0)), ..st }
            } else if opt.long == Some("defaultprogressfile"@) && arg is None {
                ProgressCfgGhost { sels: st.sels.push(SelGhost::DefaultFile), ..st }
            } else if opt.long == Some("progresstext"@) && arg is None {
                ProgressCfgGhost { sels: st.sels.push(SelGhost::Text), ..st }
            } else if opt.long == Some("progressinterval"@) && arg is Some {
                match crate::generate::parse_usize_spec(arg->0) {
                    Some(v) => ProgressCfgGhost { interval: Some(v), ..st },
                    None => st,
                }
            } else if opt.short == Some('M') && arg is Some {
                match crate::generate::parse_usize_spec(arg->0) {
                    Some(v) => ProgressCfgGhost { count: Some(v), ..st },
                    None => st,
                }
            } else if opt.long == Some("SDL"@) && arg is None {
                ProgressCfgGhost { sels: st.sels.push(SelGhost::NoOp), ..st }
            } else if opt.long == Some("framebuffer"@) {
                ProgressCfgGhost { sels: st.sels.push(SelGhost::NoOp), ..st }
            } else {
                st
            }
        },
        crate::getopt::ItemGhost::NonOpt(_) => st,
    }
}

/// The observer configuration after the first `n` parsed options.
pub open spec fn progress_fold(items: Seq<crate::getopt::ItemGhost>, n: int) -> ProgressCfgGhost
    decreases n,
{
    if n <= 0 {
        ProgressCfgGhost { sels: Seq::empty(), interval: None, count: None }
    } else {
        apply_progress_item(progress_fold(items, n - 1), items[n - 1])
    }
}

/// The observer option names are pairwise distinct character sequences.
proof fn lemma_progress_names_distinct()
    ensures
        "progressfile"@ != "defaultprogressfile"@ && "progressfile"@ != "progresstext"@
            && "progressfile"@ != "progressinterval"@ && "progressfile"@ != "SDL"@
            && "progressfile"@ != "framebuffer"@ && "progressfile"@ != "wait"@,
        "defaultprogressfile"@ != "progresstext"@ && "defaultprogressfile"@
            != "progressinterval"@ && "defaultprogressfile"@ != "SDL"@ && "defaultprogressfile"@
            != "framebuffer"@ && "defaultprogressfile"@ != "wait"@,
        "progresstext"@ != "progressinterval"@ && "progresstext"@ != "SDL"@ && "progresstext"@
            != "framebuffer"@ && "progresstext"@ != "wait"@,
        "progressinterval"@ != "SDL"@ && "progressinterval"@ != "framebuffer"@
            && "progressinterval"@ != "wait"@,
        "SDL"@ != "framebuffer"@ && "SDL"@ != "wait"@,
        "framebuffer"@ != "wait"@,
{
    reveal_strlit("progressfile");
    reveal_strlit("defaultprogressfile");
    reveal_strlit("progresstext");
    reveal_strlit("progressinterval");
    reveal_strlit("SDL");
    reveal_strlit("framebuffer");
    reveal_strlit("wait");
    assert("progressfile"@.len() == 12 && "defaultprogressfile"@.len() == 19 && "progresstext"@.len()
        == 12 && "progressinterval"@.len() == 16 && "SDL"@.len() == 3 && "framebuffer"@.len() == 11
        && "wait"@.len() == 4);
    assert("progressfile"@[8] == 'f' && "progresstext"@[8] == 't');
}

/// The options this module recognizes. The back-end options are accepted
/// so that asking for an unavailable back-end degrades instead of failing
/// at the parse.
pub fn opts() -> (r: Vec<Opt>)
    ensures
        r@.len() == 8,
        r@[0]@ == (OptGhost {
            short: Some('P'),
            long: Some("progressfile"@),
            has_argument: HasArgument::Yes,
        }),
        r@[1]@ == (OptGhost {
            short: Some('d'),
            long: Some("defaultprogressfile"@),
            has_argument: HasArgument::No,
        }),
        r@[2]@ == (OptGhost {
            short: Some('T'),
            long: Some("progresstext"@),
            has_argument: HasArgument::No,
        }),
        r@[3]@ == (OptGhost {
            short: Some('I'),
            long: Some("progressinterval"@),
            has_argument: HasArgument::Yes,
        }),
        r@[4]@ == (OptGhost { short: Some('M'), long: None, has_argument: HasArgument::Yes }),
        r@[5]@ == (OptGhost { short: None, long: Some("SDL"@), has_argument: HasArgument::No }),
        r@[6]@ == (OptGhost { short: None, long: Some("wait"@), has_argument: HasArgument::Yes }),
        r@[7]@ == (OptGhost {
            short: None,
            long: Some("framebuffer"@),
            has_argument: HasArgument::Optional,
        }),
{
    let mut r: Vec<Opt> = Vec::new();
    r.push(Opt::short_long('P', "progressfile", HasArgument::Yes));
    r.push(Opt::short_long('d', "defaultprogressfile", HasArgument::No));
    r.push(Opt::short_long('T', "progresstext", HasArgument::No));
    r.push(Opt::short_long('I', "progressinterval", HasArgument::Yes));
    r.push(Opt::short('M', HasArgument::Yes));
    r.push(Opt::long("SDL", HasArgument::No));
    r.push(Opt::long("wait", HasArgument::Yes));
    r.push(Opt::long("framebuffer", HasArgument::Optional));
    r
}

/// Reads the observer options: the selected observers in order (a lone
/// textual one when none was asked for), the report interval (1024 when
/// unset) and the final-frame repeat count (0 when unset). The caller
/// opens files and runs the barriers.
#[verifier::rlimit(100)]
#[verifier::spinoff_prover]
pub fn handle_opts(items: &Vec<GetoptItem>) -> (r: (Vec<ProgressorSel>, ProgressData))
    ensures
        ({
            let cfg = progress_fold(crate::getopt::items_view(items@), items@.len() as int);
            &&& sels_view(r.0@) == (if cfg.sels.len() == 0 {
                seq![SelGhost::Text]
            } else {
                cfg.sels
            })
            &&& r.1.progress_interval as int == match cfg.interval {
                Some(v) => v,
                None => 1024,
            }
            &&& r.1.progress_count as int == match cfg.count {
                Some(v) => v,
                None => 0,
            }
        }),
{
    let ghost iv = crate::getopt::items_view(items@);
    let mut sels: Vec<ProgressorSel> = Vec::new();
    let mut interval: Option<usize> = None;
    let mut count: Option<usize> = None;
    let mut i: usize = 0;
    proof {
        assert(sels_view(sels@) =~= Seq::<SelGhost>::empty());
    }
    while i < items.len()
        invariant
            i <= items@.len(),
            iv == crate::getopt::items_view(items@),
            progress_fold(iv, i as int) == (ProgressCfgGhost {
                sels: sels_view(sels@),
                interval: match interval {
                    Some(v) => Some(v as int),
                    None => None,
                },
                count: match count {
                    Some(v) => Some(v as int),
                    None => None,
                },
            }),
        decreases items@.len() - i,
    {
        let ghost st = ProgressCfgGhost {
            sels: sels_view(sels@),
            interval: match interval {
                Some(v) => Some(v as int),
                None => None,
            },
            count: match count {
                Some(v) => Some(v as int),
                None => None,
            },
        };
        proof {
            assert(iv[i as int] == items@[i as int]@);
            lemma_progress_names_distinct();
        }
        match &items[i] {
            GetoptItem::Opt { opt, arg } => {
                let is_m = match opt.short {
                    Some(c) => c == 'M',
                    None => false,
                };
                let has_arg = arg.is_some();
                if opt.is_long("progressfile") && has_arg {
                    match arg {
                        Some(a) => {
                            let ghost before = sels@;
                            sels.push(ProgressorSel::File(a.clone()));
                            proof {
                                assert(sels_view(sels@) =~= sels_view(before).push(
                                    SelGhost::File(a@),
                                ));
                            }
                        },
                        None => {},
                    }
                } else if opt.is_long("defaultprogressfile") && !has_arg {
                    let ghost before = sels@;
                    sels.push(ProgressorSel::DefaultFile);
                    proof {
                        assert(sels_view(sels@) =~= sels_view(before).push(
                            SelGhost::DefaultFile,
                        ));
                    }
                } else if opt.is_long("progresstext") && !has_arg {
                    let ghost before = sels@;
                    sels.push(ProgressorSel::Text);
                    proof {
                        assert(sels_view(sels@) =~= sels_view(before).push(SelGhost::Text));
                    }
                } else if opt.is_long("progressinterval") && has_arg {
                    match arg {
                        Some(a) => {
                            let cs = crate::getopt::chars_of(a.as_str());
                            match crate::generate::parse_usize_pub(&cs) {
                                Some(v) => {
                                    interval = Some(v);
                                },
                                None => {},
                            }
                        },
                        None => {},
                    }
                } else if is_m && has_arg {
                    match arg {
                        Some(a) => {
                            let cs = crate::getopt::chars_of(a.as_str());
                            match crate::generate::parse_usize_pub(&cs) {
                                Some(v) => {
                                    count = Some(v);
                                },
                                None => {},
                            }
                        },
                        None => {},
                    }
                } else if opt.is_long("SDL") && !has_arg {
                    let ghost before = sels@;
                    sels.push(ProgressorSel::NoOp);
                    proof {
                        assert(sels_view(sels@) =~= sels_view(before).push(SelGhost::NoOp));
                    }
                } else if opt.is_long("framebuffer") {
                    let ghost before = sels@;
                    sels.push(ProgressorSel::NoOp);
                    proof {
                        assert(sels_view(sels@) =~= sels_view(before).push(SelGhost::NoOp));
                    }
                }
            },
            GetoptItem::NonOpt(_) => {},
        }
        i += 1;
    }
    let data = ProgressData {
        progress_interval: match interval {
            Some(v) => v,
            None => 1024,
        },
        progress_count: match count {
            Some(v) => v,
            None => 0,
        },
    };
    if sels.len() == 0 {
        sels.push(ProgressorSel::Text);
        proof {
            assert(sels_view(sels@) =~= seq![SelGhost::Text]);
        }
    }
    (sels, data)
}

} // verus!
