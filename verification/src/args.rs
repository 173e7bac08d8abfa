//! Argument parsing, compatible with the underlying tool's quirks.
//!
//! Most arguments are passed through to `nix-shell` as-is, but they must
//! all be parsed: strong options enter the fingerprint, weak options do
//! not, and a few are handled here.  Short options may be concatenated
//! (`-pj16` reads as `-p -j 16`) and are expanded lazily, left to right.

use vstd::prelude::*;
use crate::lit::{bytes_is, lit, lit_bytes};

verus! {

/// An ASCII letter.
pub open spec fn spec_is_alpha(b: u8) -> bool {
    (97 <= b && b <= 122) || (65 <= b && b <= 90)
}

/// True iff `b` is an ASCII letter.
pub fn is_alpha(b: u8) -> (r: bool)
    ensures
        r == spec_is_alpha(b),
{
    (97 <= b && b <= 122) || (65 <= b && b <= 90)
}

/// An argument of the concatenated short-option shape: `-` followed by a
/// letter and at least one more byte.
pub open spec fn spec_expandable(a: Seq<u8>) -> bool {
    a.len() > 2 && a[0] == 45 && spec_is_alpha(a[1])
}

/// The number of letters at the start of `s`.
pub open spec fn spec_leading_alpha(s: Seq<u8>) -> int
    decreases s.len(),
{
    if s.len() > 0 && spec_is_alpha(s[0]) {
        1 + spec_leading_alpha(s.drop_first())
    } else {
        0
    }
}

/// [`spec_leading_alpha`] counts a maximal run of letters.
pub proof fn lemma_leading_alpha(s: Seq<u8>)
    ensures
        0 <= spec_leading_alpha(s) <= s.len(),
        forall|j: int| 0 <= j < spec_leading_alpha(s) ==> spec_is_alpha(#[trigger] s[j]),
        spec_leading_alpha(s) < s.len() ==> !spec_is_alpha(s[spec_leading_alpha(s)]),
    decreases s.len(),
{
    if s.len() > 0 && spec_is_alpha(s[0]) {
        lemma_leading_alpha(s.drop_first());
        let r = spec_leading_alpha(s);
        assert forall|j: int| 0 <= j < r implies spec_is_alpha(s[j]) by {
            if j >= 1 {
                assert(spec_is_alpha(s.drop_first()[j - 1]));
            }
        }
        if r < s.len() {
            assert(s[r] == s.drop_first()[r - 1]);
        }
    }
}

/// The single-dash options an expandable argument unfolds to: `-x` for
/// each leading letter `x` after the dash.
pub open spec fn spec_dashed(letters: Seq<u8>) -> Seq<Seq<u8>> {
    Seq::new(letters.len(), |i: int| seq![45u8, letters[i]])
}

/// One step of the argument reader: take the front of the queue; an
/// expandable argument `-pj16` is first unfolded into `-p`, `-j`, `16`,
/// of which the head is taken and the rest goes back to the front.
pub open spec fn spec_next_arg(q: Seq<Seq<u8>>) -> Option<(Seq<u8>, Seq<Seq<u8>>)> {
    if q.len() == 0 {
        None
    } else {
        let a = q[0];
        let rest = q.drop_first();
        if spec_expandable(a) {
            let k = if spec_leading_alpha(a.skip(1)) < a.len() - 1 {
                spec_leading_alpha(a.skip(1))
            } else {
                a.len() - 1
            };
            let letters = a.subrange(1, 1 + k);
            let tail = a.subrange(1 + k, a.len() as int);
            let tail_items = if tail.len() > 0 {
                seq![tail]
            } else {
                Seq::<Seq<u8>>::empty()
            };
            Some((seq![45u8, letters[0]], spec_dashed(letters).drop_first() + tail_items + rest))
        } else {
            Some((a, rest))
        }
    }
}

/// Total length of the expandable arguments in the queue: the measure
/// that shrinks on every expansion step.
pub open spec fn queue_exp_weight(q: Seq<Seq<u8>>) -> nat
    decreases q.len(),
{
    if q.len() == 0 {
        0
    } else {
        (if spec_expandable(q[0]) {
            q[0].len()
        } else {
            0
        }) + queue_exp_weight(q.drop_first())
    }
}

/// The measure distributes over concatenation.
pub proof fn lemma_exp_weight_concat(a: Seq<Seq<u8>>, b: Seq<Seq<u8>>)
    ensures
        queue_exp_weight(a + b) == queue_exp_weight(a) + queue_exp_weight(b),
    decreases a.len(),
{
    if a.len() == 0 {
        assert(a + b =~= b);
    } else {
        assert((a + b)[0] == a[0]);
        assert((a + b).drop_first() =~= a.drop_first() + b);
        lemma_exp_weight_concat(a.drop_first(), b);
    }
}

/// Queues of single-dash options weigh nothing.
pub proof fn lemma_exp_weight_dashed(letters: Seq<u8>)
    requires
        letters.len() >= 1,
    ensures
        queue_exp_weight(spec_dashed(letters).drop_first()) == 0,
{
    let d = spec_dashed(letters).drop_first();
    assert forall|i: int| 0 <= i < d.len() implies (#[trigger] d[i]).len() <= 2 by {
        assert(d[i] == spec_dashed(letters)[i + 1]);
    }
    lemma_exp_weight_short(d);
}

/// A queue of items no longer than two bytes weighs nothing.
pub proof fn lemma_exp_weight_short(q: Seq<Seq<u8>>)
    requires
        forall|i: int| 0 <= i < q.len() ==> (#[trigger] q[i]).len() <= 2,
    ensures
        queue_exp_weight(q) == 0,
    decreases q.len(),
{
    if q.len() > 0 {
        assert(forall|i: int| 0 <= i < q.drop_first().len() ==> (#[trigger] q.drop_first()[i]).len()
            <= 2) by {
            assert(forall|i: int|
                0 <= i < q.drop_first().len() ==> #[trigger] q.drop_first()[i] == q[i + 1]);
        }
        lemma_exp_weight_short(q.drop_first());
    }
}

/// Dropping items from the front never raises the measure.
pub proof fn lemma_exp_weight_skip(q: Seq<Seq<u8>>, n: int)
    requires
        0 <= n <= q.len(),
    ensures
        queue_exp_weight(q.skip(n)) <= queue_exp_weight(q),
    decreases n,
{
    if n > 0 {
        assert(q.drop_first().skip(n - 1) =~= q.skip(n));
        lemma_exp_weight_skip(q.drop_first(), n - 1);
    } else {
        assert(q.skip(0) =~= q);
    }
}

/// Each reader step shrinks the measure, or keeps it and shortens the
/// queue: the reader and the parser terminate.
pub proof fn lemma_next_arg_decreases(q: Seq<Seq<u8>>)
    requires
        spec_next_arg(q) is Some,
    ensures
        ({
            let q2 = spec_next_arg(q).unwrap().1;
            queue_exp_weight(q2) < queue_exp_weight(q) || (queue_exp_weight(q2)
                == queue_exp_weight(q) && q2.len() < q.len())
        }),
{
    let a = q[0];
    let rest = q.drop_first();
    if spec_expandable(a) {
        lemma_leading_alpha(a.skip(1));
        let k = if spec_leading_alpha(a.skip(1)) < a.len() - 1 {
            spec_leading_alpha(a.skip(1))
        } else {
            a.len() - 1
        };
        assert(1 <= k <= a.len() - 1) by {
            assert(a.skip(1)[0] == a[1]);
            assert(spec_leading_alpha(a.skip(1)) >= 1);
        }
        let letters = a.subrange(1, 1 + k);
        let tail = a.subrange(1 + k, a.len() as int);
        let tail_items = if tail.len() > 0 {
            seq![tail]
        } else {
            Seq::<Seq<u8>>::empty()
        };
        let q2 = spec_dashed(letters).drop_first() + tail_items + rest;
        lemma_exp_weight_concat(spec_dashed(letters).drop_first() + tail_items, rest);
        lemma_exp_weight_concat(spec_dashed(letters).drop_first(), tail_items);
        lemma_exp_weight_dashed(letters);
        if tail.len() > 0 {
            assert(queue_exp_weight(tail_items) <= tail.len()) by {
                assert(tail_items[0] == tail);
                assert(tail_items.drop_first() =~= Seq::<Seq<u8>>::empty());
                assert(queue_exp_weight(Seq::<Seq<u8>>::empty()) == 0);
            }
            assert(tail.len() == a.len() - 1 - k);
        } else {
            assert(queue_exp_weight(tail_items) == 0);
        }
        assert(queue_exp_weight(q) == a.len() + queue_exp_weight(rest));
        assert(queue_exp_weight(q2) <= a.len() - 2 + queue_exp_weight(rest));
    } else {
        assert(queue_exp_weight(q) == queue_exp_weight(rest) + (if spec_expandable(a) {
            a.len()
        } else {
            0
        }));
    }
}

/// What to run once the environment is materialised.
pub enum RunMode {
    /// No mode argument: an interactive shell.
    InteractiveShell,
    /// `--run CMD` or `--command CMD`.
    Shell(Vec<u8>),
    /// `--exec CMD ARGS…`; the tail is not re-parsed.
    Exec(Vec<u8>, Vec<Vec<u8>>),
}

/// The parsed command line.
pub struct Args {
    /// `-p` / `--packages` / `-E` / `--expr` seen.
    pub packages_or_expr: bool,
    /// `--pure` (true) or `--impure` (false; the default).
    pub pure_mode: bool,
    /// `-i INTERP` (shebang only); `bash` when absent.
    pub interpreter: Vec<u8>,
    /// `--run` / `--command` / `--exec` (outside shebangs).
    pub run: RunMode,
    /// The values of every `--keep`.
    pub keep: Vec<Vec<u8>>,
    /// Positional arguments.
    pub rest: Vec<Vec<u8>>,
    /// Strong keyword arguments, canonicalised, in order.
    pub other_kw: Vec<Vec<u8>>,
    /// Weak keyword arguments, canonicalised, in order.
    pub weak_kw: Vec<Vec<u8>>,
    /// The values of every `-I`, for the relative-path check.
    pub include_nix_path: Vec<Vec<u8>>,
}

/// Why parsing stopped without an argument list.
pub enum ParseError {
    /// `--version` was asked for; the caller prints it and exits 0.
    Version,
    /// `--wrap` somewhere else than first.
    WrapMisplaced,
    /// The named flag wants more arguments than remain.
    MissingArgument(Vec<u8>),
    /// An unknown flag.
    UnexpectedFlag(Vec<u8>),
}

/// The spec-level image of [`RunMode`].
#[verifier::ext_equal]
pub enum RunModeModel {
    InteractiveShell,
    Shell(Seq<u8>),
    Exec(Seq<u8>, Seq<Seq<u8>>),
}

/// The spec-level image of [`Args`].
#[verifier::ext_equal]
pub struct ArgsModel {
    pub packages_or_expr: bool,
    pub pure_mode: bool,
    pub interpreter: Seq<u8>,
    pub run: RunModeModel,
    pub keep: Seq<Seq<u8>>,
    pub rest: Seq<Seq<u8>>,
    pub other_kw: Seq<Seq<u8>>,
    pub weak_kw: Seq<Seq<u8>>,
    pub include_nix_path: Seq<Seq<u8>>,
}

/// What parsing yields: an argument list, a `--version` request, or an
/// error.
#[verifier::ext_equal]
pub enum ParseResultModel {
    Parsed(ArgsModel),
    Version,
    WrapMisplaced,
    MissingArgument(Seq<u8>),
    UnexpectedFlag(Seq<u8>),
}

impl Args {
    /// The spec-level value of this argument list.
    pub open spec fn model(&self) -> ArgsModel {
        ArgsModel {
            packages_or_expr: self.packages_or_expr,
            pure_mode: self.pure_mode,
            interpreter: self.interpreter@,
            run: match self.run {
                RunMode::InteractiveShell => RunModeModel::InteractiveShell,
                RunMode::Shell(ref c) => RunModeModel::Shell(c@),
                RunMode::Exec(ref c, ref a) => RunModeModel::Exec(c@, a.deep_view()),
            },
            keep: self.keep.deep_view(),
            rest: self.rest.deep_view(),
            other_kw: self.other_kw.deep_view(),
            weak_kw: self.weak_kw.deep_view(),
            include_nix_path: self.include_nix_path.deep_view(),
        }
    }
}

/// The defaults before any argument is read.
pub open spec fn spec_args_init() -> ArgsModel {
    ArgsModel {
        packages_or_expr: false,
        pure_mode: false,
        interpreter: lit("bash"),
        run: RunModeModel::InteractiveShell,
        keep: Seq::empty(),
        rest: Seq::empty(),
        other_kw: Seq::empty(),
        weak_kw: Seq::empty(),
        include_nix_path: Seq::empty(),
    }
}

/// The option table: is the option weak, how many arguments it takes,
/// and its canonical spelling.
pub open spec fn spec_lookup_option(a: Seq<u8>) -> Option<(bool, int, Seq<u8>)> {
    if a == lit("--attr") || a == lit("-A") {
        Some((false, 1int, lit("--attr")))
    } else if a == lit("-I") {
        Some((false, 1int, lit("-I")))
    } else if a == lit("--arg") {
        Some((false, 2int, lit("--arg")))
    } else if a == lit("--argstr") {
        Some((false, 2int, lit("--argstr")))
    } else if a == lit("--fallback") {
        Some((true, 0int, lit("--fallback")))
    } else if a == lit("--keep-failed") || a == lit("-K") {
        Some((true, 0int, lit("--keep-failed")))
    } else if a == lit("--keep-going") || a == lit("-k") {
        Some((true, 0int, lit("--keep-going")))
    } else if a == lit("--no-build-hook") {
        Some((true, 0int, lit("--no-build-hook")))
    } else if a == lit("--no-build-output") || a == lit("-Q") {
        Some((true, 0int, lit("--no-build-output")))
    } else if a == lit("--quiet") {
        Some((true, 0int, lit("--quiet")))
    } else if a == lit("--repair") {
        Some((true, 0int, lit("--repair")))
    } else if a == lit("--show-trace") {
        Some((true, 0int, lit("--show-trace")))
    } else if a == lit("--verbose") || a == lit("-v") {
        Some((true, 0int, lit("--verbose")))
    } else if a == lit("--cores") {
        Some((true, 1int, lit("--cores")))
    } else if a == lit("--max-jobs") || a == lit("-j") {
        Some((true, 1int, lit("--max-jobs")))
    } else if a == lit("--max-silent-time") {
        Some((true, 1int, lit("--max-silent-time")))
    } else if a == lit("--timeout") {
        Some((true, 1int, lit("--timeout")))
    } else if a == lit("--option") {
        Some((true, 2int, lit("--option")))
    } else {
        None
    }
}

/// Look an option up in the table.
pub fn lookup_option(a: &Vec<u8>) -> (r: Option<(bool, u8, Vec<u8>)>)
    ensures
        match r {
            Some(t) => spec_lookup_option(a@) == Some((t.0, t.1 as int, t.2@)) && t.1 <= 2,
            None => spec_lookup_option(a@) is None,
        },
{
    proof {
        reveal_strlit("--attr");
        reveal_strlit("-A");
        reveal_strlit("-I");
        reveal_strlit("--arg");
        reveal_strlit("--argstr");
        reveal_strlit("--fallback");
        reveal_strlit("--keep-failed");
        reveal_strlit("-K");
        reveal_strlit("--keep-going");
        reveal_strlit("-k");
        reveal_strlit("--no-build-hook");
        reveal_strlit("--no-build-output");
        reveal_strlit("-Q");
        reveal_strlit("--quiet");
        reveal_strlit("--repair");
        reveal_strlit("--show-trace");
        reveal_strlit("--verbose");
        reveal_strlit("-v");
        reveal_strlit("--cores");
        reveal_strlit("--max-jobs");
        reveal_strlit("-j");
        reveal_strlit("--max-silent-time");
        reveal_strlit("--timeout");
        reveal_strlit("--option");
    }
    let s = a.as_slice();
    if bytes_is(s, "--attr") || bytes_is(s, "-A") {
        Some((false, 1, lit_bytes("--attr")))
    } else if bytes_is(s, "-I") {
        Some((false, 1, lit_bytes("-I")))
    } else if bytes_is(s, "--arg") {
        Some((false, 2, lit_bytes("--arg")))
    } else if bytes_is(s, "--argstr") {
        Some((false, 2, lit_bytes("--argstr")))
    } else if bytes_is(s, "--fallback") {
        Some((true, 0, lit_bytes("--fallback")))
    } else if bytes_is(s, "--keep-failed") || bytes_is(s, "-K") {
        Some((true, 0, lit_bytes("--keep-failed")))
    } else if bytes_is(s, "--keep-going") || bytes_is(s, "-k") {
        Some((true, 0, lit_bytes("--keep-going")))
    } else if bytes_is(s, "--no-build-hook") {
        Some((true, 0, lit_bytes("--no-build-hook")))
    } else if bytes_is(s, "--no-build-output") || bytes_is(s, "-Q") {
        Some((true, 0, lit_bytes("--no-build-output")))
    } else if bytes_is(s, "--quiet") {
        Some((true, 0, lit_bytes("--quiet")))
    } else if bytes_is(s, "--repair") {
        Some((true, 0, lit_bytes("--repair")))
    } else if bytes_is(s, "--show-trace") {
        Some((true, 0, lit_bytes("--show-trace")))
    } else if bytes_is(s, "--verbose") || bytes_is(s, "-v") {
        Some((true, 0, lit_bytes("--verbose")))
    } else if bytes_is(s, "--cores") {
        Some((true, 1, lit_bytes("--cores")))
    } else if bytes_is(s, "--max-jobs") || bytes_is(s, "-j") {
        Some((true, 1, lit_bytes("--max-jobs")))
    } else if bytes_is(s, "--max-silent-time") {
        Some((true, 1, lit_bytes("--max-silent-time")))
    } else if bytes_is(s, "--timeout") {
        Some((true, 1, lit_bytes("--timeout")))
    } else if bytes_is(s, "--option") {
        Some((true, 2, lit_bytes("--option")))
    } else {
        None
    }
}

/// The parser, one argument at a time.  `q` is the pending queue, `acc`
/// what has been gathered.  Mirrors the underlying tool's reading: table
/// options are copied (canonicalised) into the weak or strong keyword
/// list; the handful of options with meaning here update `acc`; `--exec`
/// stops parsing and takes the rest verbatim.
pub open spec fn spec_parse(q: Seq<Seq<u8>>, in_shebang: bool, acc: ArgsModel) -> ParseResultModel
    decreases queue_exp_weight(q), q.len(),
    via spec_parse_decreases
{
    match spec_next_arg(q) {
        None => ParseResultModel::Parsed(acc),
        Some(p) => {
            let arg = p.0;
            let q1 = p.1;
            match spec_lookup_option(arg) {
                Some(opt) => {
                    if q1.len() < opt.1 {
                        ParseResultModel::MissingArgument(arg)
                    } else {
                        let vals = q1.take(opt.1);
                        let acc2 = if opt.0 {
                            ArgsModel { weak_kw: acc.weak_kw + seq![opt.2] + vals, ..acc }
                        } else {
                            ArgsModel { other_kw: acc.other_kw + seq![opt.2] + vals, ..acc }
                        };
                        let acc3 = if opt.2 == lit("-I") {
                            ArgsModel { include_nix_path: acc2.include_nix_path + vals, ..acc2 }
                        } else {
                            acc2
                        };
                        spec_parse(q1.skip(opt.1), in_shebang, acc3)
                    }
                },
                None => {
                    if arg == lit("--pure") {
                        spec_parse(q1, in_shebang, ArgsModel { pure_mode: true, ..acc })
                    } else if arg == lit("--impure") {
                        spec_parse(q1, in_shebang, ArgsModel { pure_mode: false, ..acc })
                    } else if arg == lit("-p") || arg == lit("--packages") || arg == lit("-E")
                        || arg == lit("--expr") {
                        spec_parse(
                            q1,
                            in_shebang,
                            ArgsModel {
                                packages_or_expr: true,
                                other_kw: acc.other_kw.push(arg),
                                ..acc
                            },
                        )
                    } else if arg == lit("-i") && in_shebang {
                        if q1.len() < 1 {
                            ParseResultModel::MissingArgument(arg)
                        } else {
                            spec_parse(
                                q1.drop_first(),
                                in_shebang,
                                ArgsModel { interpreter: q1[0], ..acc },
                            )
                        }
                    } else if (arg == lit("--run") || arg == lit("--command")) && !in_shebang {
                        if q1.len() < 1 {
                            ParseResultModel::MissingArgument(arg)
                        } else {
                            spec_parse(
                                q1.drop_first(),
                                in_shebang,
                                ArgsModel { run: RunModeModel::Shell(q1[0]), ..acc },
                            )
                        }
                    } else if arg == lit("--exec") && !in_shebang {
                        if q1.len() < 1 {
                            ParseResultModel::MissingArgument(arg)
                        } else {
                            ParseResultModel::Parsed(
                                ArgsModel {
                                    run: RunModeModel::Exec(q1[0], q1.drop_first()),
                                    ..acc
                                },
                            )
                        }
                    } else if arg == lit("--keep") {
                        if q1.len() < 1 {
                            ParseResultModel::MissingArgument(arg)
                        } else {
                            spec_parse(
                                q1.drop_first(),
                                in_shebang,
                                ArgsModel { keep: acc.keep.push(q1[0]), ..acc },
                            )
                        }
                    } else if arg == lit("--version") {
                        ParseResultModel::Version
                    } else if arg == lit("--wrap") && !in_shebang {
                        ParseResultModel::WrapMisplaced
                    } else if arg.len() > 0 && arg[0] == 45 {
                        ParseResultModel::UnexpectedFlag(arg)
                    } else {
                        spec_parse(q1, in_shebang, ArgsModel { rest: acc.rest.push(arg), ..acc })
                    }
                },
            }
        },
    }
}

#[via_fn]
proof fn spec_parse_decreases(q: Seq<Seq<u8>>, in_shebang: bool, acc: ArgsModel) {
    if spec_next_arg(q) is Some {
        lemma_next_arg_decreases(q);
        let q1 = spec_next_arg(q).unwrap().1;
        match spec_lookup_option(spec_next_arg(q).unwrap().0) {
            Some(opt) => {
                if q1.len() >= opt.1 && 0 <= opt.1 {
                    lemma_exp_weight_skip(q1, opt.1);
                }
            },
            None => {
                if q1.len() >= 1 {
                    assert(q1.drop_first() =~= q1.skip(1));
                    lemma_exp_weight_skip(q1, 1);
                }
            },
        }
    }
}

/// What [`Args::parse`] yields for an argument list.
pub open spec fn spec_parse_args(args: Seq<Seq<u8>>, in_shebang: bool) -> ParseResultModel {
    spec_parse(args, in_shebang, spec_args_init())
}

/// The pending arguments, kept in reverse so that the front is at the
/// end of the vector and both ends of a step are cheap.
pub open spec fn queue_view(items: Seq<Vec<u8>>) -> Seq<Seq<u8>> {
    Seq::new(items.len(), |i: int| items[items.len() - 1 - i]@)
}

/// Take the next argument off the queue, expanding a concatenated short
/// option first.  What comes back is never itself expandable: expansion
/// is idempotent.
pub fn get_next_arg(items: &mut Vec<Vec<u8>>) -> (r: Option<Vec<u8>>)
    ensures
        match r {
            Some(a) => {
                &&& spec_next_arg(queue_view(old(items)@)) == Some((a@, queue_view(
                    final(items)@,
                )))
                &&& !spec_expandable(a@)
            },
            None => queue_view(old(items)@).len() == 0 && final(items)@ == old(items)@,
        },
{
    let ghost q = queue_view(items@);
    if items.len() == 0 {
        return None;
    }
    let arg = items.pop().unwrap();
    proof {
        assert(q[0] == arg@);
        assert(queue_view(items@) =~= q.drop_first());
    }
    let arg_len = arg.len();
    if arg_len > 2 && arg[0] == 45 && (97 <= arg[1] && arg[1] <= 122 && 97 <= arg[1] || 65
        <= arg[1] && arg[1] <= 90) {
        // Expand the concatenated letters and put everything except the
        // head back onto the queue front.
        proof {
            lemma_leading_alpha(arg@.skip(1));
        }
        let mut k: usize = 1;
        while k < arg_len - 1 && (97 <= arg[k + 1] && arg[k + 1] <= 122 || 65 <= arg[k + 1]
            && arg[k + 1] <= 90)
            invariant
                1 <= k <= arg_len - 1,
                arg_len == arg@.len(),
                arg_len > 2,
                forall|j: int| 0 <= j < k ==> spec_is_alpha(#[trigger] arg@.skip(1)[j]),
            decreases arg_len - k,
        {
            proof {
                assert(arg@.skip(1)[k as int] == arg@[k + 1]);
            }
            k += 1;
        }
        proof {
            let la = spec_leading_alpha(arg@.skip(1));
            let sk = if la < arg@.len() - 1 {
                la
            } else {
                arg@.len() - 1
            };
            if k < arg_len - 1 {
                assert(arg@.skip(1)[k as int] == arg@[k + 1]);
                assert(!spec_is_alpha(arg@.skip(1)[k as int]));
                if la < k {
                    assert(spec_is_alpha(arg@.skip(1)[la]));
                    assert(false);
                }
                if la > k {
                    assert(spec_is_alpha(arg@.skip(1)[k as int]));
                    assert(false);
                }
                assert(sk == k);
            } else {
                if la < k {
                    assert(spec_is_alpha(arg@.skip(1)[la]));
                    assert(false);
                }
                assert(sk == k);
            }
        }
        let ghost letters = arg@.subrange(1, 1 + k);
        let ghost tail_g = arg@.subrange(1 + k, arg_len as int);
        // Push the tail (if any), then the dashed letters in reverse, so
        // that `-<first letter>` ends up at the queue front.
        if k + 1 < arg_len {
            let tail = vstd::slice::slice_to_vec(vstd::slice::slice_subrange(
                arg.as_slice(),
                k + 1,
                arg_len,
            ));
            proof {
                assert(tail@ =~= tail_g);
            }
            let ghost before_tail = queue_view(items@);
            items.push(tail);
            proof {
                assert(queue_view(items@) =~= seq![tail_g] + before_tail);
            }
        }
        proof {
            assert(spec_dashed(letters).subrange(k as int, k as int) =~= Seq::<Seq<u8>>::empty());
            assert(queue_view(items@) =~= spec_dashed(letters).subrange(k as int, k as int) + (
            if k + 1 < arg_len {
                seq![tail_g]
            } else {
                Seq::<Seq<u8>>::empty()
            }) + q.drop_first());
        }
        let mut li: usize = k;
        while li >= 2
            invariant
                1 <= li <= k,
                k <= arg_len - 1,
                arg_len == arg@.len(),
                letters == arg@.subrange(1, 1 + k as int),
                queue_view(items@) =~= spec_dashed(letters).subrange(li as int, k as int) + (
                if k + 1 < arg_len {
                    seq![tail_g]
                } else {
                    Seq::<Seq<u8>>::empty()
                }) + q.drop_first(),
            decreases li,
        {
            let mut d: Vec<u8> = Vec::new();
            d.push(45);
            d.push(arg[li]);
            proof {
                assert(letters[li - 1] == arg@[li as int]);
                assert(d@ =~= seq![45u8, letters[li - 1]]);
                assert(spec_dashed(letters)[li - 1] == seq![45u8, letters[li - 1]]);
            }
            let ghost before = queue_view(items@);
            items.push(d);
            proof {
                assert(queue_view(items@) =~= seq![spec_dashed(letters)[li - 1]] + before);
                assert(seq![spec_dashed(letters)[li - 1]] + (spec_dashed(letters).subrange(
                    li as int,
                    k as int,
                ) + (if k + 1 < arg_len {
                    seq![tail_g]
                } else {
                    Seq::<Seq<u8>>::empty()
                }) + q.drop_first()) =~= spec_dashed(letters).subrange(li - 1, k as int) + (
                if k + 1 < arg_len {
                    seq![tail_g]
                } else {
                    Seq::<Seq<u8>>::empty()
                }) + q.drop_first());
            }
            li -= 1;
        }
        let mut head: Vec<u8> = Vec::new();
        head.push(45);
        head.push(arg[1]);
        proof {
            assert(letters[0] == arg@[1]);
            assert(head@ =~= seq![45u8, letters[0]]);
            assert(spec_dashed(letters).subrange(1, k as int) =~= spec_dashed(
                letters,
            ).drop_first());
            assert(queue_view(items@) =~= spec_dashed(letters).drop_first() + (if tail_g.len()
                > 0 {
                seq![tail_g]
            } else {
                Seq::<Seq<u8>>::empty()
            }) + q.drop_first());
        }
        Some(head)
    } else {
        Some(arg)
    }
}

/// Take the front of the queue without expansion: how option arguments
/// are consumed.
fn pop_front(items: &mut Vec<Vec<u8>>) -> (r: Option<Vec<u8>>)
    ensures
        match r {
            Some(v) => {
                &&& queue_view(old(items)@).len() > 0
                &&& v@ == queue_view(old(items)@)[0]
                &&& queue_view(final(items)@) == queue_view(old(items)@).drop_first()
            },
            None => queue_view(old(items)@).len() == 0 && final(items)@ == old(items)@,
        },
{
    let ghost q = queue_view(items@);
    if items.len() == 0 {
        return None;
    }
    let v = items.pop().unwrap();
    proof {
        assert(v@ == q[0]);
        assert(queue_view(items@) =~= q.drop_first());
    }
    Some(v)
}

/// Append a canonical option and its argument values to a keyword list.
fn push_kw(list: &mut Vec<Vec<u8>>, canon: Vec<u8>, vals: &Vec<Vec<u8>>)
    ensures
        final(list).deep_view() == old(list).deep_view() + seq![canon@] + vals.deep_view(),
{
    let ghost base = list.deep_view();
    let ghost cv = canon@;
    list.push(canon);
    proof {
        assert(vals.deep_view().take(0) =~= Seq::<Seq<u8>>::empty());
        assert(list.deep_view() =~~= base + seq![cv] + vals.deep_view().take(0));
    }
    let n: usize = vals.len();
    let mut i: usize = 0;
    while i < n
        invariant
            0 <= i <= n,
            n == vals.deep_view().len(),
            list.deep_view() == base + seq![cv] + vals.deep_view().take(i as int),
        decreases n - i,
    {
        let ghost lb = list.deep_view();
        proof {
            assert(vals[i as int]@ == vals.deep_view()[i as int]);
        }
        list.push(crate::bytes::clone_bytes(&vals[i]));
        proof {
            assert(list.deep_view() =~~= lb.push(vals.deep_view()[i as int]));
            assert(lb.push(vals.deep_view()[i as int]) =~= base + seq![cv]
                + vals.deep_view().take(i + 1));
        }
        i += 1;
    }
    proof {
        assert(vals.deep_view().take(n as int) =~= vals.deep_view());
    }
}

/// Append argument values to a list.
fn extend_kw(list: &mut Vec<Vec<u8>>, vals: &Vec<Vec<u8>>)
    ensures
        final(list).deep_view() == old(list).deep_view() + vals.deep_view(),
{
    let ghost base = list.deep_view();
    proof {
        assert(vals.deep_view().take(0) =~= Seq::<Seq<u8>>::empty());
        assert(list.deep_view() =~= base + vals.deep_view().take(0));
    }
    let n: usize = vals.len();
    let mut i: usize = 0;
    while i < n
        invariant
            0 <= i <= n,
            n == vals.deep_view().len(),
            list.deep_view() == base + vals.deep_view().take(i as int),
        decreases n - i,
    {
        let ghost lb = list.deep_view();
        proof {
            assert(vals[i as int]@ == vals.deep_view()[i as int]);
        }
        list.push(crate::bytes::clone_bytes(&vals[i]));
        proof {
            assert(list.deep_view() =~~= lb.push(vals.deep_view()[i as int]));
            assert(lb.push(vals.deep_view()[i as int]) =~= base + vals.deep_view().take(i + 1));
        }
        i += 1;
    }
    proof {
        assert(vals.deep_view().take(n as int) =~= vals.deep_view());
    }
}

impl Args {
    /// Parse a command line the way the underlying tool reads it.  A
    /// `--version` request and the parse errors come back as values; the
    /// caller reports them.
    #[verifier::rlimit(100)]
    pub fn parse(args: Vec<Vec<u8>>, in_shebang: bool) -> (r: Result<Args, ParseError>)
        ensures
            match r {
                Ok(a) => spec_parse_args(args.deep_view(), in_shebang) == ParseResultModel::Parsed(
                    a.model(),
                ),
                Err(e) => match e {
                    ParseError::Version => spec_parse_args(args.deep_view(), in_shebang)
                        == ParseResultModel::Version,
                    ParseError::WrapMisplaced => spec_parse_args(args.deep_view(), in_shebang)
                        == ParseResultModel::WrapMisplaced,
                    ParseError::MissingArgument(f) => spec_parse_args(args.deep_view(), in_shebang)
                        == ParseResultModel::MissingArgument(f@),
                    ParseError::UnexpectedFlag(f) => spec_parse_args(args.deep_view(), in_shebang)
                        == ParseResultModel::UnexpectedFlag(f@),
                },
            },
    {
        proof {
            reveal_strlit("bash");
        }
        let ghost av = args.deep_view();
        let mut rev = args;
        let mut items: Vec<Vec<u8>> = Vec::new();
        proof {
            assert(rev.deep_view() =~= av.take(rev@.len() as int));
            assert(queue_view(items@) =~= av.skip(rev@.len() as int));
        }
        while rev.len() > 0
            invariant
                rev@.len() <= av.len(),
                rev.deep_view() == av.take(rev@.len() as int),
                queue_view(items@) == av.skip(rev@.len() as int),
            decreases rev@.len(),
        {
            let ghost before = queue_view(items@);
            let ghost rl = rev@.len() as int;
            let v = rev.pop().unwrap();
            proof {
                assert(rev.deep_view() =~= av.take(rl - 1));
                assert(v@ == av.take(rl)[rl - 1]);
                assert(av.take(rl)[rl - 1] == av[rl - 1]);
            }
            items.push(v);
            proof {
                assert(queue_view(items@) =~= seq![av[rl - 1]] + before);
                assert(seq![av[rl - 1]] + av.skip(rl) =~= av.skip(rl - 1));
            }
        }
        proof {
            assert(av.take(0) =~= Seq::<Seq<u8>>::empty());
            assert(av.skip(0) =~= av);
            assert(queue_view(items@) == av);
        }
        let mut res = Args {
            packages_or_expr: false,
            pure_mode: false,
            interpreter: lit_bytes("bash"),
            run: RunMode::InteractiveShell,
            keep: Vec::new(),
            rest: Vec::new(),
            other_kw: Vec::new(),
            weak_kw: Vec::new(),
            include_nix_path: Vec::new(),
        };
        proof {
            assert(res.model() =~~= spec_args_init());
        }
        loop
            invariant
                av == args.deep_view(),
                spec_parse(queue_view(items@), in_shebang, res.model()) == spec_parse_args(
                    av,
                    in_shebang,
                ),
            decreases queue_exp_weight(queue_view(items@)), queue_view(items@).len(),
        {
            let ghost q = queue_view(items@);
            let ghost m = res.model();
            let ghost step = spec_parse(q, in_shebang, m);
            let arg = match get_next_arg(&mut items) {
                None => {
                    proof {
                        assert(step == ParseResultModel::Parsed(m));
                    }
                    return Ok(res);
                },
                Some(a) => a,
            };
            let ghost q1 = queue_view(items@);
            proof {
                lemma_next_arg_decreases(q);
                reveal_strlit("--pure");
                reveal_strlit("--impure");
                reveal_strlit("-p");
                reveal_strlit("--packages");
                reveal_strlit("-E");
                reveal_strlit("--expr");
                reveal_strlit("-i");
                reveal_strlit("--run");
                reveal_strlit("--command");
                reveal_strlit("--exec");
                reveal_strlit("--keep");
                reveal_strlit("--version");
                reveal_strlit("--wrap");
                reveal_strlit("-I");
            }
            match lookup_option(&arg) {
                Some((weak, argc, canon)) => {
                    let ghost gargc = argc as int;
                    let mut vals: Vec<Vec<u8>> = Vec::new();
                    let mut missing = false;
                    proof {
                        assert(vals.deep_view() =~= q1.take(0));
                        assert(queue_view(items@) =~= q1.skip(0));
                    }
                    if argc >= 1 {
                        match pop_front(&mut items) {
                            Some(v) => {
                                proof {
                                    assert(v@ == q1[0]);
                                    assert(queue_view(items@) =~= q1.skip(1));
                                }
                                vals.push(v);
                                proof {
                                    assert(vals.deep_view() =~~= q1.take(1));
                                }
                            },
                            None => {
                                missing = true;
                            },
                        }
                    }
                    if !missing && argc >= 2 {
                        match pop_front(&mut items) {
                            Some(v) => {
                                proof {
                                    assert(v@ == q1.skip(1)[0]);
                                    assert(q1.skip(1)[0] == q1[1]);
                                    assert(q1.skip(1).drop_first() =~= q1.skip(2));
                                }
                                vals.push(v);
                                proof {
                                    assert(vals.deep_view() =~~= q1.take(2));
                                }
                            },
                            None => {
                                missing = true;
                            },
                        }
                    }
                    if missing {
                        proof {
                            assert(q1.len() < gargc);
                            assert(step == ParseResultModel::MissingArgument(arg@));
                        }
                        return Err(ParseError::MissingArgument(arg));
                    }
                    proof {
                        assert(q1.len() >= gargc);
                        assert(vals.deep_view() == q1.take(gargc));
                        assert(queue_view(items@) == q1.skip(gargc));
                    }
                    let is_include = crate::lit::bytes_is(canon.as_slice(), "-I");
                    let ghost cv = canon@;
                    if weak {
                        push_kw(&mut res.weak_kw, canon, &vals);
                    } else {
                        push_kw(&mut res.other_kw, canon, &vals);
                    }
                    if is_include {
                        extend_kw(&mut res.include_nix_path, &vals);
                    }
                    proof {
                        let vals_s = q1.take(gargc);
                        let acc2 = if weak {
                            ArgsModel { weak_kw: m.weak_kw + seq![cv] + vals_s, ..m }
                        } else {
                            ArgsModel { other_kw: m.other_kw + seq![cv] + vals_s, ..m }
                        };
                        let acc3 = if cv == lit("-I") {
                            ArgsModel { include_nix_path: acc2.include_nix_path + vals_s, ..acc2 }
                        } else {
                            acc2
                        };
                        assert(res.model() =~~= acc3);
                        assert(step == spec_parse(q1.skip(gargc), in_shebang, acc3));
                        lemma_exp_weight_skip(q1, gargc);
                    }
                },
                None => {
                    let s = arg.as_slice();
                    if crate::lit::bytes_is(s, "--pure") {
                        res.pure_mode = true;
                        proof {
                            assert(res.model() =~~= (ArgsModel { pure_mode: true, ..m }));
                            assert(step == spec_parse(q1, in_shebang, res.model()));
                        }
                    } else if crate::lit::bytes_is(s, "--impure") {
                        res.pure_mode = false;
                        proof {
                            assert(res.model() =~~= (ArgsModel { pure_mode: false, ..m }));
                            assert(step == spec_parse(q1, in_shebang, res.model()));
                        }
                    } else if crate::lit::bytes_is(s, "-p") || crate::lit::bytes_is(
                        s,
                        "--packages",
                    ) || crate::lit::bytes_is(s, "-E") || crate::lit::bytes_is(s, "--expr") {
                        res.packages_or_expr = true;
                        let ghost ob = res.other_kw.deep_view();
                        let ghost ga = arg@;
                        res.other_kw.push(arg);
                        proof {
                            assert(res.other_kw.deep_view() =~~= ob.push(ga));
                            assert(res.model() =~~= (ArgsModel {
                                packages_or_expr: true,
                                other_kw: m.other_kw.push(ga),
                                ..m
                            }));
                            assert(step == spec_parse(q1, in_shebang, res.model()));
                        }
                    } else if in_shebang && crate::lit::bytes_is(s, "-i") {
                        match pop_front(&mut items) {
                            Some(v) => {
                                res.interpreter = v;
                                proof {
                                    assert(q1.drop_first() =~= q1.skip(1));
                                    lemma_exp_weight_skip(q1, 1);
                                    assert(res.model() =~~= (ArgsModel {
                                        interpreter: q1[0],
                                        ..m
                                    }));
                                    assert(step == spec_parse(
                                        q1.drop_first(),
                                        in_shebang,
                                        res.model(),
                                    ));
                                }
                            },
                            None => {
                                proof {
                                    assert(step == ParseResultModel::MissingArgument(arg@));
                                }
                                return Err(ParseError::MissingArgument(arg));
                            },
                        }
                    } else if !in_shebang && (crate::lit::bytes_is(s, "--run")
                        || crate::lit::bytes_is(s, "--command")) {
                        match pop_front(&mut items) {
                            Some(v) => {
                                res.run = RunMode::Shell(v);
                                proof {
                                    assert(q1.drop_first() =~= q1.skip(1));
                                    lemma_exp_weight_skip(q1, 1);
                                    assert(res.model() =~~= (ArgsModel {
                                        run: RunModeModel::Shell(q1[0]),
                                        ..m
                                    }));
                                    assert(step == spec_parse(
                                        q1.drop_first(),
                                        in_shebang,
                                        res.model(),
                                    ));
                                }
                            },
                            None => {
                                proof {
                                    assert(step == ParseResultModel::MissingArgument(arg@));
                                }
                                return Err(ParseError::MissingArgument(arg));
                            },
                        }
                    } else if !in_shebang && crate::lit::bytes_is(s, "--exec") {
                        match pop_front(&mut items) {
                            Some(cmd) => {
                                let ghost q2 = queue_view(items@);
                                let ghost gcmd = cmd@;
                                let mut cmd_args: Vec<Vec<u8>> = Vec::new();
                                proof {
                                    assert(cmd_args.deep_view() + q2 =~= q2);
                                }
                                while items.len() > 0
                                    invariant
                                        cmd_args.deep_view() + queue_view(items@) == q2,
                                    decreases items@.len(),
                                {
                                    let ghost cb = cmd_args.deep_view();
                                    let ghost qq = queue_view(items@);
                                    proof {
                                        assert(qq.len() == items@.len());
                                    }
                                    let v = pop_front(&mut items).unwrap();
                                    cmd_args.push(v);
                                    proof {
                                        assert(cmd_args.deep_view() =~~= cb.push(qq[0]));
                                        assert(cb.push(qq[0]) + qq.drop_first() =~= cb + qq);
                                    }
                                }
                                proof {
                                    assert(queue_view(items@).len() == 0);
                                    assert(cmd_args.deep_view() + queue_view(items@)
                                        =~= cmd_args.deep_view());
                                    assert(cmd_args.deep_view() =~= q2);
                                }
                                res.run = RunMode::Exec(cmd, cmd_args);
                                proof {
                                    assert(q1.drop_first() =~= q2);
                                    assert(res.model() =~~= (ArgsModel {
                                        run: RunModeModel::Exec(q1[0], q1.drop_first()),
                                        ..m
                                    }));
                                    assert(step == ParseResultModel::Parsed(res.model()));
                                }
                                return Ok(res);
                            },
                            None => {
                                proof {
                                    assert(step == ParseResultModel::MissingArgument(arg@));
                                }
                                return Err(ParseError::MissingArgument(arg));
                            },
                        }
                    } else if crate::lit::bytes_is(s, "--keep") {
                        match pop_front(&mut items) {
                            Some(v) => {
                                let ghost kb = res.keep.deep_view();
                                res.keep.push(v);
                                proof {
                                    assert(q1.drop_first() =~= q1.skip(1));
                                    lemma_exp_weight_skip(q1, 1);
                                    assert(res.keep.deep_view() =~~= kb.push(q1[0]));
                                    assert(res.model() =~~= (ArgsModel {
                                        keep: m.keep.push(q1[0]),
                                        ..m
                                    }));
                                    assert(step == spec_parse(
                                        q1.drop_first(),
                                        in_shebang,
                                        res.model(),
                                    ));
                                }
                            },
                            None => {
                                proof {
                                    assert(step == ParseResultModel::MissingArgument(arg@));
                                }
                                return Err(ParseError::MissingArgument(arg));
                            },
                        }
                    } else if crate::lit::bytes_is(s, "--version") {
                        proof {
                            assert(step == ParseResultModel::Version);
                        }
                        return Err(ParseError::Version);
                    } else if !in_shebang && crate::lit::bytes_is(s, "--wrap") {
                        proof {
                            assert(step == ParseResultModel::WrapMisplaced);
                        }
                        return Err(ParseError::WrapMisplaced);
                    } else if arg.len() > 0 && arg[0] == 45 {
                        proof {
                            assert(step == ParseResultModel::UnexpectedFlag(arg@));
                        }
                        return Err(ParseError::UnexpectedFlag(arg));
                    } else {
                        let ghost rb = res.rest.deep_view();
                        let ghost ga = arg@;
                        res.rest.push(arg);
                        proof {
                            assert(res.rest.deep_view() =~~= rb.push(ga));
                            assert(res.model() =~~= (ArgsModel { rest: m.rest.push(ga), ..m }));
                            assert(step == spec_parse(q1, in_shebang, res.model()));
                        }
                    }
                },
            }
        }
    }
}

} // verus!
