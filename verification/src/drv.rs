//! Resolving the derivation path behind a materialised environment: the
//! JSON that `nix show-derivation` prints is keyed by the `.drv` store
//! path, and a failed first attempt is retried once with the newer
//! command-line dialect.

use vstd::prelude::*;

verus! {

/// The first key of the top-level JSON object in a `nix show-derivation`
/// output, if the bytes parse as such an object with at least one key.
pub uninterp spec fn show_derivation_drv_path(out: Seq<u8>) -> Option<Seq<u8>>;

/// Relies on `serde_json::from_slice`, `serde_json::Value::as_object` and
/// `serde_json::Map::iter`: whether the bytes parse, and which key comes
/// first (the map iterates in sorted key order), depend on the bytes
/// alone.
#[verifier::external_body]
fn parse_drv_path(stdout: &Vec<u8>) -> (r: Option<Vec<u8>>)
    ensures
        match r {
            Some(v) => show_derivation_drv_path(stdout@) == Some(v@),
            None => show_derivation_drv_path(stdout@) is None,
        },
{
    let value: serde_json::Value = match serde_json::from_slice(stdout.as_slice()) {
        Ok(v) => v,
        Err(_) => return None,
    };
    let object = match value.as_object() {
        Some(o) => o,
        None => return None,
    };
    match object.iter().next() {
        Some((key, _)) => Some(key.as_bytes().to_vec()),
        None => None,
    }
}

/// What to do with one `nix show-derivation` attempt.
pub enum DrvStep {
    /// The derivation path was found: store it.
    Use(Vec<u8>),
    /// The command failed; run it once more with
    /// `--extra-experimental-features nix-command`.
    Retry,
    /// Both dialects failed, or the output held no object key: give up.
    Fail,
}

/// Decide from one `nix show-derivation` attempt: a successful run whose
/// output is an object yields its first key (the derivation path); a
/// failed first attempt is retried with the newer dialect; anything else
/// fails.
pub fn drv_decision(attempt_success: bool, stdout: &Vec<u8>, already_retried: bool) -> (r: DrvStep)
    ensures
        attempt_success ==> match show_derivation_drv_path(stdout@) {
            Some(p) => r matches DrvStep::Use(v) && v@ == p,
            None => r is Fail,
        },
        !attempt_success && !already_retried ==> r is Retry,
        !attempt_success && already_retried ==> r is Fail,
{
    if attempt_success {
        match parse_drv_path(stdout) {
            Some(p) => DrvStep::Use(p),
            None => DrvStep::Fail,
        }
    } else if !already_retried {
        DrvStep::Retry
    } else {
        DrvStep::Fail
    }
}

/// One output of a derivation: its name and its store path.  (The hash
/// algorithm and hash fields are validated but not kept.)
pub struct DrvOutput {
    pub name: Vec<u8>,
    pub path: Vec<u8>,
}

/// One input derivation: its `.drv` path and the outputs required of it.
pub struct DrvInput {
    pub path: Vec<u8>,
    pub outputs: Vec<Vec<u8>>,
}

/// A parsed derivation file, reduced to what the input check reads.
pub struct Derivation {
    pub outputs: Vec<DrvOutput>,
    pub input_drvs: Vec<DrvInput>,
}

/// The outputs as pairs of byte sequences.
pub open spec fn outputs_view(v: Seq<DrvOutput>) -> Seq<(Seq<u8>, Seq<u8>)> {
    Seq::new(v.len(), |i: int| (v[i].name@, v[i].path@))
}

/// The input derivations as pairs of path and output-name list.
pub open spec fn inputs_view(v: Seq<DrvInput>) -> Seq<(Seq<u8>, Seq<Seq<u8>>)> {
    Seq::new(v.len(), |i: int| (v[i].path@, v[i].outputs.deep_view()))
}

/// A quoted string of the derivation grammar, read from position `p`:
/// `"…"` with the escapes `\\`, `\"` and `\n`.  Yields the decoded bytes
/// and the position after the closing quote.
pub open spec fn spec_drv_string(s: Seq<u8>, p: int) -> Option<(Seq<u8>, int)> {
    if 0 <= p < s.len() && s[p] == 34 {
        spec_drv_string_body(s, p + 1, Seq::empty())
    } else {
        None
    }
}

/// The body of a quoted string, with the bytes decoded so far.
pub open spec fn spec_drv_string_body(s: Seq<u8>, p: int, acc: Seq<u8>) -> Option<(Seq<u8>, int)>
    decreases s.len() - p,
    when 0 <= p
{
    if p >= s.len() {
        None
    } else if s[p] == 34 {
        Some((acc, p + 1))
    } else if s[p] == 92 {
        if p + 1 >= s.len() {
            None
        } else if s[p + 1] == 92 {
            spec_drv_string_body(s, p + 2, acc.push(92))
        } else if s[p + 1] == 34 {
            spec_drv_string_body(s, p + 2, acc.push(34))
        } else if s[p + 1] == 110 {
            spec_drv_string_body(s, p + 2, acc.push(10))
        } else {
            None
        }
    } else {
        spec_drv_string_body(s, p + 1, acc.push(s[p]))
    }
}

/// A successful string parse moves the position forward, past at least
/// the two quotes, and never past the end.
pub proof fn lemma_drv_string_advances(s: Seq<u8>, p: int)
    ensures
        spec_drv_string(s, p) matches Some(r) ==> p + 2 <= r.1 <= s.len(),
    decreases s.len() - p,
{
    if 0 <= p < s.len() && s[p] == 34 {
        lemma_drv_string_body_advances(s, p + 1, Seq::empty());
    }
}

/// The body parse, likewise.
pub proof fn lemma_drv_string_body_advances(s: Seq<u8>, p: int, acc: Seq<u8>)
    requires
        0 <= p,
    ensures
        spec_drv_string_body(s, p, acc) matches Some(r) ==> p + 1 <= r.1 <= s.len(),
    decreases s.len() - p,
{
    if p >= s.len() {
    } else if s[p] == 34 {
    } else if s[p] == 92 {
        if p + 1 < s.len() {
            if s[p + 1] == 92 {
                lemma_drv_string_body_advances(s, p + 2, acc.push(92));
            } else if s[p + 1] == 34 {
                lemma_drv_string_body_advances(s, p + 2, acc.push(34));
            } else if s[p + 1] == 110 {
                lemma_drv_string_body_advances(s, p + 2, acc.push(10));
            }
        }
    } else {
        lemma_drv_string_body_advances(s, p + 1, acc.push(s[p]));
    }
}

/// A `[…]` list of quoted strings.
pub open spec fn spec_drv_string_list(s: Seq<u8>, p: int) -> Option<(Seq<Seq<u8>>, int)> {
    if 0 <= p < s.len() && s[p] == 91 {
        match spec_drv_string(s, p + 1) {
            Some(first) => spec_drv_string_list_rest(s, first.1, seq![first.0]),
            None => if p + 1 < s.len() && s[p + 1] == 93 {
                Some((Seq::empty(), p + 2))
            } else {
                None
            },
        }
    } else {
        None
    }
}

/// The remainder of a string list: `,` and another string, or `]`.
pub open spec fn spec_drv_string_list_rest(s: Seq<u8>, p: int, acc: Seq<Seq<u8>>) -> Option<
    (Seq<Seq<u8>>, int),
>
    decreases s.len() - p,
    when 0 <= p
    via spec_drv_string_list_rest_decreases
{
    if p < s.len() && s[p] == 44 {
        match spec_drv_string(s, p + 1) {
            Some(next) => spec_drv_string_list_rest(s, next.1, acc.push(next.0)),
            None => None,
        }
    } else if p < s.len() && s[p] == 93 {
        Some((acc, p + 1))
    } else {
        None
    }
}

#[via_fn]
proof fn spec_drv_string_list_rest_decreases(s: Seq<u8>, p: int, acc: Seq<Seq<u8>>) {
    if p < s.len() && s[p] == 44 {
        lemma_drv_string_advances(s, p + 1);
    }
}

/// A successful string-list parse moves forward and stays in bounds.
pub proof fn lemma_drv_string_list_advances(s: Seq<u8>, p: int)
    ensures
        spec_drv_string_list(s, p) matches Some(r) ==> p + 2 <= r.1 <= s.len(),
{
    if 0 <= p < s.len() && s[p] == 91 {
        lemma_drv_string_advances(s, p + 1);
        match spec_drv_string(s, p + 1) {
            Some(first) => {
                lemma_drv_string_list_rest_advances(s, first.1, seq![first.0]);
            },
            None => {},
        }
    }
}

/// The list remainder, likewise.
pub proof fn lemma_drv_string_list_rest_advances(s: Seq<u8>, p: int, acc: Seq<Seq<u8>>)
    requires
        0 <= p,
    ensures
        spec_drv_string_list_rest(s, p, acc) matches Some(r) ==> p + 1 <= r.1 <= s.len(),
    decreases s.len() - p,
{
    if p < s.len() && s[p] == 44 {
        lemma_drv_string_advances(s, p + 1);
        match spec_drv_string(s, p + 1) {
            Some(next) => {
                lemma_drv_string_list_rest_advances(s, next.1, acc.push(next.0));
            },
            None => {},
        }
    }
}

/// One output entry: `("name","path","hashAlgo","hash")`.  The name and
/// path are kept; the hash fields are only validated.
pub open spec fn spec_drv_output(s: Seq<u8>, p: int) -> Option<((Seq<u8>, Seq<u8>), int)> {
    if 0 <= p < s.len() && s[p] == 40 {
        match spec_drv_string(s, p + 1) {
            Some(name) => if name.1 < s.len() && s[name.1] == 44 {
                match spec_drv_string(s, name.1 + 1) {
                    Some(path) => if path.1 < s.len() && s[path.1] == 44 {
                        match spec_drv_string(s, path.1 + 1) {
                            Some(algo) => if algo.1 < s.len() && s[algo.1] == 44 {
                                match spec_drv_string(s, algo.1 + 1) {
                                    Some(hash) => if hash.1 < s.len() && s[hash.1] == 41 {
                                        Some(((name.0, path.0), hash.1 + 1))
                                    } else {
                                        None
                                    },
                                    None => None,
                                }
                            } else {
                                None
                            },
                            None => None,
                        }
                    } else {
                        None
                    },
                    None => None,
                }
            } else {
                None
            },
            None => None,
        }
    } else {
        None
    }
}

/// One input entry: `("path",["out1",…])`.
pub open spec fn spec_drv_input(s: Seq<u8>, p: int) -> Option<((Seq<u8>, Seq<Seq<u8>>), int)> {
    if 0 <= p < s.len() && s[p] == 40 {
        match spec_drv_string(s, p + 1) {
            Some(path) => if path.1 < s.len() && s[path.1] == 44 {
                match spec_drv_string_list(s, path.1 + 1) {
                    Some(outs) => if outs.1 < s.len() && s[outs.1] == 41 {
                        Some(((path.0, outs.0), outs.1 + 1))
                    } else {
                        None
                    },
                    None => None,
                }
            } else {
                None
            },
            None => None,
        }
    } else {
        None
    }
}

/// One environment entry: `("key","value")`, validated and discarded.
pub open spec fn spec_drv_env_pair(s: Seq<u8>, p: int) -> Option<int> {
    if 0 <= p < s.len() && s[p] == 40 {
        match spec_drv_string(s, p + 1) {
            Some(k) => if k.1 < s.len() && s[k.1] == 44 {
                match spec_drv_string(s, k.1 + 1) {
                    Some(v) => if v.1 < s.len() && s[v.1] == 41 {
                        Some(v.1 + 1)
                    } else {
                        None
                    },
                    None => None,
                }
            } else {
                None
            },
            None => None,
        }
    } else {
        None
    }
}

/// Every entry parse moves forward and stays in bounds.
pub proof fn lemma_drv_entries_advance(s: Seq<u8>, p: int)
    ensures
        spec_drv_output(s, p) matches Some(r) ==> p < r.1 <= s.len(),
        spec_drv_input(s, p) matches Some(r) ==> p < r.1 <= s.len(),
        spec_drv_env_pair(s, p) matches Some(q) ==> p < q <= s.len(),
{
    if 0 <= p < s.len() && s[p] == 40 {
        lemma_drv_string_advances(s, p + 1);
        match spec_drv_string(s, p + 1) {
            Some(a) => {
                lemma_drv_string_advances(s, a.1 + 1);
                lemma_drv_string_list_advances(s, a.1 + 1);
                match spec_drv_string(s, a.1 + 1) {
                    Some(b) => {
                        lemma_drv_string_advances(s, b.1 + 1);
                        match spec_drv_string(s, b.1 + 1) {
                            Some(c) => {
                                lemma_drv_string_advances(s, c.1 + 1);
                            },
                            None => {},
                        }
                    },
                    None => {},
                }
            },
            None => {},
        }
    }
}

/// A `[…]` list of output entries.
pub open spec fn spec_drv_output_list(s: Seq<u8>, p: int) -> Option<
    (Seq<(Seq<u8>, Seq<u8>)>, int),
> {
    if 0 <= p < s.len() && s[p] == 91 {
        match spec_drv_output(s, p + 1) {
            Some(first) => spec_drv_output_list_rest(s, first.1, seq![first.0]),
            None => if p + 1 < s.len() && s[p + 1] == 93 {
                Some((Seq::empty(), p + 2))
            } else {
                None
            },
        }
    } else {
        None
    }
}

/// The remainder of an output list.
pub open spec fn spec_drv_output_list_rest(
    s: Seq<u8>,
    p: int,
    acc: Seq<(Seq<u8>, Seq<u8>)>,
) -> Option<(Seq<(Seq<u8>, Seq<u8>)>, int)>
    decreases s.len() - p,
    when 0 <= p
    via spec_drv_output_list_rest_decreases
{
    if p < s.len() && s[p] == 44 {
        match spec_drv_output(s, p + 1) {
            Some(next) => spec_drv_output_list_rest(s, next.1, acc.push(next.0)),
            None => None,
        }
    } else if p < s.len() && s[p] == 93 {
        Some((acc, p + 1))
    } else {
        None
    }
}

#[via_fn]
proof fn spec_drv_output_list_rest_decreases(s: Seq<u8>, p: int, acc: Seq<(Seq<u8>, Seq<u8>)>) {
    if p < s.len() && s[p] == 44 {
        lemma_drv_entries_advance(s, p + 1);
    }
}

/// A `[…]` list of input entries.
pub open spec fn spec_drv_input_list(s: Seq<u8>, p: int) -> Option<
    (Seq<(Seq<u8>, Seq<Seq<u8>>)>, int),
> {
    if 0 <= p < s.len() && s[p] == 91 {
        match spec_drv_input(s, p + 1) {
            Some(first) => spec_drv_input_list_rest(s, first.1, seq![first.0]),
            None => if p + 1 < s.len() && s[p + 1] == 93 {
                Some((Seq::empty(), p + 2))
            } else {
                None
            },
        }
    } else {
        None
    }
}

/// The remainder of an input list.
pub open spec fn spec_drv_input_list_rest(
    s: Seq<u8>,
    p: int,
    acc: Seq<(Seq<u8>, Seq<Seq<u8>>)>,
) -> Option<(Seq<(Seq<u8>, Seq<Seq<u8>>)>, int)>
    decreases s.len() - p,
    when 0 <= p
    via spec_drv_input_list_rest_decreases
{
    if p < s.len() && s[p] == 44 {
        match spec_drv_input(s, p + 1) {
            Some(next) => spec_drv_input_list_rest(s, next.1, acc.push(next.0)),
            None => None,
        }
    } else if p < s.len() && s[p] == 93 {
        Some((acc, p + 1))
    } else {
        None
    }
}

#[via_fn]
proof fn spec_drv_input_list_rest_decreases(
    s: Seq<u8>,
    p: int,
    acc: Seq<(Seq<u8>, Seq<Seq<u8>>)>,
) {
    if p < s.len() && s[p] == 44 {
        lemma_drv_entries_advance(s, p + 1);
    }
}

/// A `[…]` list of environment entries, validated and discarded.
pub open spec fn spec_drv_env_list(s: Seq<u8>, p: int) -> Option<int> {
    if 0 <= p < s.len() && s[p] == 91 {
        match spec_drv_env_pair(s, p + 1) {
            Some(first) => spec_drv_env_list_rest(s, first),
            None => if p + 1 < s.len() && s[p + 1] == 93 {
                Some(p + 2)
            } else {
                None
            },
        }
    } else {
        None
    }
}

/// The remainder of an environment list.
pub open spec fn spec_drv_env_list_rest(s: Seq<u8>, p: int) -> Option<int>
    decreases s.len() - p,
    when 0 <= p
    via spec_drv_env_list_rest_decreases
{
    if p < s.len() && s[p] == 44 {
        match spec_drv_env_pair(s, p + 1) {
            Some(next) => spec_drv_env_list_rest(s, next),
            None => None,
        }
    } else if p < s.len() && s[p] == 93 {
        Some(p + 1)
    } else {
        None
    }
}

#[via_fn]
proof fn spec_drv_env_list_rest_decreases(s: Seq<u8>, p: int) {
    if p < s.len() && s[p] == 44 {
        lemma_drv_entries_advance(s, p + 1);
    }
}

/// A whole derivation file:
/// `Derive([outputs],[inputs],[srcs],"platform","builder",[args],[env])`
/// with nothing after the closing parenthesis.  Yields the outputs and
/// the input derivations; the other components are validated only.
pub open spec fn spec_parse_derivation(s: Seq<u8>) -> Option<
    (Seq<(Seq<u8>, Seq<u8>)>, Seq<(Seq<u8>, Seq<Seq<u8>>)>),
> {
    if !crate::bytes::spec_starts_with(s, crate::lit::lit("Derive(")) {
        None
    } else {
        match spec_drv_output_list(s, 7) {
            Some(outs) => if outs.1 < s.len() && s[outs.1] == 44 {
                match spec_drv_input_list(s, outs.1 + 1) {
                    Some(ins) => if ins.1 < s.len() && s[ins.1] == 44 {
                        match spec_drv_string_list(s, ins.1 + 1) {
                            Some(srcs) => if srcs.1 < s.len() && s[srcs.1] == 44 {
                                match spec_drv_string(s, srcs.1 + 1) {
                                    Some(platform) => if platform.1 < s.len() && s[platform.1]
                                        == 44 {
                                        match spec_drv_string(s, platform.1 + 1) {
                                            Some(builder) => if builder.1 < s.len() && s[builder.1]
                                                == 44 {
                                                match spec_drv_string_list(s, builder.1 + 1) {
                                                    Some(bargs) => if bargs.1 < s.len()
                                                        && s[bargs.1] == 44 {
                                                        match spec_drv_env_list(s, bargs.1 + 1) {
                                                            Some(envp) => if envp < s.len()
                                                                && s[envp] == 41 && envp + 1
                                                                == s.len() {
                                                                Some((outs.0, ins.0))
                                                            } else {
                                                                None
                                                            },
                                                            None => None,
                                                        }
                                                    } else {
                                                        None
                                                    },
                                                    None => None,
                                                }
                                            } else {
                                                None
                                            },
                                            None => None,
                                        }
                                    } else {
                                        None
                                    },
                                    None => None,
                                }
                            } else {
                                None
                            },
                            None => None,
                        }
                    } else {
                        None
                    },
                    None => None,
                }
            } else {
                None
            },
            None => None,
        }
    }
}

/// Read one quoted string.
fn parse_drv_string(s: &[u8], p: usize) -> (r: Option<(Vec<u8>, usize)>)
    ensures
        match r {
            Some(t) => spec_drv_string(s@, p as int) == Some((t.0@, t.1 as int)) && p + 2 <= t.1
                <= s@.len(),
            None => spec_drv_string(s@, p as int) is None,
        },
{
    proof {
        lemma_drv_string_advances(s@, p as int);
    }
    let n: usize = s.len();
    if !(p < n && s[p] == 34) {
        return None;
    }
    let mut acc: Vec<u8> = Vec::new();
    let mut q: usize = p + 1;
    proof {
        assert(acc@ =~= Seq::<u8>::empty());
    }
    loop
        invariant
            p + 1 <= q <= n,
            n == s@.len(),
            p < n && s@[p as int] == 34,
            spec_drv_string_body(s@, q as int, acc@) == spec_drv_string_body(
                s@,
                p + 1,
                Seq::empty(),
            ),
        decreases n - q,
    {
        if q >= n {
            return None;
        }
        let c = s[q];
        if c == 34 {
            proof {
                lemma_drv_string_body_advances(s@, p + 1, Seq::empty());
            }
            return Some((acc, q + 1));
        }
        if c == 92 {
            if q + 1 >= n {
                return None;
            }
            let d = s[q + 1];
            if d == 92 {
                acc.push(92);
            } else if d == 34 {
                acc.push(34);
            } else if d == 110 {
                acc.push(10);
            } else {
                return None;
            }
            q += 2;
        } else {
            acc.push(c);
            q += 1;
        }
    }
}

/// Read a `[…]` list of quoted strings.
fn parse_drv_string_list(s: &[u8], p: usize) -> (r: Option<(Vec<Vec<u8>>, usize)>)
    ensures
        match r {
            Some(t) => spec_drv_string_list(s@, p as int) == Some((t.0.deep_view(), t.1 as int))
                && p + 2 <= t.1 <= s@.len(),
            None => spec_drv_string_list(s@, p as int) is None,
        },
{
    proof {
        lemma_drv_string_list_advances(s@, p as int);
    }
    let n: usize = s.len();
    if !(p < n && s[p] == 91) {
        return None;
    }
    match parse_drv_string(s, p + 1) {
        None => {
            if p + 1 < n && s[p + 1] == 93 {
                let empty: Vec<Vec<u8>> = Vec::new();
                proof {
                    assert(empty.deep_view() =~= Seq::<Seq<u8>>::empty());
                }
                Some((empty, p + 2))
            } else {
                None
            }
        },
        Some((first, p1)) => {
            let ghost fv = first@;
            let mut acc: Vec<Vec<u8>> = Vec::new();
            acc.push(first);
            let mut q: usize = p1;
            proof {
                assert(acc.deep_view() =~~= seq![fv]);
            }
            loop
                invariant
                    0 <= q <= n,
                    p + 1 <= q,
                    n == s@.len(),
                    p < n && s@[p as int] == 91,
                    spec_drv_string(s@, p + 1) == Some((fv, p1 as int)),
                    spec_drv_string_list_rest(s@, q as int, acc.deep_view())
                        == spec_drv_string_list_rest(s@, p1 as int, seq![fv]),
                decreases n - q,
            {
                let ghost av = acc.deep_view();
                if q < n && s[q] == 44 {
                    match parse_drv_string(s, q + 1) {
                        Some((v, p2)) => {
                            let ghost vv = v@;
                            acc.push(v);
                            proof {
                                assert(acc.deep_view() =~~= av.push(vv));
                            }
                            q = p2;
                        },
                        None => {
                            return None;
                        },
                    }
                } else if q < n && s[q] == 93 {
                    proof {
                        lemma_drv_string_list_rest_advances(s@, p1 as int, seq![fv]);
                    }
                    return Some((acc, q + 1));
                } else {
                    return None;
                }
            }
        },
    }
}

/// Read one output entry, keeping its name and path.
fn parse_drv_output(s: &[u8], p: usize) -> (r: Option<(Vec<u8>, Vec<u8>, usize)>)
    ensures
        match r {
            Some(t) => spec_drv_output(s@, p as int) == Some(((t.0@, t.1@), t.2 as int)) && p
                < t.2 <= s@.len(),
            None => spec_drv_output(s@, p as int) is None,
        },
{
    proof {
        lemma_drv_entries_advance(s@, p as int);
    }
    let n: usize = s.len();
    if !(p < n && s[p] == 40) {
        return None;
    }
    let (name, p1) = match parse_drv_string(s, p + 1) {
        Some(t) => t,
        None => return None,
    };
    if !(p1 < n && s[p1] == 44) {
        return None;
    }
    let (path, p2) = match parse_drv_string(s, p1 + 1) {
        Some(t) => t,
        None => return None,
    };
    if !(p2 < n && s[p2] == 44) {
        return None;
    }
    let p3 = match parse_drv_string(s, p2 + 1) {
        Some(t) => t.1,
        None => return None,
    };
    if !(p3 < n && s[p3] == 44) {
        return None;
    }
    let p4 = match parse_drv_string(s, p3 + 1) {
        Some(t) => t.1,
        None => return None,
    };
    if !(p4 < n && s[p4] == 41) {
        return None;
    }
    Some((name, path, p4 + 1))
}

/// Read one input entry, keeping its path and output names.
fn parse_drv_input(s: &[u8], p: usize) -> (r: Option<(Vec<u8>, Vec<Vec<u8>>, usize)>)
    ensures
        match r {
            Some(t) => spec_drv_input(s@, p as int) == Some(((t.0@, t.1.deep_view()), t.2 as int))
                && p < t.2 <= s@.len(),
            None => spec_drv_input(s@, p as int) is None,
        },
{
    proof {
        lemma_drv_entries_advance(s@, p as int);
    }
    let n: usize = s.len();
    if !(p < n && s[p] == 40) {
        return None;
    }
    let (path, p1) = match parse_drv_string(s, p + 1) {
        Some(t) => t,
        None => return None,
    };
    if !(p1 < n && s[p1] == 44) {
        return None;
    }
    let (outs, p2) = match parse_drv_string_list(s, p1 + 1) {
        Some(t) => t,
        None => return None,
    };
    if !(p2 < n && s[p2] == 41) {
        return None;
    }
    Some((path, outs, p2 + 1))
}

/// Read one environment entry, discarding it.
fn parse_drv_env_pair(s: &[u8], p: usize) -> (r: Option<usize>)
    ensures
        match r {
            Some(q) => spec_drv_env_pair(s@, p as int) == Some(q as int) && p < q <= s@.len(),
            None => spec_drv_env_pair(s@, p as int) is None,
        },
{
    proof {
        lemma_drv_entries_advance(s@, p as int);
    }
    let n: usize = s.len();
    if !(p < n && s[p] == 40) {
        return None;
    }
    let p1 = match parse_drv_string(s, p + 1) {
        Some(t) => t.1,
        None => return None,
    };
    if !(p1 < n && s[p1] == 44) {
        return None;
    }
    let p2 = match parse_drv_string(s, p1 + 1) {
        Some(t) => t.1,
        None => return None,
    };
    if !(p2 < n && s[p2] == 41) {
        return None;
    }
    Some(p2 + 1)
}

/// Read a `[…]` list of output entries.
fn parse_drv_output_list(s: &[u8], p: usize) -> (r: Option<(Vec<DrvOutput>, usize)>)
    ensures
        match r {
            Some(t) => spec_drv_output_list(s@, p as int) == Some((outputs_view(t.0@), t.1 as int))
                && t.1 <= s@.len(),
            None => spec_drv_output_list(s@, p as int) is None,
        },
{
    let n: usize = s.len();
    if !(p < n && s[p] == 91) {
        return None;
    }
    match parse_drv_output(s, p + 1) {
        None => {
            if p + 1 < n && s[p + 1] == 93 {
                let empty: Vec<DrvOutput> = Vec::new();
                proof {
                    assert(outputs_view(empty@) =~= Seq::<(Seq<u8>, Seq<u8>)>::empty());
                }
                Some((empty, p + 2))
            } else {
                None
            }
        },
        Some((name0, path0, p1)) => {
            let ghost f = (name0@, path0@);
            let mut acc: Vec<DrvOutput> = Vec::new();
            acc.push(DrvOutput { name: name0, path: path0 });
            let mut q: usize = p1;
            proof {
                assert(outputs_view(acc@) =~= seq![f]);
            }
            loop
                invariant
                    0 <= q <= n,
                    n == s@.len(),
                    p < n && s@[p as int] == 91,
                    spec_drv_output(s@, p + 1) == Some((f, p1 as int)),
                    spec_drv_output_list_rest(s@, q as int, outputs_view(acc@))
                        == spec_drv_output_list_rest(s@, p1 as int, seq![f]),
                decreases n - q,
            {
                let ghost av = outputs_view(acc@);
                if q < n && s[q] == 44 {
                    match parse_drv_output(s, q + 1) {
                        Some((nm, pt, p2)) => {
                            let ghost e = (nm@, pt@);
                            acc.push(DrvOutput { name: nm, path: pt });
                            proof {
                                assert(outputs_view(acc@) =~= av.push(e));
                            }
                            q = p2;
                        },
                        None => {
                            return None;
                        },
                    }
                } else if q < n && s[q] == 93 {
                    return Some((acc, q + 1));
                } else {
                    return None;
                }
            }
        },
    }
}

/// Read a `[…]` list of input entries.
fn parse_drv_input_list(s: &[u8], p: usize) -> (r: Option<(Vec<DrvInput>, usize)>)
    ensures
        match r {
            Some(t) => spec_drv_input_list(s@, p as int) == Some((inputs_view(t.0@), t.1 as int))
                && t.1 <= s@.len(),
            None => spec_drv_input_list(s@, p as int) is None,
        },
{
    let n: usize = s.len();
    if !(p < n && s[p] == 91) {
        return None;
    }
    match parse_drv_input(s, p + 1) {
        None => {
            if p + 1 < n && s[p + 1] == 93 {
                let empty: Vec<DrvInput> = Vec::new();
                proof {
                    assert(inputs_view(empty@) =~= Seq::<(Seq<u8>, Seq<Seq<u8>>)>::empty());
                }
                Some((empty, p + 2))
            } else {
                None
            }
        },
        Some((path0, outs0, p1)) => {
            let ghost f = (path0@, outs0.deep_view());
            let mut acc: Vec<DrvInput> = Vec::new();
            acc.push(DrvInput { path: path0, outputs: outs0 });
            let mut q: usize = p1;
            proof {
                assert(inputs_view(acc@) =~= seq![f]);
            }
            loop
                invariant
                    0 <= q <= n,
                    n == s@.len(),
                    p < n && s@[p as int] == 91,
                    spec_drv_input(s@, p + 1) == Some((f, p1 as int)),
                    spec_drv_input_list_rest(s@, q as int, inputs_view(acc@))
                        == spec_drv_input_list_rest(s@, p1 as int, seq![f]),
                decreases n - q,
            {
                let ghost av = inputs_view(acc@);
                if q < n && s[q] == 44 {
                    match parse_drv_input(s, q + 1) {
                        Some((pt, os, p2)) => {
                            let ghost e = (pt@, os.deep_view());
                            acc.push(DrvInput { path: pt, outputs: os });
                            proof {
                                assert(inputs_view(acc@) =~= av.push(e));
                            }
                            q = p2;
                        },
                        None => {
                            return None;
                        },
                    }
                } else if q < n && s[q] == 93 {
                    return Some((acc, q + 1));
                } else {
                    return None;
                }
            }
        },
    }
}

/// Read a `[…]` list of environment entries, discarding them.
fn parse_drv_env_list(s: &[u8], p: usize) -> (r: Option<usize>)
    ensures
        match r {
            Some(q) => spec_drv_env_list(s@, p as int) == Some(q as int) && q <= s@.len(),
            None => spec_drv_env_list(s@, p as int) is None,
        },
{
    let n: usize = s.len();
    if !(p < n && s[p] == 91) {
        return None;
    }
    match parse_drv_env_pair(s, p + 1) {
        None => {
            if p + 1 < n && s[p + 1] == 93 {
                Some(p + 2)
            } else {
                None
            }
        },
        Some(p1) => {
            let mut q: usize = p1;
            loop
                invariant
                    0 <= q <= n,
                    n == s@.len(),
                    p < n && s@[p as int] == 91,
                    spec_drv_env_pair(s@, p + 1) == Some(p1 as int),
                    spec_drv_env_list_rest(s@, q as int) == spec_drv_env_list_rest(s@, p1 as int),
                decreases n - q,
            {
                if q < n && s[q] == 44 {
                    match parse_drv_env_pair(s, q + 1) {
                        Some(p2) => {
                            q = p2;
                        },
                        None => {
                            return None;
                        },
                    }
                } else if q < n && s[q] == 93 {
                    return Some(q + 1);
                } else {
                    return None;
                }
            }
        },
    }
}

/// Parse a derivation file.
pub fn parse_derivation(data: &[u8]) -> (r: Option<Derivation>)
    ensures
        match r {
            Some(d) => spec_parse_derivation(data@) == Some(
                (outputs_view(d.outputs@), inputs_view(d.input_drvs@)),
            ),
            None => spec_parse_derivation(data@) is None,
        },
{
    proof {
        reveal_strlit("Derive(");
    }
    if !crate::lit::bytes_starts_with_lit(data, "Derive(") {
        return None;
    }
    proof {
        assert(crate::lit::lit("Derive(").len() == 7);
    }
    let n: usize = data.len();
    let (outputs, p1) = match parse_drv_output_list(data, 7) {
        Some(t) => t,
        None => return None,
    };
    if !(p1 < n && data[p1] == 44) {
        return None;
    }
    let (input_drvs, p2) = match parse_drv_input_list(data, p1 + 1) {
        Some(t) => t,
        None => return None,
    };
    if !(p2 < n && data[p2] == 44) {
        return None;
    }
    let p3 = match parse_drv_string_list(data, p2 + 1) {
        Some(t) => t.1,
        None => return None,
    };
    if !(p3 < n && data[p3] == 44) {
        return None;
    }
    let p4 = match parse_drv_string(data, p3 + 1) {
        Some(t) => t.1,
        None => return None,
    };
    if !(p4 < n && data[p4] == 44) {
        return None;
    }
    let p5 = match parse_drv_string(data, p4 + 1) {
        Some(t) => t.1,
        None => return None,
    };
    if !(p5 < n && data[p5] == 44) {
        return None;
    }
    let p6 = match parse_drv_string_list(data, p5 + 1) {
        Some(t) => t.1,
        None => return None,
    };
    if !(p6 < n && data[p6] == 44) {
        return None;
    }
    let p7 = match parse_drv_env_list(data, p6 + 1) {
        Some(t) => t,
        None => return None,
    };
    if !(p7 < n && data[p7] == 41 && p7 + 1 == n) {
        return None;
    }
    Some(Derivation { outputs, input_drvs })
}

/// The store path of the named output, if the derivation has it: the
/// first output whose name matches.
pub open spec fn spec_find_output(outs: Seq<(Seq<u8>, Seq<u8>)>, name: Seq<u8>) -> Option<Seq<u8>>
    decreases outs.len(),
{
    if outs.len() == 0 {
        None
    } else if outs[0].0 == name {
        Some(outs[0].1)
    } else {
        spec_find_output(outs.drop_first(), name)
    }
}

/// The paths the named outputs resolve to, or the first name that no
/// output of the derivation carries.
pub open spec fn spec_required_paths(
    outs: Seq<(Seq<u8>, Seq<u8>)>,
    wanted: Seq<Seq<u8>>,
    i: int,
) -> Result<Seq<Seq<u8>>, Seq<u8>>
    decreases wanted.len() - i,
    when i >= 0
{
    if i >= wanted.len() {
        Ok(Seq::empty())
    } else {
        match spec_find_output(outs, wanted[i]) {
            None => Err(wanted[i]),
            Some(p) => match spec_required_paths(outs, wanted, i + 1) {
                Ok(rest) => Ok(seq![p] + rest),
                Err(e) => Err(e),
            },
        }
    }
}

/// Look one output name up.
fn find_output(drv: &Derivation, name: &Vec<u8>) -> (r: Option<Vec<u8>>)
    ensures
        match r {
            Some(p) => spec_find_output(outputs_view(drv.outputs@), name@) == Some(p@),
            None => spec_find_output(outputs_view(drv.outputs@), name@) is None,
        },
{
    let ghost ov = outputs_view(drv.outputs@);
    let n: usize = drv.outputs.len();
    let mut i: usize = 0;
    proof {
        assert(ov.skip(0) =~= ov);
    }
    while i < n
        invariant
            0 <= i <= n,
            n == ov.len(),
            ov == outputs_view(drv.outputs@),
            spec_find_output(ov.skip(i as int), name@) == spec_find_output(ov, name@),
        decreases n - i,
    {
        let ghost suf = ov.skip(i as int);
        proof {
            assert(suf[0] == ov[i as int]);
            assert(suf.drop_first() =~= ov.skip(i + 1));
        }
        if crate::bytes::bytes_eq(&drv.outputs[i].name, name) {
            return Some(crate::bytes::clone_bytes(&drv.outputs[i].path));
        }
        i += 1;
    }
    proof {
        assert(ov.skip(n as int) =~= Seq::<(Seq<u8>, Seq<u8>)>::empty());
    }
    None
}

/// Resolve the store paths of the wanted outputs of a parsed input
/// derivation; the caller then checks that each exists on disk.  An
/// unknown output name comes back as the error, as the input check
/// reports it.
pub fn required_output_paths(drv: &Derivation, wanted: &Vec<Vec<u8>>) -> (r: Result<
    Vec<Vec<u8>>,
    Vec<u8>,
>)
    ensures
        match r {
            Ok(paths) => spec_required_paths(outputs_view(drv.outputs@), wanted.deep_view(), 0)
                == Ok::<Seq<Seq<u8>>, Seq<u8>>(paths.deep_view()),
            Err(name) => spec_required_paths(outputs_view(drv.outputs@), wanted.deep_view(), 0)
                == Err::<Seq<Seq<u8>>, Seq<u8>>(name@),
        },
{
    let ghost ov = outputs_view(drv.outputs@);
    let ghost wv = wanted.deep_view();
    let mut paths: Vec<Vec<u8>> = Vec::new();
    let n: usize = wanted.len();
    let mut i: usize = 0;
    proof {
        assert(paths.deep_view() =~= Seq::<Seq<u8>>::empty());
    }
    while i < n
        invariant
            0 <= i <= n,
            n == wv.len(),
            wv == wanted.deep_view(),
            ov == outputs_view(drv.outputs@),
            forall|j: int| 0 <= j < i ==> spec_find_output(ov, #[trigger] wv[j]) is Some,
            (match spec_required_paths(ov, wv, i as int) {
                Ok(rest) => spec_required_paths(ov, wv, 0) == Ok::<Seq<Seq<u8>>, Seq<u8>>(
                    paths.deep_view() + rest,
                ),
                Err(e) => spec_required_paths(ov, wv, 0) == Err::<Seq<Seq<u8>>, Seq<u8>>(e),
            }),
        decreases n - i,
    {
        proof {
            assert(wanted[i as int]@ == wv[i as int]);
        }
        match find_output(drv, &wanted[i]) {
            Some(p) => {
                let ghost pb = paths.deep_view();
                let ghost pv = p@;
                paths.push(p);
                proof {
                    assert(paths.deep_view() =~~= pb.push(pv));
                    match spec_required_paths(ov, wv, i + 1) {
                        Ok(rest) => {
                            assert(pb.push(pv) + rest =~= pb + (seq![pv] + rest));
                        },
                        Err(_) => {},
                    }
                }
            },
            None => {
                return Err(crate::bytes::clone_bytes(&wanted[i]));
            },
        }
        i += 1;
    }
    proof {
        assert(paths.deep_view() + Seq::<Seq<u8>>::empty() =~= paths.deep_view());
    }
    Ok(paths)
}

} // verus!
