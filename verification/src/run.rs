//! The invocation driver's decisions: what to hand to `nix-shell`, where
//! to run it, with which exit status to leave, and what to `exec` in the
//! end.  Everything here computes from plain values; the caller performs
//! the process work.

use vstd::prelude::*;
use crate::args::Args;
use crate::bytemap::{spec_get, spec_insert, ByteMap};
use crate::env::EnvMap;
use crate::fingerprint::spec_fingerprint;
use crate::lit::{bytes_is, lit, lit_bytes};
use crate::nix_path::spec_is_uri;
use crate::path_clean::{spec_path_clean, PathClean};

verus! {

/// The inputs that decide a cache entry: working directory, normalised
/// environment and strong arguments enter the fingerprint; the weak
/// arguments are only forwarded to the traced `nix-shell`.
pub struct NixShellInput {
    pub pwd: Vec<u8>,
    pub env: EnvMap,
    pub args: Vec<Vec<u8>>,
    pub weak_args: Vec<Vec<u8>>,
}

/// The fingerprint of a set of inputs.
pub open spec fn spec_input_fingerprint(inp: &NixShellInput) -> Seq<u8> {
    spec_fingerprint(inp.env.pairs(), inp.args.deep_view(), inp.pwd@)
}

/// The cache key is deterministic in the environment, the strong
/// arguments and the working directory, and does not depend on the weak
/// arguments: two inputs equal but for their weak arguments share it.
pub proof fn lemma_fingerprint_ignores_weak(a: &NixShellInput, b: &NixShellInput)
    requires
        a.env.pairs() == b.env.pairs(),
        a.args.deep_view() == b.args.deep_view(),
        a.pwd@ == b.pwd@,
    ensures
        spec_input_fingerprint(a) == spec_input_fingerprint(b),
{
}

/// Compute the cache key of an input set.
pub fn input_fingerprint(inp: &NixShellInput) -> (r: Vec<u8>)
    ensures
        r@ == spec_input_fingerprint(inp),
        r@.len() == 64,
{
    crate::fingerprint::fingerprint(&inp.env, &inp.args, &inp.pwd)
}

/// The exit status this tool leaves with when the traced `nix-shell`
/// fails: its own exit code; `128 + signal` when a signal killed it; 255
/// when neither is known.
pub open spec fn spec_nix_shell_exit_code(code: Option<i32>, signal: Option<i32>) -> int {
    match code {
        Some(c) => c as int,
        None => match signal {
            Some(s) => 128 + s as int,
            None => 255,
        },
    }
}

/// Map the traced child's wait status to this tool's exit code.
pub fn nix_shell_exit_code(code: Option<i32>, signal: Option<i32>) -> (r: i32)
    requires
        signal matches Some(s) ==> 0 <= s < 128,
    ensures
        r as int == spec_nix_shell_exit_code(code, signal),
{
    match code {
        Some(c) => c,
        None => match signal {
            Some(s) => 128 + s,
            None => 255,
        },
    }
}

/// The directory part of a path: up to the last `/` (the root when the
/// only `/` leads it), empty when there is none.
pub open spec fn spec_dirname(p: Seq<u8>) -> Seq<u8> {
    let al = crate::bytes::spec_after_last(p, 47);
    if al == 0 {
        Seq::empty()
    } else if al == 1 {
        seq![47u8]
    } else {
        p.take(al - 1)
    }
}

/// The file part of a path: after the last `/`, the whole path when
/// there is none.
pub open spec fn spec_basename(p: Seq<u8>) -> Seq<u8> {
    p.skip(crate::bytes::spec_after_last(p, 47))
}

/// The directory part of a path.
pub fn dirname(p: &Vec<u8>) -> (r: Vec<u8>)
    ensures
        r@ == spec_dirname(p@),
{
    proof {
        crate::bytes::lemma_after_last(p@, 47);
    }
    let al = crate::bytes::after_last_byte(p.as_slice(), 47, 0, p.len());
    proof {
        assert(p@.subrange(0, p@.len() as int) =~= p@);
    }
    if al == 0 {
        let r: Vec<u8> = Vec::new();
        proof {
            assert(r@ =~= spec_dirname(p@));
        }
        r
    } else if al == 1 {
        let mut r: Vec<u8> = Vec::new();
        r.push(47);
        proof {
            assert(r@ =~= seq![47u8]);
        }
        r
    } else {
        let r = vstd::slice::slice_to_vec(vstd::slice::slice_subrange(p.as_slice(), 0, al - 1));
        proof {
            assert(r@ =~= p@.take(al - 1));
        }
        r
    }
}

/// The file part of a path.
pub fn basename(p: &Vec<u8>) -> (r: Vec<u8>)
    ensures
        r@ == spec_basename(p@),
{
    proof {
        crate::bytes::lemma_after_last(p@, 47);
    }
    let al = crate::bytes::after_last_byte(p.as_slice(), 47, 0, p.len());
    proof {
        assert(p@.subrange(0, p@.len() as int) =~= p@);
    }
    let r = vstd::slice::slice_to_vec(vstd::slice::slice_subrange(p.as_slice(), al, p.len()));
    proof {
        assert(r@ =~= p@.skip(crate::bytes::spec_after_last(p@, 47)));
    }
    r
}

/// A path made absolute against `cwd` and cleaned, without resolving
/// symlinks.
pub open spec fn spec_absolute(p: Seq<u8>, cwd: Seq<u8>) -> Seq<u8> {
    if p.len() > 0 && p[0] == 47 {
        p
    } else {
        spec_path_clean(cwd + seq![47u8] + p)
    }
}

/// Make a path absolute against `cwd`, cleaning but not resolving
/// symlinks.
pub fn absolute(p: &Vec<u8>, cwd: &Vec<u8>) -> (r: Vec<u8>)
    ensures
        r@ == spec_absolute(p@, cwd@),
{
    if p.len() > 0 && p[0] == 47 {
        crate::bytes::clone_bytes(p)
    } else {
        let mut joined = crate::bytes::clone_bytes(cwd);
        joined.push(47);
        crate::bytes::push_all(&mut joined, p.as_slice());
        proof {
            assert(joined@ =~= cwd@ + seq![47u8] + p@);
        }
        joined.clean()
    }
}

/// Where `nix-shell` must be run, replicating the underlying tool's
/// rules: a relative search path pins the current directory; `-p`/`-E`
/// run from the empty sentinel directory; a single positional argument
/// decides by its shape; everything else keeps the current directory.
/// The returned pair is the working directory and the rewritten
/// positional arguments.
pub open spec fn spec_normalize_pwd(
    rest: Seq<Seq<u8>>,
    packages_or_expr: bool,
    has_relative: bool,
    arg_is_dir: bool,
    cwd: Seq<u8>,
    var_empty: Seq<u8>,
) -> (Seq<u8>, Seq<Seq<u8>>) {
    if has_relative {
        (cwd, rest)
    } else if packages_or_expr {
        (var_empty, rest)
    } else if rest.len() == 1 {
        let arg = rest[0];
        if arg.len() == 0 {
            (cwd, rest)
        } else if (arg[0] == 60 && arg.last() == 62) || spec_is_uri(arg) {
            (var_empty, rest)
        } else if arg.last() == 47 || arg_is_dir {
            (spec_absolute(arg, cwd), rest.update(0, lit(".")))
        } else {
            (
                spec_absolute(spec_dirname(arg), cwd),
                rest.update(0, lit("./") + spec_basename(arg)),
            )
        }
    } else {
        (cwd, rest)
    }
}

/// Normalise the working directory, rewriting the positional argument
/// where the underlying tool would.  `arg_is_dir` says whether the
/// single positional argument names a directory on disk; it is read only
/// in that case.
pub fn normalize_pwd(
    rest: &mut Vec<Vec<u8>>,
    packages_or_expr: bool,
    has_relative: bool,
    arg_is_dir: bool,
    cwd: &Vec<u8>,
    var_empty: &Vec<u8>,
) -> (pwd: Vec<u8>)
    ensures
        (pwd@, final(rest).deep_view()) == spec_normalize_pwd(
            old(rest).deep_view(),
            packages_or_expr,
            has_relative,
            arg_is_dir,
            cwd@,
            var_empty@,
        ),
{
    proof {
        reveal_strlit(".");
        reveal_strlit("./");
    }
    let ghost rv = rest.deep_view();
    if has_relative {
        return crate::bytes::clone_bytes(cwd);
    }
    if packages_or_expr {
        return crate::bytes::clone_bytes(var_empty);
    }
    if rest.len() == 1 {
        proof {
            assert(rest[0]@ == rv[0]);
        }
        if rest[0].len() == 0 {
            return crate::bytes::clone_bytes(cwd);
        }
        let first = rest[0].as_slice();
        let is_bracketed = first[0] == 60 && first[first.len() - 1] == 62;
        if is_bracketed || crate::nix_path::is_uri(first) {
            return crate::bytes::clone_bytes(var_empty);
        }
        let ends_slash = first[first.len() - 1] == 47;
        if ends_slash || arg_is_dir {
            let pwd = absolute(&rest[0], cwd);
            let dot = lit_bytes(".");
            let _ = rest.remove(0);
            rest.insert(0, dot);
            proof {
                assert(rest.deep_view() =~~= rv.update(0, lit(".")));
            }
            return pwd;
        }
        let dir = dirname(&rest[0]);
        let base = basename(&rest[0]);
        let pwd = absolute(&dir, cwd);
        let mut newarg = lit_bytes("./");
        crate::bytes::push_all(&mut newarg, base.as_slice());
        proof {
            assert(newarg@ =~= lit("./") + spec_basename(rv[0]));
        }
        let _ = rest.remove(0);
        rest.insert(0, newarg);
        proof {
            assert(rest.deep_view() =~~= rv.update(0, lit("./") + spec_basename(rv[0])));
        }
        return pwd;
    }
    crate::bytes::clone_bytes(cwd)
}

/// How a shebang interpreter is started: a literal bash string is
/// executed directly with the script and its arguments; anything else
/// goes through `bash -c 'exec <interp> "$@"'`.
pub enum ScriptExec {
    Direct(Vec<u8>),
    ViaBash(Vec<u8>),
}

/// The `bash -c` string for a non-literal interpreter.
pub open spec fn spec_bash_exec_string(interp: Seq<u8>) -> Seq<u8> {
    lit("exec ") + interp + lit(" \"$@\"")
}

/// Decide how the shebang interpreter is executed.
pub fn script_exec_plan(interpreter: &Vec<u8>) -> (r: ScriptExec)
    ensures
        crate::bash::spec_is_literal_bash_string(interpreter@) ==> (r matches ScriptExec::Direct(
            i,
        ) && i@ == interpreter@),
        !crate::bash::spec_is_literal_bash_string(interpreter@) ==> (r matches ScriptExec::ViaBash(
            s,
        ) && s@ == spec_bash_exec_string(interpreter@)),
{
    proof {
        reveal_strlit("exec ");
        reveal_strlit(" \"$@\"");
    }
    if crate::bash::is_literal_bash_string(interpreter.as_slice()) {
        ScriptExec::Direct(crate::bytes::clone_bytes(interpreter))
    } else {
        let mut s = lit_bytes("exec ");
        crate::bytes::push_all(&mut s, interpreter.as_slice());
        crate::bytes::push_all(&mut s, lit_bytes(" \"$@\"").as_slice());
        proof {
            assert(s@ =~= spec_bash_exec_string(interpreter@));
        }
        ScriptExec::ViaBash(s)
    }
}

/// The bash options that are safe to replay from a cached environment.
pub open spec fn spec_safe_bashopt(o: Seq<u8>) -> bool {
    o == lit("execfail") || o == lit("inherit_errexit") || o == lit("nullglob")
}

/// The `-O`/`-o` arguments rebuilt from the preserved `BASHOPTS` and
/// `SHELLOPTS` values: `-O <opt>` for every safe colon-separated entry
/// of the former, `-o pipefail` when the latter lists it.
pub open spec fn spec_bash_opts_args(bashopts: Seq<u8>, shellopts: Seq<u8>) -> Seq<Seq<u8>> {
    spec_opt_args(crate::bytes::spec_split(bashopts, 58), 0, lit("-O")) + spec_shellopt_args(
        crate::bytes::spec_split(shellopts, 58),
        0,
    )
}

/// `-O <opt>` for each safe option from index `i` on.
pub open spec fn spec_opt_args(opts: Seq<Seq<u8>>, i: int, flag: Seq<u8>) -> Seq<Seq<u8>>
    decreases opts.len() - i,
    when i >= 0
{
    if i >= opts.len() {
        Seq::empty()
    } else {
        (if spec_safe_bashopt(opts[i]) {
            seq![flag, opts[i]]
        } else {
            Seq::<Seq<u8>>::empty()
        }) + spec_opt_args(opts, i + 1, flag)
    }
}

/// `-o pipefail` for each `pipefail` entry from index `i` on.
pub open spec fn spec_shellopt_args(opts: Seq<Seq<u8>>, i: int) -> Seq<Seq<u8>>
    decreases opts.len() - i,
    when i >= 0
{
    if i >= opts.len() {
        Seq::empty()
    } else {
        (if opts[i] == lit("pipefail") {
            seq![lit("-o"), opts[i]]
        } else {
            Seq::<Seq<u8>>::empty()
        }) + spec_shellopt_args(opts, i + 1)
    }
}

/// Rebuild the applicable `-O` and `-o` bash arguments from the
/// preserved option strings.
pub fn bash_opts_args(bashopts: &Vec<u8>, shellopts: &Vec<u8>) -> (r: Vec<Vec<u8>>)
    ensures
        r.deep_view() == spec_bash_opts_args(bashopts@, shellopts@),
{
    proof {
        reveal_strlit("execfail");
        reveal_strlit("inherit_errexit");
        reveal_strlit("nullglob");
        reveal_strlit("pipefail");
        reveal_strlit("-O");
        reveal_strlit("-o");
    }
    let bopts = crate::bytes::split_bytes(bashopts.as_slice(), 58);
    let sopts = crate::bytes::split_bytes(shellopts.as_slice(), 58);
    let ghost bv = bopts.deep_view();
    let ghost sv = sopts.deep_view();
    let mut out: Vec<Vec<u8>> = Vec::new();
    proof {
        assert(out.deep_view() =~= Seq::<Seq<u8>>::empty());
        assert(Seq::<Seq<u8>>::empty() + spec_opt_args(bv, 0, lit("-O")) =~= spec_opt_args(
            bv,
            0,
            lit("-O"),
        ));
    }
    let mut i: usize = 0;
    while i < bopts.len()
        invariant
            0 <= i <= bopts.len(),
            bv == bopts.deep_view(),
            out.deep_view() + spec_opt_args(bv, i as int, lit("-O")) == spec_opt_args(
                bv,
                0,
                lit("-O"),
            ),
        decreases bopts.len() - i,
    {
        proof {
            reveal_strlit("execfail");
            reveal_strlit("inherit_errexit");
            reveal_strlit("nullglob");
            reveal_strlit("-O");
            assert(bopts[i as int]@ == bv[i as int]);
        }
        let o = bopts[i].as_slice();
        if bytes_is(o, "execfail") || bytes_is(o, "inherit_errexit") || bytes_is(o, "nullglob") {
            let ghost ob = out.deep_view();
            out.push(lit_bytes("-O"));
            out.push(crate::bytes::clone_bytes(&bopts[i]));
            proof {
                assert(out.deep_view() =~~= ob + seq![lit("-O"), bv[i as int]]);
                assert((ob + seq![lit("-O"), bv[i as int]]) + spec_opt_args(bv, i + 1, lit("-O"))
                    =~= ob + (seq![lit("-O"), bv[i as int]] + spec_opt_args(bv, i + 1, lit("-O"))));
            }
        } else {
            proof {
                assert(Seq::<Seq<u8>>::empty() + spec_opt_args(bv, i + 1, lit("-O"))
                    =~= spec_opt_args(bv, i + 1, lit("-O")));
            }
        }
        i += 1;
    }
    proof {
        assert(spec_opt_args(bv, bv.len() as int, lit("-O")) == Seq::<Seq<u8>>::empty());
        assert(out.deep_view() + Seq::<Seq<u8>>::empty() =~= out.deep_view());
        assert(out.deep_view() == spec_opt_args(bv, 0, lit("-O")));
        assert(out.deep_view() + spec_shellopt_args(sv, 0) =~= spec_opt_args(bv, 0, lit("-O"))
            + spec_shellopt_args(sv, 0));
    }
    let ghost mid = out.deep_view();
    let mut j: usize = 0;
    while j < sopts.len()
        invariant
            0 <= j <= sopts.len(),
            sv == sopts.deep_view(),
            mid == spec_opt_args(bv, 0, lit("-O")),
            out.deep_view() + spec_shellopt_args(sv, j as int) == mid + spec_shellopt_args(sv, 0),
        decreases sopts.len() - j,
    {
        proof {
            reveal_strlit("pipefail");
            reveal_strlit("-o");
            assert(sopts[j as int]@ == sv[j as int]);
        }
        let o = sopts[j].as_slice();
        if bytes_is(o, "pipefail") {
            let ghost ob = out.deep_view();
            out.push(lit_bytes("-o"));
            out.push(crate::bytes::clone_bytes(&sopts[j]));
            proof {
                assert(out.deep_view() =~~= ob + seq![lit("-o"), sv[j as int]]);
                assert((ob + seq![lit("-o"), sv[j as int]]) + spec_shellopt_args(sv, j + 1) =~= ob
                    + (seq![lit("-o"), sv[j as int]] + spec_shellopt_args(sv, j + 1)));
            }
        } else {
            proof {
                assert(Seq::<Seq<u8>>::empty() + spec_shellopt_args(sv, j + 1)
                    =~= spec_shellopt_args(sv, j + 1));
            }
        }
        j += 1;
    }
    proof {
        assert(spec_shellopt_args(sv, sv.len() as int) == Seq::<Seq<u8>>::empty());
        assert(out.deep_view() + Seq::<Seq<u8>>::empty() =~= out.deep_view());
    }
    out
}

/// The `PATH` entries (colon-separated, order kept, first occurrence
/// kept) that appear in the allowed list, joined back with `:`.  This is
/// the minimal essential `PATH` handed to the traced `nix-shell`; the
/// caller supplies in `allowed` the directories in which it found the
/// required binaries.
pub open spec fn spec_minimal_path(entries: Seq<Seq<u8>>, i: int, seen: Seq<Seq<u8>>, allowed: Seq<Seq<u8>>) -> Seq<Seq<u8>>
    decreases entries.len() - i,
    when i >= 0
{
    if i >= entries.len() {
        Seq::empty()
    } else {
        let keep = (exists|a: int| 0 <= a < allowed.len() && allowed[a] == entries[i]) && !(
        exists|s: int| 0 <= s < seen.len() && seen[s] == entries[i]);
        (if keep {
            seq![entries[i]]
        } else {
            Seq::<Seq<u8>>::empty()
        }) + spec_minimal_path(entries, i + 1, if keep {
            seen.push(entries[i])
        } else {
            seen
        }, allowed)
    }
}

/// The environment variables handed to `nix-shell --pure`: a change to
/// any of them invalidates the cache.
pub open spec fn spec_env_whitelist() -> Seq<Seq<u8>> {
    seq![
        lit("HOME"),
        lit("NIX_PATH"),
        lit("TMPDIR"),
        lit("XDG_RUNTIME_DIR"),
        lit("CURL_CA_BUNDLE"),
        lit("GIT_SSL_CAINFO"),
        lit("NIX_SSL_CERT_FILE"),
        lit("SSL_CERT_FILE"),
        lit("http_proxy"),
        lit("https_proxy"),
        lit("ftp_proxy"),
        lit("all_proxy"),
        lit("no_proxy"),
    ]
}

/// The named ambient variables present in `amb`, inserted into `acc` in
/// list order.
pub open spec fn spec_env_from_names(
    acc: Seq<(Seq<u8>, Seq<u8>)>,
    amb: Seq<(Seq<u8>, Seq<u8>)>,
    names: Seq<Seq<u8>>,
    i: int,
) -> Seq<(Seq<u8>, Seq<u8>)>
    decreases names.len() - i,
    when i >= 0
{
    if i >= names.len() {
        acc
    } else {
        match spec_get(amb, names[i]) {
            Some(v) => spec_env_from_names(spec_insert(acc, names[i], v), amb, names, i + 1),
            None => spec_env_from_names(acc, amb, names, i + 1),
        }
    }
}

/// The `--keep VAR` argument pairs for the kept variables present in the
/// ambient environment, in `--keep` order.
pub open spec fn spec_keep_args(
    amb: Seq<(Seq<u8>, Seq<u8>)>,
    keep: Seq<Seq<u8>>,
    i: int,
) -> Seq<Seq<u8>>
    decreases keep.len() - i,
    when i >= 0
{
    if i >= keep.len() {
        Seq::empty()
    } else {
        (match spec_get(amb, keep[i]) {
            Some(_) => seq![lit("--keep"), keep[i]],
            None => Seq::<Seq<u8>>::empty(),
        }) + spec_keep_args(amb, keep, i + 1)
    }
}

/// What the traced `nix-shell` is given: `--pure`, a `--keep` for every
/// kept variable found in the ambient environment, the strong keyword
/// arguments, and the positional arguments after `--`.
pub open spec fn spec_inp_args(x: ArgsModelView, amb: Seq<(Seq<u8>, Seq<u8>)>) -> Seq<Seq<u8>> {
    seq![lit("--pure")] + spec_keep_args(amb, x.keep, 0) + x.other_kw + seq![lit("--")] + x.rest
}

/// The fields of [`Args`] that [`args_to_inp`] reads.
pub struct ArgsModelView {
    pub keep: Seq<Seq<u8>>,
    pub other_kw: Seq<Seq<u8>>,
    pub rest: Seq<Seq<u8>>,
}

/// The normalised environment: the whitelist and the kept variables as
/// found in the ambient environment, and `PATH` reduced to its essential
/// entries.
pub open spec fn spec_inp_env(
    x: ArgsModelView,
    amb: Seq<(Seq<u8>, Seq<u8>)>,
    minimal_path: Seq<u8>,
) -> Seq<(Seq<u8>, Seq<u8>)> {
    spec_insert(
        spec_env_from_names(
            spec_env_from_names(Seq::empty(), amb, spec_env_whitelist(), 0),
            amb,
            x.keep,
            0,
        ),
        lit("PATH"),
        minimal_path,
    )
}

/// Build the traced invocation's inputs from the parsed arguments, the
/// ambient environment and the pre-computed essential `PATH`.
pub fn args_to_inp(pwd: Vec<u8>, x: &Args, ambient: &EnvMap, minimal_path: Vec<u8>) -> (r:
    NixShellInput)
    ensures
        r.pwd@ == pwd@,
        r.weak_args.deep_view() == x.weak_kw.deep_view(),
        r.args.deep_view() == spec_inp_args(
            ArgsModelView {
                keep: x.keep.deep_view(),
                other_kw: x.other_kw.deep_view(),
                rest: x.rest.deep_view(),
            },
            ambient.pairs(),
        ),
        r.env.wf(),
        r.env.pairs() == spec_inp_env(
            ArgsModelView {
                keep: x.keep.deep_view(),
                other_kw: x.other_kw.deep_view(),
                rest: x.rest.deep_view(),
            },
            ambient.pairs(),
            minimal_path@,
        ),
{
    proof {
        reveal_strlit("HOME");
        reveal_strlit("NIX_PATH");
        reveal_strlit("TMPDIR");
        reveal_strlit("XDG_RUNTIME_DIR");
        reveal_strlit("CURL_CA_BUNDLE");
        reveal_strlit("GIT_SSL_CAINFO");
        reveal_strlit("NIX_SSL_CERT_FILE");
        reveal_strlit("SSL_CERT_FILE");
        reveal_strlit("http_proxy");
        reveal_strlit("https_proxy");
        reveal_strlit("ftp_proxy");
        reveal_strlit("all_proxy");
        reveal_strlit("no_proxy");
        reveal_strlit("--pure");
        reveal_strlit("--keep");
        reveal_strlit("--");
        reveal_strlit("PATH");
    }
    let ghost amb = ambient.pairs();
    let mut names: Vec<Vec<u8>> = Vec::new();
    names.push(lit_bytes("HOME"));
    names.push(lit_bytes("NIX_PATH"));
    names.push(lit_bytes("TMPDIR"));
    names.push(lit_bytes("XDG_RUNTIME_DIR"));
    names.push(lit_bytes("CURL_CA_BUNDLE"));
    names.push(lit_bytes("GIT_SSL_CAINFO"));
    names.push(lit_bytes("NIX_SSL_CERT_FILE"));
    names.push(lit_bytes("SSL_CERT_FILE"));
    names.push(lit_bytes("http_proxy"));
    names.push(lit_bytes("https_proxy"));
    names.push(lit_bytes("ftp_proxy"));
    names.push(lit_bytes("all_proxy"));
    names.push(lit_bytes("no_proxy"));
    proof {
        assert(names.deep_view() =~~= spec_env_whitelist());
    }
    let mut env = ByteMap::new();
    let ghost wl = spec_env_from_names(Seq::empty(), amb, spec_env_whitelist(), 0);
    proof {
        assert(env.pairs() =~= Seq::<(Seq<u8>, Seq<u8>)>::empty());
    }
    let mut i: usize = 0;
    while i < names.len()
        invariant
            0 <= i <= names.len(),
            names.deep_view() == spec_env_whitelist(),
            names@.len() == spec_env_whitelist().len(),
            amb == ambient.pairs(),
            env.wf(),
            spec_env_from_names(env.pairs(), amb, spec_env_whitelist(), i as int) == wl,
        decreases names.len() - i,
    {
        proof {
            assert(names[i as int]@ == spec_env_whitelist()[i as int]);
        }
        match ambient.get(&names[i]) {
            Some(v) => {
                let nm = crate::bytes::clone_bytes(&names[i]);
                let vv = crate::bytes::clone_bytes(v);
                env.insert(nm, vv);
            },
            None => {},
        }
        i += 1;
    }
    // `--keep` variables: into the environment and onto the arguments.
    let mut args: Vec<Vec<u8>> = Vec::new();
    args.push(lit_bytes("--pure"));
    let ghost keepv = x.keep.deep_view();
    let ghost args_base = args.deep_view();
    proof {
        assert(args_base =~~= seq![lit("--pure")]);
        assert(args.deep_view() =~= args_base + Seq::<Seq<u8>>::empty());
    }
    let mut k: usize = 0;
    while k < x.keep.len()
        invariant
            0 <= k <= x.keep.len(),
            keepv == x.keep.deep_view(),
            amb == ambient.pairs(),
            env.wf(),
            spec_env_from_names(env.pairs(), amb, keepv, k as int) == spec_env_from_names(
                wl,
                amb,
                keepv,
                0,
            ),
            args_base =~~= seq![lit("--pure")],
            args.deep_view() + spec_keep_args(amb, keepv, k as int) == args_base + spec_keep_args(
                amb,
                keepv,
                0,
            ),
        decreases x.keep.len() - k,
    {
        proof {
            reveal_strlit("--keep");
            assert(x.keep[k as int]@ == keepv[k as int]);
        }
        match ambient.get(&x.keep[k]) {
            Some(v) => {
                let nm = crate::bytes::clone_bytes(&x.keep[k]);
                let vv = crate::bytes::clone_bytes(v);
                env.insert(nm, vv);
                let ghost ab = args.deep_view();
                args.push(lit_bytes("--keep"));
                args.push(crate::bytes::clone_bytes(&x.keep[k]));
                proof {
                    assert(args.deep_view() =~~= ab + seq![lit("--keep"), keepv[k as int]]);
                    assert((ab + seq![lit("--keep"), keepv[k as int]]) + spec_keep_args(
                        amb,
                        keepv,
                        k + 1,
                    ) =~= ab + (seq![lit("--keep"), keepv[k as int]] + spec_keep_args(
                        amb,
                        keepv,
                        k + 1,
                    )));
                }
            },
            None => {
                proof {
                    assert(Seq::<Seq<u8>>::empty() + spec_keep_args(amb, keepv, k + 1)
                        =~= spec_keep_args(amb, keepv, k + 1));
                }
            },
        }
        k += 1;
    }
    proof {
        assert(spec_keep_args(amb, keepv, keepv.len() as int) == Seq::<Seq<u8>>::empty());
        assert(args.deep_view() + Seq::<Seq<u8>>::empty() =~= args.deep_view());
    }
    env.insert(lit_bytes("PATH"), minimal_path);
    // The strong keyword arguments, then `--`, then the positionals.
    let ghost mid_args = args.deep_view();
    let mut j: usize = 0;
    let ghost okv = x.other_kw.deep_view();
    proof {
        assert(args.deep_view() =~= mid_args + okv.take(0));
    }
    while j < x.other_kw.len()
        invariant
            0 <= j <= x.other_kw.len(),
            okv == x.other_kw.deep_view(),
            args.deep_view() == mid_args + okv.take(j as int),
        decreases x.other_kw.len() - j,
    {
        let ghost ab = args.deep_view();
        proof {
            assert(x.other_kw[j as int]@ == okv[j as int]);
        }
        args.push(crate::bytes::clone_bytes(&x.other_kw[j]));
        proof {
            assert(args.deep_view() =~~= ab.push(okv[j as int]));
            assert(ab.push(okv[j as int]) =~= mid_args + okv.take(j + 1));
        }
        j += 1;
    }
    proof {
        assert(okv.take(okv.len() as int) =~= okv);
    }
    let ghost pre_dashes = args.deep_view();
    args.push(lit_bytes("--"));
    let ghost mid2 = args.deep_view();
    proof {
        assert(mid2 =~~= pre_dashes.push(lit("--")));
    }
    let ghost restv = x.rest.deep_view();
    proof {
        assert(args.deep_view() =~= mid2 + restv.take(0));
    }
    let mut l: usize = 0;
    while l < x.rest.len()
        invariant
            0 <= l <= x.rest.len(),
            restv == x.rest.deep_view(),
            args.deep_view() == mid2 + restv.take(l as int),
        decreases x.rest.len() - l,
    {
        let ghost ab = args.deep_view();
        proof {
            assert(x.rest[l as int]@ == restv[l as int]);
        }
        args.push(crate::bytes::clone_bytes(&x.rest[l]));
        proof {
            assert(args.deep_view() =~~= ab.push(restv[l as int]));
            assert(ab.push(restv[l as int]) =~= mid2 + restv.take(l + 1));
        }
        l += 1;
    }
    proof {
        assert(restv.take(restv.len() as int) =~= restv);
        assert(args.deep_view() =~= seq![lit("--pure")] + spec_keep_args(amb, keepv, 0) + okv
            + seq![lit("--")] + restv);
    }
    // Weak arguments are forwarded untouched.
    let mut weak: Vec<Vec<u8>> = Vec::new();
    let ghost wkv = x.weak_kw.deep_view();
    proof {
        assert(weak.deep_view() =~= wkv.take(0));
    }
    let mut w: usize = 0;
    while w < x.weak_kw.len()
        invariant
            0 <= w <= x.weak_kw.len(),
            wkv == x.weak_kw.deep_view(),
            weak.deep_view() == wkv.take(w as int),
        decreases x.weak_kw.len() - w,
    {
        let ghost wb = weak.deep_view();
        proof {
            assert(x.weak_kw[w as int]@ == wkv[w as int]);
        }
        weak.push(crate::bytes::clone_bytes(&x.weak_kw[w]));
        proof {
            assert(weak.deep_view() =~~= wb.push(wkv[w as int]));
            assert(wb.push(wkv[w as int]) =~= wkv.take(w + 1));
        }
        w += 1;
    }
    proof {
        assert(wkv.take(wkv.len() as int) =~= wkv);
    }
    NixShellInput { pwd, env, args, weak_args: weak }
}

/// Byte strings joined with `:` between them.
pub open spec fn spec_join_colon(parts: Seq<Seq<u8>>) -> Seq<u8>
    decreases parts.len(),
{
    if parts.len() == 0 {
        Seq::empty()
    } else if parts.len() == 1 {
        parts[0]
    } else {
        parts[0] + seq![58u8] + spec_join_colon(parts.drop_first())
    }
}

/// Joining restated from the back, as the writing loop proceeds.
proof fn lemma_join_colon_snoc(parts: Seq<Seq<u8>>, x: Seq<u8>)
    ensures
        parts.len() == 0 ==> spec_join_colon(parts.push(x)) == x,
        parts.len() > 0 ==> spec_join_colon(parts.push(x)) == spec_join_colon(parts) + seq![58u8]
            + x,
    decreases parts.len(),
{
    if parts.len() == 0 {
        assert(parts.push(x)[0] == x);
    } else if parts.len() == 1 {
        assert(parts.push(x)[0] == parts[0]);
        assert(parts.push(x).drop_first() =~= seq![x]);
        assert(spec_join_colon(seq![x]) == x);
    } else {
        assert(parts.push(x)[0] == parts[0]);
        assert(parts.push(x).drop_first() =~= parts.drop_first().push(x));
        lemma_join_colon_snoc(parts.drop_first(), x);
        assert(parts[0] + seq![58u8] + (spec_join_colon(parts.drop_first()) + seq![58u8] + x)
            =~= (parts[0] + seq![58u8] + spec_join_colon(parts.drop_first())) + seq![58u8] + x);
    }
}

/// Is `x` one of the entries of `list`?
fn contains_entry(list: &Vec<Vec<u8>>, x: &Vec<u8>) -> (r: bool)
    ensures
        r == exists|a: int| 0 <= a < list.deep_view().len() && list.deep_view()[a] == x@,
{
    let ghost lv = list.deep_view();
    let mut i: usize = 0;
    while i < list.len()
        invariant
            0 <= i <= list.len(),
            lv == list.deep_view(),
            forall|a: int| 0 <= a < i ==> lv[a] != x@,
        decreases list.len() - i,
    {
        proof {
            assert(list[i as int]@ == lv[i as int]);
        }
        if crate::bytes::bytes_eq(&list[i], x) {
            return true;
        }
        i += 1;
    }
    false
}

/// Filter `PATH` down to the entries in `allowed`, keeping order and
/// first occurrences, and join them back with `:`.
pub fn minimal_essential_path(path: &Vec<u8>, allowed: &Vec<Vec<u8>>) -> (r: Vec<u8>)
    ensures
        r@ == spec_join_colon(
            spec_minimal_path(
                crate::bytes::spec_split(path@, 58),
                0,
                Seq::empty(),
                allowed.deep_view(),
            ),
        ),
{
    let entries = crate::bytes::split_bytes(path.as_slice(), 58);
    let ghost ev = entries.deep_view();
    let ghost av = allowed.deep_view();
    let mut kept: Vec<Vec<u8>> = Vec::new();
    let mut seen: Vec<Vec<u8>> = Vec::new();
    proof {
        assert(kept.deep_view() =~= Seq::<Seq<u8>>::empty());
        assert(seen.deep_view() =~= Seq::<Seq<u8>>::empty());
        assert(Seq::<Seq<u8>>::empty() + spec_minimal_path(ev, 0, Seq::empty(), av)
            =~= spec_minimal_path(ev, 0, Seq::empty(), av));
    }
    let mut i: usize = 0;
    while i < entries.len()
        invariant
            0 <= i <= entries.len(),
            ev == entries.deep_view(),
            av == allowed.deep_view(),
            kept.deep_view() + spec_minimal_path(ev, i as int, seen.deep_view(), av)
                == spec_minimal_path(ev, 0, Seq::empty(), av),
        decreases entries.len() - i,
    {
        proof {
            assert(entries[i as int]@ == ev[i as int]);
        }
        let in_allowed = contains_entry(allowed, &entries[i]);
        let in_seen = contains_entry(&seen, &entries[i]);
        let ghost kb = kept.deep_view();
        let ghost sb = seen.deep_view();
        if in_allowed && !in_seen {
            kept.push(crate::bytes::clone_bytes(&entries[i]));
            seen.push(crate::bytes::clone_bytes(&entries[i]));
            proof {
                assert(kept.deep_view() =~~= kb + seq![ev[i as int]]);
                assert(seen.deep_view() =~~= sb.push(ev[i as int]));
                assert((kb + seq![ev[i as int]]) + spec_minimal_path(
                    ev,
                    i + 1,
                    sb.push(ev[i as int]),
                    av,
                ) =~= kb + (seq![ev[i as int]] + spec_minimal_path(
                    ev,
                    i + 1,
                    sb.push(ev[i as int]),
                    av,
                )));
            }
        } else {
            proof {
                assert(Seq::<Seq<u8>>::empty() + spec_minimal_path(ev, i + 1, sb, av)
                    =~= spec_minimal_path(ev, i + 1, sb, av));
            }
        }
        i += 1;
    }
    proof {
        assert(spec_minimal_path(ev, ev.len() as int, seen.deep_view(), av) == Seq::<
            Seq<u8>,
        >::empty());
        assert(kept.deep_view() + Seq::<Seq<u8>>::empty() =~= kept.deep_view());
    }
    join_colon(&kept)
}

/// Join byte strings with `:` between them.
fn join_colon(parts: &Vec<Vec<u8>>) -> (r: Vec<u8>)
    ensures
        r@ == spec_join_colon(parts.deep_view()),
{
    let ghost pv = parts.deep_view();
    let mut out: Vec<u8> = Vec::new();
    proof {
        assert(pv.take(0) =~= Seq::<Seq<u8>>::empty());
        assert(out@ =~= spec_join_colon(pv.take(0)));
    }
    let mut i: usize = 0;
    while i < parts.len()
        invariant
            0 <= i <= parts.len(),
            pv == parts.deep_view(),
            out@ == spec_join_colon(pv.take(i as int)),
        decreases parts.len() - i,
    {
        if i > 0 {
            out.push(58);
        }
        proof {
            assert(parts[i as int]@ == pv[i as int]);
        }
        crate::bytes::push_all(&mut out, parts[i].as_slice());
        proof {
            lemma_join_colon_snoc(pv.take(i as int), pv[i as int]);
            assert(pv.take(i + 1) =~= pv.take(i as int).push(pv[i as int]));
            if i == 0 {
                assert(out@ =~= spec_join_colon(pv.take(1)));
            } else {
                assert(out@ =~= spec_join_colon(pv.take(i + 1)));
            }
        }
        i += 1;
    }
    proof {
        assert(pv.take(parts@.len() as int) =~= pv);
    }
    out
}

} // verus!
