//! The invocation driver's decisions: argument parsing, working-directory
//! normalisation, environment merging, exit codes and exec plans.

use cached_nix_shell::args::{Args, ParseError, RunMode};
use cached_nix_shell::bash::{is_literal_bash_string, quote};
use cached_nix_shell::bytemap::ByteMap;
use cached_nix_shell::drv::{drv_decision, parse_derivation, required_output_paths, DrvStep};
use cached_nix_shell::env::{merge_env, merge_impure_env, strip_session_vars};
use cached_nix_shell::run::{
    args_to_inp, bash_opts_args, input_fingerprint, minimal_essential_path, nix_shell_exit_code,
    normalize_pwd, script_exec_plan, NixShellInput, ScriptExec,
};
use cached_nix_shell::shebang::parse_script;

fn vv(parts: &[&[u8]]) -> Vec<Vec<u8>> {
    parts.iter().map(|p| p.to_vec()).collect()
}

fn map_of(pairs: &[(&[u8], &[u8])]) -> ByteMap {
    let mut m = ByteMap::new();
    for (k, v) in pairs {
        m.insert(k.to_vec(), v.to_vec());
    }
    m
}

fn get(m: &ByteMap, k: &[u8]) -> Option<Vec<u8>> {
    m.get(&k.to_vec()).cloned()
}

#[test]
fn parse_classifies_strong_and_weak() {
    let a = Args::parse(
        vv(&[b"-A", b"attr", b"-v", b"-j", b"8", b"--pure", b"script.nix"]),
        false,
    )
    .ok()
    .unwrap();
    assert_eq!(a.other_kw, vv(&[b"--attr", b"attr"]));
    assert_eq!(a.weak_kw, vv(&[b"--verbose", b"--max-jobs", b"8"]));
    assert!(a.pure_mode);
    assert_eq!(a.rest, vv(&[b"script.nix"]));
}

#[test]
fn parse_expands_concatenated_short_options() {
    let a = Args::parse(vv(&[b"-pj16", b"hello"]), false).ok().unwrap();
    assert!(a.packages_or_expr);
    assert_eq!(a.other_kw, vv(&[b"-p"]));
    assert_eq!(a.weak_kw, vv(&[b"--max-jobs", b"16"]));
    assert_eq!(a.rest, vv(&[b"hello"]));
}

#[test]
fn parse_exec_takes_tail_verbatim() {
    let a = Args::parse(vv(&[b"--exec", b"prog", b"-v", b"--pure"]), false)
        .ok()
        .unwrap();
    match a.run {
        RunMode::Exec(cmd, args) => {
            assert_eq!(cmd, b"prog".to_vec());
            assert_eq!(args, vv(&[b"-v", b"--pure"]));
        },
        _ => panic!("expected exec mode"),
    }
    // The tail was not parsed: no weak options were recorded.
    assert_eq!(a.weak_kw, vv(&[]));
}

#[test]
fn parse_interpreter_only_in_shebang() {
    let a = Args::parse(vv(&[b"-i", b"python3", b"-p", b"python3"]), true)
        .ok()
        .unwrap();
    assert_eq!(a.interpreter, b"python3".to_vec());
    let err = Args::parse(vv(&[b"-i", b"python3"]), false).err().unwrap();
    assert!(matches!(err, ParseError::UnexpectedFlag(_)));
}

#[test]
fn parse_keep_and_include() {
    let a = Args::parse(vv(&[b"--keep", b"FOO", b"-I", b".", b"x.nix"]), false)
        .ok()
        .unwrap();
    assert_eq!(a.keep, vv(&[b"FOO"]));
    assert_eq!(a.include_nix_path, vv(&[b"."]));
    assert_eq!(a.other_kw, vv(&[b"-I", b"."]));
}

#[test]
fn parse_errors() {
    assert!(matches!(
        Args::parse(vv(&[b"--version"]), false),
        Err(ParseError::Version)
    ));
    assert!(matches!(
        Args::parse(vv(&[b"x", b"--wrap"]), false),
        Err(ParseError::WrapMisplaced)
    ));
    assert!(matches!(
        Args::parse(vv(&[b"--attr"]), false),
        Err(ParseError::MissingArgument(_))
    ));
    assert!(matches!(
        Args::parse(vv(&[b"--bogus"]), false),
        Err(ParseError::UnexpectedFlag(_))
    ));
}

/// Two invocations identical except for weak options share the cache key.
#[test]
fn weak_options_do_not_bust_cache() {
    let ambient = map_of(&[(b"HOME", b"/home/u"), (b"PATH", b"/usr/bin")]);
    let build = |argv: &[&[u8]]| -> NixShellInput {
        let a = Args::parse(vv(argv), false).ok().unwrap();
        args_to_inp(b"/work".to_vec(), &a, &ambient, b"/usr/bin".to_vec())
    };
    let plain = build(&[b"-p", b"hello"]);
    let verbose = build(&[b"-p", b"hello", b"-v", b"-j", b"8"]);
    assert_eq!(input_fingerprint(&plain), input_fingerprint(&verbose));
    // The weak arguments are still forwarded to the traced tool.
    assert_eq!(verbose.weak_args, vv(&[b"--verbose", b"--max-jobs", b"8"]));
}

/// `-p` runs the tool from the empty sentinel directory.
#[test]
fn packages_flag_selects_var_empty_pwd() {
    let a = Args::parse(vv(&[b"-p", b"hello", b"--run", b"echo $out"]), false)
        .ok()
        .unwrap();
    let mut rest = a.rest.clone();
    let pwd = normalize_pwd(
        &mut rest,
        a.packages_or_expr,
        false,
        false,
        &b"/cwd".to_vec(),
        &b"/var/empty".to_vec(),
    );
    assert_eq!(pwd, b"/var/empty".to_vec());
}

#[test]
fn pwd_normalisation_cases() {
    let cwd = b"/cwd".to_vec();
    let ve = b"/var/empty".to_vec();

    // Relative search path pins the current directory.
    let mut rest = vv(&[b"<nixpkgs>"]);
    assert_eq!(normalize_pwd(&mut rest, false, true, false, &cwd, &ve), cwd);

    // `<foo>` and URIs leave no working directory to honour.
    let mut rest = vv(&[b"<nixpkgs>"]);
    assert_eq!(normalize_pwd(&mut rest, false, false, false, &cwd, &ve), ve);
    let mut rest = vv(&[b"https://example.org/x.tar.gz"]);
    assert_eq!(normalize_pwd(&mut rest, false, false, false, &cwd, &ve), ve);

    // The empty argument behaves like no argument.
    let mut rest = vv(&[b""]);
    assert_eq!(normalize_pwd(&mut rest, false, false, false, &cwd, &ve), cwd);

    // A directory argument becomes `.` run from that directory.
    let mut rest = vv(&[b"/path/to/dir"]);
    let pwd = normalize_pwd(&mut rest, false, false, true, &cwd, &ve);
    assert_eq!(pwd, b"/path/to/dir".to_vec());
    assert_eq!(rest, vv(&[b"."]));

    // A file argument becomes `./<file>` run from its directory.
    let mut rest = vv(&[b"to/file.nix"]);
    let pwd = normalize_pwd(&mut rest, false, false, false, &cwd, &ve);
    assert_eq!(pwd, b"/cwd/to".to_vec());
    assert_eq!(rest, vv(&[b"./file.nix"]));

    // Several positional arguments keep the current directory.
    let mut rest = vv(&[b"a.nix", b"b.nix"]);
    assert_eq!(normalize_pwd(&mut rest, false, false, false, &cwd, &ve), cwd);
}

/// Impure mode appends the ambient `PATH` after the cached one.
#[test]
fn impure_merge_appends_path() {
    let cached = map_of(&[(b"PATH", b"/nix/store/x/bin"), (b"FOO", b"cached")]);
    let ambient = map_of(&[(b"PATH", b"/a:/b"), (b"BAR", b"ambient")]);
    let merged = merge_impure_env(cached, &ambient);
    assert_eq!(get(&merged, b"PATH"), Some(b"/nix/store/x/bin:/a:/b".to_vec()));
    // Cached values win; missing ones are inherited.
    assert_eq!(get(&merged, b"FOO"), Some(b"cached".to_vec()));
    assert_eq!(get(&merged, b"BAR"), Some(b"ambient".to_vec()));
    assert_eq!(get(&merged, b"IN_NIX_SHELL"), Some(b"impure".to_vec()));
}

#[test]
fn impure_merge_strips_pure_ssl_overrides() {
    let cached = map_of(&[(b"SSL_CERT_FILE", b"/no-cert-file.crt")]);
    let ambient = map_of(&[(b"SSL_CERT_FILE", b"/etc/ssl/cert.pem")]);
    let merged = merge_impure_env(cached, &ambient);
    // The pure marker is dropped, so the ambient value is inherited.
    assert_eq!(get(&merged, b"SSL_CERT_FILE"), Some(b"/etc/ssl/cert.pem".to_vec()));
}

#[test]
fn pure_mode_reinjects_session_variables() {
    let cached = map_of(&[(b"TERM", b"dumb")]);
    let ambient = map_of(&[(b"TERM", b"xterm"), (b"USER", b"u"), (b"OTHER", b"x")]);
    let merged = merge_env(cached, &ambient);
    assert_eq!(get(&merged, b"TERM"), Some(b"xterm".to_vec()));
    assert_eq!(get(&merged, b"USER"), Some(b"u".to_vec()));
    assert_eq!(get(&merged, b"OTHER"), None);
}

#[test]
fn session_variables_are_stripped() {
    let mut env = map_of(&[(b"PWD", b"/x"), (b"SHLVL", b"2"), (b"KEEP", b"1"), (b"_", b"/e")]);
    strip_session_vars(&mut env);
    assert_eq!(get(&env, b"PWD"), None);
    assert_eq!(get(&env, b"SHLVL"), None);
    assert_eq!(get(&env, b"_"), None);
    assert_eq!(get(&env, b"KEEP"), Some(b"1".to_vec()));
}

/// Signal death exits with 128 plus the signal number.
#[test]
fn signal_death_exit_code() {
    assert_eq!(nix_shell_exit_code(None, Some(15)), 143);
    assert_eq!(nix_shell_exit_code(Some(2), None), 2);
    assert_eq!(nix_shell_exit_code(None, None), 255);
}

/// A literal interpreter is executed directly; anything else through
/// `bash -c 'exec …'`.
#[test]
fn literal_interpreter_shebang() {
    let script = b"#!/usr/bin/env cached-nix-shell\n#!nix-shell -i python3 -p python3\n";
    let words = parse_script(script).unwrap();
    assert_eq!(words, vv(&[b"-i", b"python3", b"-p", b"python3"]));
    let a = Args::parse(words, true).ok().unwrap();
    assert_eq!(a.interpreter, b"python3".to_vec());
    assert!(a.packages_or_expr);
    match script_exec_plan(&a.interpreter) {
        ScriptExec::Direct(i) => assert_eq!(i, b"python3".to_vec()),
        _ => panic!("python3 is a literal bash string"),
    }
    match script_exec_plan(&b"python3 -u".to_vec()) {
        ScriptExec::ViaBash(s) => assert_eq!(s, b"exec python3 -u \"$@\"".to_vec()),
        _ => panic!("a command with a space needs bash"),
    }
}

#[test]
fn parse_script_declines_without_shebang() {
    assert!(parse_script(b"echo hi\n").is_none());
    assert!(parse_script(b"").is_none());
}

#[test]
fn parse_script_gathers_all_marker_lines() {
    let script = b"#!/usr/bin/env cached-nix-shell\n#!nix-shell -p hello\n# comment\n#!nix-shell -v\n";
    let words = parse_script(script).unwrap();
    assert_eq!(words, vv(&[b"-p", b"hello", b"-v"]));
}

#[test]
fn literal_bash_strings() {
    assert!(is_literal_bash_string(b"python3"));
    assert!(is_literal_bash_string(b"/usr/bin/perl"));
    assert!(!is_literal_bash_string(b"python3 -u"));
    assert!(!is_literal_bash_string(b"-python"));
    assert!(!is_literal_bash_string(b"~root/x"));
    assert!(!is_literal_bash_string(b"a:~b"));
    assert!(!is_literal_bash_string(b"a$b"));
}

#[test]
fn quote_escapes_single_quotes() {
    assert_eq!(quote(b"abc"), b"'abc'".to_vec());
    assert_eq!(quote(b"a'b"), br#"'a'\''b'"#.to_vec());
}

#[test]
fn bash_opts_are_filtered_to_safe_ones() {
    let args = bash_opts_args(
        &b"checkwinsize:execfail:nullglob".to_vec(),
        &b"braceexpand:pipefail".to_vec(),
    );
    assert_eq!(
        args,
        vv(&[b"-O", b"execfail", b"-O", b"nullglob", b"-o", b"pipefail"])
    );
}

#[test]
fn minimal_path_keeps_order_and_dedups() {
    let path = b"/a:/b:/a:/c:/b".to_vec();
    let allowed = vv(&[b"/b", b"/a"]);
    assert_eq!(minimal_essential_path(&path, &allowed), b"/a:/b".to_vec());
}

#[test]
fn args_to_inp_builds_pure_invocation() {
    let ambient = map_of(&[
        (b"HOME", b"/home/u"),
        (b"NIX_PATH", b"nixpkgs=/pkgs"),
        (b"SECRET", b"s"),
        (b"KEPT", b"yes"),
    ]);
    let a = Args::parse(vv(&[b"--keep", b"KEPT", b"-p", b"hello"]), false)
        .ok()
        .unwrap();
    let inp = args_to_inp(b"/var/empty".to_vec(), &a, &ambient, b"/bin".to_vec());
    assert_eq!(
        inp.args,
        vv(&[b"--pure", b"--keep", b"KEPT", b"-p", b"--", b"hello"])
    );
    assert_eq!(get(&inp.env, b"HOME"), Some(b"/home/u".to_vec()));
    assert_eq!(get(&inp.env, b"NIX_PATH"), Some(b"nixpkgs=/pkgs".to_vec()));
    assert_eq!(get(&inp.env, b"KEPT"), Some(b"yes".to_vec()));
    assert_eq!(get(&inp.env, b"PATH"), Some(b"/bin".to_vec()));
    // Unlisted ambient variables stay outside the pure environment.
    assert_eq!(get(&inp.env, b"SECRET"), None);
}

#[test]
fn drv_resolution_retries_old_dialect_once() {
    let empty = Vec::new();
    // A failing first attempt asks for the newer command dialect.
    assert!(matches!(drv_decision(false, &empty, false), DrvStep::Retry));
    // A failing retry gives up.
    assert!(matches!(drv_decision(false, &empty, true), DrvStep::Fail));
    // A successful run yields the first key of the JSON object.
    let out = br#"{"/nix/store/abc.drv":{"outputs":{}}}"#.to_vec();
    match drv_decision(true, &out, false) {
        DrvStep::Use(p) => assert_eq!(p, b"/nix/store/abc.drv".to_vec()),
        _ => panic!("expected the derivation path"),
    }
    // Unparsable output fails.
    assert!(matches!(drv_decision(true, &b"not json".to_vec(), true), DrvStep::Fail));
}

#[test]
fn derivation_parser_reads_outputs_and_inputs() {
    let drv: &[u8] = br#"Derive([("out","/nix/store/o1","",""),("dev","/nix/store/o2","","")],[("/nix/store/i1.drv",["out"]),("/nix/store/i2.drv",["out","dev"])],["/nix/store/src.nix"],"x86_64-linux","/bin/bash",["-e","builder.sh"],[("name","x"),("out","/nix/store/o1")])"#;
    let d = parse_derivation(drv).unwrap();
    assert_eq!(d.outputs.len(), 2);
    assert_eq!(d.outputs[0].name, b"out".to_vec());
    assert_eq!(d.outputs[0].path, b"/nix/store/o1".to_vec());
    assert_eq!(d.input_drvs.len(), 2);
    assert_eq!(d.input_drvs[1].path, b"/nix/store/i2.drv".to_vec());
    assert_eq!(d.input_drvs[1].outputs, vec![b"out".to_vec(), b"dev".to_vec()]);

    let found = required_output_paths(&d, &vec![b"dev".to_vec(), b"out".to_vec()]).unwrap();
    assert_eq!(found, vec![b"/nix/store/o2".to_vec(), b"/nix/store/o1".to_vec()]);
    let missing = required_output_paths(&d, &vec![b"doc".to_vec()]).unwrap_err();
    assert_eq!(missing, b"doc".to_vec());
}

#[test]
fn derivation_parser_decodes_escapes_and_rejects_garbage() {
    let drv: &[u8] = br#"Derive([("out","/nix/store/a\"b\\c\nd","","")],[],[],"","",[],[])"#;
    let d = parse_derivation(drv).unwrap();
    assert_eq!(d.outputs[0].path, b"/nix/store/a\"b\\c\nd".to_vec());

    assert!(parse_derivation(b"NotADerivation").is_none());
    assert!(parse_derivation(b"Derive([],[],[],\"\",\"\",[],[])trailing").is_none());
    assert!(parse_derivation(br#"Derive([("out","x","","")],[],[],"","",[],[])"#).is_some());
}
