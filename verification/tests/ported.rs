//! The original tool's own unit tests, carried over.

use cached_nix_shell::args::get_next_arg;
use cached_nix_shell::nix_path::{is_relative, parse_nix_path};
use cached_nix_shell::path_clean::PathClean;
use cached_nix_shell::shebang::shellwords;

fn v(parts: &[&[u8]]) -> Vec<Vec<u8>> {
    parts.iter().map(|p| p.to_vec()).collect()
}

/// Drain a queue seeded with one argument through `get_next_arg`.
fn expand(arg: &str) -> Vec<String> {
    let mut items: Vec<Vec<u8>> = vec![arg.as_bytes().to_vec()];
    let mut out = Vec::new();
    while let Some(a) = get_next_arg(&mut items) {
        out.push(String::from_utf8_lossy(&a).into_owned());
    }
    out
}

#[test]
fn test_get_next_arg() {
    assert_eq!(expand("--"), vec!["--"]);
    assert_eq!(expand("default.nix"), vec!["default.nix"]);
    assert_eq!(expand("--argstr"), vec!["--argstr"]);
    assert_eq!(expand("-pi"), vec!["-p", "-i"]);
    assert_eq!(expand("-j4"), vec!["-j", "4"]);
    assert_eq!(expand("-j16"), vec!["-j", "16"]);
    assert_eq!(expand("-pj16"), vec!["-p", "-j", "16"]);
}

#[test]
fn nix_path_it_works() {
    assert_eq!(parse_nix_path(b"foo:bar:baz"), v(&[b"foo", b"bar", b"baz"]));
    assert_eq!(
        parse_nix_path(b"foo:bar=something:baz"),
        v(&[b"foo", b"bar=something", b"baz"])
    );
    assert_eq!(
        parse_nix_path(b"foo:bar=https://something:baz"),
        v(&[b"foo", b"bar=https://something", b"baz"])
    );

    assert_eq!(is_relative(b"foo"), true);
    assert_eq!(is_relative(b"foo=bar"), true);
    assert_eq!(is_relative(b"http://foo"), false);
    assert_eq!(is_relative(b"foo=/bar"), false);
    assert_eq!(is_relative(b"foo=http://bar"), false);
}

#[test]
fn path_clean_test() {
    let cases: &[(&[u8], &[u8])] = &[
        // Already clean
        (b"", b"."),
        (b"abc", b"abc"),
        (b"abc/def", b"abc/def"),
        (b"a/b/c", b"a/b/c"),
        (b".", b"."),
        (b"..", b".."),
        (b"../..", b"../.."),
        (b"../../abc", b"../../abc"),
        (b"/abc", b"/abc"),
        (b"/", b"/"),
        // Remove trailing slash
        (b"abc/", b"abc"),
        (b"abc/def/", b"abc/def"),
        (b"a/b/c/", b"a/b/c"),
        (b"./", b"."),
        (b"../", b".."),
        (b"../../", b"../.."),
        (b"/abc/", b"/abc"),
        // Remove doubled slash
        (b"abc//def//ghi", b"abc/def/ghi"),
        (b"//abc", b"/abc"),
        (b"///abc", b"/abc"),
        (b"//abc//", b"/abc"),
        (b"abc//", b"abc"),
        // Remove . elements
        (b"abc/./def", b"abc/def"),
        (b"/./abc/def", b"/abc/def"),
        (b"abc/.", b"abc"),
        // Remove .. elements
        (b"abc/def/ghi/../jkl", b"abc/def/jkl"),
        (b"abc/def/../ghi/../jkl", b"abc/jkl"),
        (b"abc/def/..", b"abc"),
        (b"abc/def/../..", b"."),
        (b"/abc/def/../..", b"/"),
        (b"abc/def/../../..", b".."),
        (b"/abc/def/../../..", b"/"),
        (b"abc/def/../../../ghi/jkl/../../../mno", b"../../mno"),
        // Combinations
        (b"abc/./../def", b"def"),
        (b"abc//./../def", b"def"),
        (b"abc/../../././../def", b"../../def"),
    ];

    for (path, result) in cases.iter() {
        assert_eq!(path.to_vec().clean(), result.to_vec());
        assert_eq!(result.to_vec().clean(), result.to_vec());
    }
}

#[test]
fn shebang_it_works() {
    assert_eq!(shellwords(b"foo bar baz"), v(&[b"foo", b"bar", b"baz"]));

    assert_eq!(
        shellwords(br#"foo "bar baz" qoox"#),
        v(&[b"foo", b"bar baz", b"qoox"])
    );

    assert_eq!(shellwords(br#"foo "bar baz "#), v(&[b"foo", b"bar baz "]));

    assert_eq!(
        shellwords(br#"foo \"bar baz"#),
        v(&[b"foo", br#""bar"#, b"baz"])
    );

    assert_eq!(
        shellwords(br#"foo "bar\"baz" qoox"#),
        v(&[b"foo", br#"bar"baz"#, b"qoox"])
    );

    assert_eq!(
        shellwords(br#"foo bar" "baz qoox"#),
        v(&[b"foo", b"bar baz", b"qoox"])
    );
}

#[test]
fn shebang_leading_space_quirk() {
    // The scanner emits an empty first word for a line starting with
    // whitespace, as the underlying tool's scanner does.
    assert_eq!(shellwords(b" foo"), v(&[b"", b"foo"]));
}
