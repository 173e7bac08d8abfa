//! Smaller utilities: URI detection, shebang line matching, search-path
//! relativity and byte-path helpers.

use cached_nix_shell::args::Args;
use cached_nix_shell::nix_path::{contains_relative_paths, is_uri};
use cached_nix_shell::run::{absolute, basename, dirname};
use cached_nix_shell::shebang::{re_nix_shell, re_whitespaces_len};

#[test]
fn uri_prefixes() {
    assert!(is_uri(b"https://example.org/x"));
    assert!(is_uri(b"channel:nixos-unstable"));
    assert!(is_uri(b"ssh://host/repo"));
    assert!(!is_uri(b"/nix/store"));
    assert!(!is_uri(b"example.org/https://"));
}

#[test]
fn nix_shell_line_matching() {
    assert_eq!(
        re_nix_shell(b"#!nix-shell -i python3"),
        Some(b"-i python3".to_vec())
    );
    assert_eq!(
        re_nix_shell(b"#!  \t nix-shell -p hello"),
        Some(b"-p hello".to_vec())
    );
    assert_eq!(re_nix_shell(b"#!/usr/bin/env bash"), None);
    assert_eq!(re_nix_shell(b"# nix-shell -p hello"), None);
    assert_eq!(re_nix_shell(b"#!nix-shell"), None);
}

#[test]
fn whitespace_run_length() {
    assert_eq!(re_whitespaces_len(b"   x"), Some(3));
    assert_eq!(re_whitespaces_len(b"\t\r\nx"), Some(3));
    assert_eq!(re_whitespaces_len(b"x  "), None);
    assert_eq!(re_whitespaces_len(b""), None);
}

#[test]
fn relative_search_paths_are_detected() {
    let with_include = Args::parse(vec![b"-I".to_vec(), b".".to_vec()], false)
        .ok()
        .unwrap();
    assert!(contains_relative_paths(&with_include, &b"".to_vec()));

    let plain = Args::parse(Vec::new(), false).ok().unwrap();
    assert!(!contains_relative_paths(&plain, &b"nixpkgs=/pkgs".to_vec()));
    assert!(contains_relative_paths(&plain, &b"nixpkgs=/pkgs:extra=rel".to_vec()));
    assert!(!contains_relative_paths(
        &plain,
        &b"tarball=https://example.org/x.tar.gz".to_vec()
    ));
}

#[test]
fn byte_path_helpers() {
    assert_eq!(dirname(&b"/a/b/c".to_vec()), b"/a/b".to_vec());
    assert_eq!(dirname(&b"/c".to_vec()), b"/".to_vec());
    assert_eq!(dirname(&b"c".to_vec()), b"".to_vec());
    assert_eq!(basename(&b"/a/b/c".to_vec()), b"c".to_vec());
    assert_eq!(basename(&b"c".to_vec()), b"c".to_vec());

    assert_eq!(absolute(&b"/abs".to_vec(), &b"/cwd".to_vec()), b"/abs".to_vec());
    assert_eq!(absolute(&b"rel/x".to_vec(), &b"/cwd".to_vec()), b"/cwd/rel/x".to_vec());
    assert_eq!(absolute(&b"../x".to_vec(), &b"/cwd/d".to_vec()), b"/cwd/x".to_vec());
    assert_eq!(absolute(&b"".to_vec(), &b"/cwd/".to_vec()), b"/cwd".to_vec());
}
