//! Round trips and exact wire bytes of the environment map, the trace
//! and the fingerprint.

use cached_nix_shell::bytemap::ByteMap;
use cached_nix_shell::env::{deserialize_env, env_path_concat, serialize_env};
use cached_nix_shell::fingerprint::{fingerprint, serialize_args, serialize_vecs};
use cached_nix_shell::trace::{
    blake3_hex, dir_observation, file_observation, load_raw, stat_observation, DirEntry,
    DirListing, ReadOutcome, StatKind, Trace,
};

fn map_of(pairs: &[(&[u8], &[u8])]) -> ByteMap {
    let mut m = ByteMap::new();
    for (k, v) in pairs {
        m.insert(k.to_vec(), v.to_vec());
    }
    m
}

fn pairs_of(m: &ByteMap) -> Vec<(Vec<u8>, Vec<u8>)> {
    let mut out = Vec::new();
    for i in 0..m.len() {
        out.push((m.key_at(i).clone(), m.val_at(i).clone()));
    }
    out
}

#[test]
fn env_serialize_exact_bytes() {
    let env = map_of(&[(b"B", b"2"), (b"A", b"1")]);
    // Keys come out sorted, each record `key=value\0`.
    assert_eq!(serialize_env(&env), b"A=1\0B=2\0".to_vec());
}

#[test]
fn env_round_trip() {
    let env = map_of(&[
        (b"PATH", b"/nix/store/xxx/bin:/usr/bin"),
        (b"HOME", b"/home/user"),
        (b"EMPTY", b""),
        (b"WITH_EQ", b"a=b=c"),
    ]);
    let bytes = serialize_env(&env);
    let back = deserialize_env(&bytes);
    assert_eq!(pairs_of(&back), pairs_of(&env));
}

#[test]
fn env_deserialize_last_binding_wins() {
    let m = deserialize_env(b"A=1\0A=2\0");
    assert_eq!(pairs_of(&m), vec![(b"A".to_vec(), b"2".to_vec())]);
}

#[test]
fn env_deserialize_skips_fields_without_eq() {
    let m = deserialize_env(b"A=1\0garbage\0B=2\0");
    assert_eq!(
        pairs_of(&m),
        vec![(b"A".to_vec(), b"1".to_vec()), (b"B".to_vec(), b"2".to_vec())]
    );
}

fn trace_pairs(t: &Trace) -> Vec<(Vec<u8>, Vec<u8>)> {
    let mut out = Vec::new();
    for i in 0..t.len() {
        out.push((t.key_at(i).clone(), t.obs_at(i).clone()));
    }
    out
}

#[test]
fn trace_load_sorts_and_dedups() {
    let t = Trace::load(b"\0s/b\0+\0s/a\0d\0s/b\0-".to_vec());
    // Sorted by key; the later observation for a repeated key wins.
    assert_eq!(
        trace_pairs(&t),
        vec![
            (b"s/a".to_vec(), b"d".to_vec()),
            (b"s/b".to_vec(), b"-".to_vec()),
        ]
    );
}

#[test]
fn trace_round_trip() {
    let raw = b"\0s/etc/hosts\0+\0f/etc/passwd\0abcd1234\0d/etc\0deadbeef".to_vec();
    let t = Trace::load(raw);
    let bytes = t.serialize();
    let again = Trace::load(bytes.clone());
    assert_eq!(trace_pairs(&again), trace_pairs(&t));
    // And the serialised form itself is stable.
    assert_eq!(again.serialize(), bytes);
}

#[test]
fn trace_raw_load_keeps_first_observation() {
    let t = load_raw(b"\0f/x\0first\0f/x\0second", &Vec::<Vec<u8>>::new());
    assert_eq!(trace_pairs(&t), vec![(b"f/x".to_vec(), b"first".to_vec())]);
}

#[test]
fn trace_raw_load_drops_t_records() {
    let t = load_raw(b"\0t/tmp/d\0+\0f/a\0h1\0t/tmp/d\0-", &Vec::<Vec<u8>>::new());
    assert_eq!(trace_pairs(&t), vec![(b"f/a".to_vec(), b"h1".to_vec())]);
}

#[test]
fn trace_raw_load_scrubs_vanished_tempdir() {
    let log: &[u8] =
        b"\0t/tmp/nix-x\0+\0f/tmp/nix-x/default.nix\0h1\0f/other\0h2\0t/tmp/nix-x\0-";
    let gone = vec![b"/tmp/nix-x".to_vec()];
    let t = load_raw(log, &gone);
    // The record under the vanished directory is masked; the other stays.
    assert_eq!(trace_pairs(&t), vec![(b"f/other".to_vec(), b"h2".to_vec())]);
    // With the directory still on disk, everything is kept.
    let t2 = load_raw(log, &Vec::<Vec<u8>>::new());
    assert_eq!(
        trace_pairs(&t2),
        vec![
            (b"f/other".to_vec(), b"h2".to_vec()),
            (b"f/tmp/nix-x/default.nix".to_vec(), b"h1".to_vec()),
        ]
    );
}

#[test]
fn check_for_changes_reports_first_mismatch() {
    let t = Trace::load(b"\0f/a\0h1\0f/b\0h2".to_vec());
    let same = vec![b"h1".to_vec(), b"h2".to_vec()];
    assert!(!t.check_for_changes(&same));
    let touched = vec![b"h1".to_vec(), b"h3".to_vec()];
    assert!(t.check_for_changes(&touched));
}

#[test]
fn observations_match_recorded_forms() {
    assert_eq!(stat_observation(&StatKind::Missing), b"-".to_vec());
    assert_eq!(stat_observation(&StatKind::Dir), b"d".to_vec());
    assert_eq!(stat_observation(&StatKind::Other), b"+".to_vec());
    assert_eq!(
        stat_observation(&StatKind::Symlink(b"/target".to_vec())),
        b"l/target".to_vec()
    );

    assert_eq!(file_observation(&ReadOutcome::Missing), b"-".to_vec());
    assert_eq!(file_observation(&ReadOutcome::ReadError), b"e".to_vec());
    let h = file_observation(&ReadOutcome::Data(b"hello".to_vec()));
    // First 32 hex digits of the digest, exactly as blake3 renders it.
    let expect = blake3::hash(b"hello").to_hex().as_str().as_bytes()[..32].to_vec();
    assert_eq!(h, expect);

    assert_eq!(dir_observation(&DirListing::Absent), b"-".to_vec());
}

#[test]
fn dir_observation_sorts_entries() {
    let a = dir_observation(&DirListing::Present(vec![
        DirEntry { name: b"b".to_vec(), kind: b'f' },
        DirEntry { name: b"a".to_vec(), kind: b'd' },
    ]));
    let b = dir_observation(&DirListing::Present(vec![
        DirEntry { name: b"a".to_vec(), kind: b'd' },
        DirEntry { name: b"b".to_vec(), kind: b'f' },
    ]));
    assert_eq!(a, b);
    // And it is the digest of the sorted `name=<type>\0` lines.
    let expect = blake3::hash(b"a=d\0b=f\0").to_hex().as_str().as_bytes()[..32].to_vec();
    assert_eq!(a, expect);
}

#[test]
fn blake3_hex_is_the_crate_digest() {
    let ours = blake3_hex(b"abc");
    let theirs = blake3::hash(b"abc").to_hex().as_str().as_bytes().to_vec();
    assert_eq!(ours, theirs);
    assert_eq!(ours.len(), 64);
    assert_ne!(ours, b"abc".to_vec());
}

#[test]
fn serialize_vecs_exact_framing() {
    let fields = vec![b"ab".to_vec(), b"".to_vec(), b"0123456789".to_vec()];
    let mut expect: Vec<u8> = Vec::new();
    expect.extend_from_slice(b"2\0ab");
    expect.extend_from_slice(b"0\0");
    expect.extend_from_slice(b"10\0");
    expect.extend_from_slice(b"0123456789");
    assert_eq!(serialize_vecs(&fields), expect);
}

#[test]
fn serialize_args_exact_bytes() {
    let args = vec![b"--pure".to_vec(), b"--".to_vec()];
    assert_eq!(serialize_args(&args), b"--pure\0--\0".to_vec());
}

#[test]
fn fingerprint_is_hex_and_input_sensitive() {
    let env = map_of(&[(b"HOME", b"/home/u")]);
    let args = vec![b"--pure".to_vec()];
    let pwd = b"/work".to_vec();
    let f1 = fingerprint(&env, &args, &pwd);
    assert_eq!(f1.len(), 64);
    assert!(f1.iter().all(|c| c.is_ascii_hexdigit()));
    // Deterministic.
    assert_eq!(f1, fingerprint(&env, &args, &pwd));
    // Sensitive to each component.
    let env2 = map_of(&[(b"HOME", b"/home/v")]);
    assert_ne!(f1, fingerprint(&env2, &args, &pwd));
    let args2 = vec![b"--pure".to_vec(), b"-A".to_vec()];
    assert_ne!(f1, fingerprint(&env, &args2, &pwd));
    assert_ne!(f1, fingerprint(&env, &args, &b"/elsewhere".to_vec()));
}

#[test]
fn env_path_concat_is_bash_colon_join() {
    assert_eq!(
        env_path_concat(Some(&b"/a".to_vec()), Some(&b"/b".to_vec())),
        b"/a:/b".to_vec()
    );
    assert_eq!(env_path_concat(None, Some(&b"/b".to_vec())), b":/b".to_vec());
}
