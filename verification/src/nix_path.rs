//! `NIX_PATH` handling: URI detection, relative-path detection and the
//! colon-separated search-path parser, byte-compatible with the underlying
//! tool's own parser.

use vstd::prelude::*;
use crate::bytes::{
    after_last_byte, find_byte_from, lemma_after_last, lemma_find_char, spec_after_last,
    spec_find, spec_starts_with,
};
use crate::lit::{bytes_starts_with_lit, lit};

verus! {

/// True iff `s` begins with one of the URI schemes the underlying tool
/// downloads itself rather than treating as a file path.
pub open spec fn spec_is_uri(s: Seq<u8>) -> bool {
    ||| spec_starts_with(s, lit("channel:"))
    ||| spec_starts_with(s, lit("http://"))
    ||| spec_starts_with(s, lit("https://"))
    ||| spec_starts_with(s, lit("file://"))
    ||| spec_starts_with(s, lit("channel://"))
    ||| spec_starts_with(s, lit("git://"))
    ||| spec_starts_with(s, lit("s3://"))
    ||| spec_starts_with(s, lit("ssh://"))
}

/// True iff `s` begins with a downloadable URI scheme.
pub fn is_uri(s: &[u8]) -> (r: bool)
    ensures
        r == spec_is_uri(s@),
{
    proof {
        reveal_strlit("channel:");
        reveal_strlit("http://");
        reveal_strlit("https://");
        reveal_strlit("file://");
        reveal_strlit("channel://");
        reveal_strlit("git://");
        reveal_strlit("s3://");
        reveal_strlit("ssh://");
    }
    bytes_starts_with_lit(s, "channel:") || bytes_starts_with_lit(s, "http://")
        || bytes_starts_with_lit(s, "https://") || bytes_starts_with_lit(s, "file://")
        || bytes_starts_with_lit(s, "channel://") || bytes_starts_with_lit(s, "git://")
        || bytes_starts_with_lit(s, "s3://") || bytes_starts_with_lit(s, "ssh://")
}

/// Where the path part of a `NIX_PATH` entry starts: just after the first
/// `=` when the entry is of the `name=path` form, else at the beginning.
pub open spec fn spec_path_start(b: Seq<u8>) -> int {
    if spec_find(b, 61) == -1 {
        0
    } else {
        spec_find(b, 61) + 1
    }
}

/// A search-path entry whose path part neither is absolute nor a URI.
pub open spec fn spec_is_relative(b: Seq<u8>) -> bool {
    let pos = spec_path_start(b);
    &&& !(pos < b.len() && b[pos] == 47)
    &&& !spec_is_uri(b.skip(pos))
}

/// True iff the search-path entry `b` holds a relative path.
pub fn is_relative(b: &[u8]) -> (r: bool)
    ensures
        r == spec_is_relative(b@),
{
    proof {
        lemma_find_char(b@, 61);
        assert(b@.skip(0) =~= b@);
    }
    let bl: usize = b.len();
    let pos: usize = match find_byte_from(b, 61, 0) {
        Some(i) => i + 1,
        None => 0,
    };
    proof {
        assert(pos == spec_path_start(b@));
    }
    if pos < bl && b[pos] == 47 {
        return false;
    }
    let rest = vstd::slice::slice_subrange(b, pos, bl);
    proof {
        assert(rest@ =~= b@.skip(pos as int));
    }
    !is_uri(rest)
}

/// Some entry of the search path — `NIX_PATH` or an `-I` argument —
/// holds a relative path.
pub open spec fn spec_contains_relative_paths(nix_path: Seq<u8>, includes: Seq<Seq<u8>>) -> bool {
    ||| exists|i: int|
        0 <= i < spec_parse_nix_path(nix_path).len() && spec_is_relative(
            #[trigger] spec_parse_nix_path(nix_path)[i],
        )
    ||| exists|i: int| 0 <= i < includes.len() && spec_is_relative(#[trigger] includes[i])
}

/// True iff `NIX_PATH` (handed in by the caller) or any `-I` argument
/// contains a relative path.
pub fn contains_relative_paths(args: &crate::args::Args, nix_path: &Vec<u8>) -> (r: bool)
    ensures
        r == spec_contains_relative_paths(nix_path@, args.include_nix_path.deep_view()),
{
    let entries = parse_nix_path(nix_path.as_slice());
    let ghost ev = entries.deep_view();
    let mut i: usize = 0;
    while i < entries.len()
        invariant
            0 <= i <= entries.len(),
            ev == entries.deep_view(),
            ev == spec_parse_nix_path(nix_path@),
            forall|j: int| 0 <= j < i ==> !spec_is_relative(#[trigger] ev[j]),
        decreases entries.len() - i,
    {
        proof {
            assert(entries[i as int]@ =~= ev[i as int]);
        }
        if is_relative(entries[i].as_slice()) {
            return true;
        }
        i += 1;
    }
    let ghost iv = args.include_nix_path.deep_view();
    let mut k: usize = 0;
    while k < args.include_nix_path.len()
        invariant
            0 <= k <= args.include_nix_path.len(),
            iv == args.include_nix_path.deep_view(),
            ev == spec_parse_nix_path(nix_path@),
            forall|j: int| 0 <= j < ev.len() ==> !spec_is_relative(#[trigger] ev[j]),
            forall|j: int| 0 <= j < k ==> !spec_is_relative(#[trigger] iv[j]),
        decreases args.include_nix_path.len() - k,
    {
        proof {
            assert(args.include_nix_path[k as int]@ =~= iv[k as int]);
        }
        if is_relative(args.include_nix_path[k].as_slice()) {
            return true;
        }
        k += 1;
    }
    false
}

/// The first `:` at or after `p`, or the length of `s` when there is none.
pub open spec fn first_colon_from(s: Seq<u8>, p: int) -> int {
    if spec_find(s.skip(p), 58) == -1 {
        s.len() as int
    } else {
        p + spec_find(s.skip(p), 58)
    }
}

/// The entries of a `NIX_PATH`-style search path.  An entry normally runs
/// to the next `:`; when the text after the entry's last `=` reads as a
/// URI, the entry swallows one more `:` (the one inside the scheme).
pub open spec fn spec_parse_nix_path(s: Seq<u8>) -> Seq<Seq<u8>>
    decreases s.len(),
    via spec_parse_nix_path_decreases
{
    if s.len() == 0 {
        Seq::empty()
    } else {
        let e = first_colon_from(s, 0);
        if e == s.len() {
            seq![s]
        } else {
            let a2 = spec_after_last(s.take(e), 61);
            if spec_is_uri(s.skip(a2)) {
                let e2 = first_colon_from(s, e + 1);
                if e2 == s.len() {
                    seq![s.take(e2)]
                } else {
                    seq![s.take(e2)] + spec_parse_nix_path(s.skip(e2 + 1))
                }
            } else {
                seq![s.take(e)] + spec_parse_nix_path(s.skip(e + 1))
            }
        }
    }
}

#[via_fn]
proof fn spec_parse_nix_path_decreases(s: Seq<u8>) {
    if s.len() > 0 {
        assert(s.skip(0) =~= s);
        lemma_find_char(s.skip(0), 58);
        let e = first_colon_from(s, 0);
        if e != s.len() {
            assert(0 <= e < s.len());
            lemma_find_char(s.skip(e + 1), 58);
            let e2 = first_colon_from(s, e + 1);
            if e2 != s.len() {
                assert(e + 1 <= e2 < s.len());
            }
        }
    }
}

/// Split a search path into its entries.
pub fn parse_nix_path(s: &[u8]) -> (r: Vec<Vec<u8>>)
    ensures
        r.deep_view() == spec_parse_nix_path(s@),
{
    let mut res: Vec<Vec<u8>> = Vec::new();
    let n: usize = s.len();
    proof {
        assert(s@.skip(0) =~= s@);
        assert(res.deep_view() =~= Seq::<Seq<u8>>::empty());
        assert(Seq::<Seq<u8>>::empty() + spec_parse_nix_path(s@) =~= spec_parse_nix_path(s@));
    }
    let mut p: usize = 0;
    while p < n
        invariant
            0 <= p <= n,
            n == s@.len(),
            res.deep_view() + spec_parse_nix_path(s@.skip(p as int)) == spec_parse_nix_path(s@),
        decreases n - p,
    {
        let ghost suf = s@.skip(p as int);
        proof {
            assert(suf.skip(0) =~= suf);
        }
        let e: usize = match find_byte_from(s, 58, p) {
            Some(i) => i,
            None => n,
        };
        proof {
            assert(e - p == first_colon_from(suf, 0));
        }
        if e == n {
            // Last entry, no further colon: emitted as-is.
            let entry = vstd::slice::slice_to_vec(vstd::slice::slice_subrange(s, p, n));
            proof {
                assert(entry@ =~= suf);
                assert(spec_parse_nix_path(suf) == seq![suf]);
            }
            let ghost old_res = res.deep_view();
            res.push(entry);
            proof {
                assert(s@.skip(n as int) =~= Seq::<u8>::empty());
                assert(res.deep_view() =~~= old_res + seq![suf]);
                assert((old_res + seq![suf]) + spec_parse_nix_path(s@.skip(n as int)) =~= old_res
                    + (seq![suf] + spec_parse_nix_path(s@.skip(n as int))));
                assert(seq![suf] + spec_parse_nix_path(s@.skip(n as int)) =~= seq![suf]);
            }
            p = n;
        } else {
            let a2: usize = after_last_byte(s, 61, p, e);
            proof {
                assert(suf.take(e - p) =~= s@.subrange(p as int, e as int));
            }
            let rest = vstd::slice::slice_subrange(s, a2, n);
            proof {
                assert(rest@ =~= suf.skip(a2 - p));
            }
            if is_uri(rest) {
                let e2: usize = match find_byte_from(s, 58, e + 1) {
                    Some(i) => i,
                    None => n,
                };
                proof {
                    assert(suf.skip(e + 1 - p) =~= s@.skip(e + 1));
                    assert(e2 - p == first_colon_from(suf, e + 1 - p));
                }
                let entry = vstd::slice::slice_to_vec(vstd::slice::slice_subrange(s, p, e2));
                proof {
                    assert(entry@ =~= suf.take(e2 - p));
                }
                let ghost old_res = res.deep_view();
                res.push(entry);
                proof {
                    assert(res.deep_view() =~~= old_res + seq![suf.take(e2 - p)]);
                }
                if e2 == n {
                    proof {
                        assert(spec_parse_nix_path(suf) == seq![suf.take(e2 - p)]);
                        assert(s@.skip(n as int) =~= Seq::<u8>::empty());
                        assert((old_res + seq![suf.take(e2 - p)]) + spec_parse_nix_path(
                            s@.skip(n as int),
                        ) =~= old_res + seq![suf.take(e2 - p)]);
                    }
                    p = n;
                } else {
                    proof {
                        assert(suf.skip(e2 + 1 - p) =~= s@.skip(e2 + 1));
                        assert(spec_parse_nix_path(suf) == seq![suf.take(e2 - p)]
                            + spec_parse_nix_path(s@.skip(e2 + 1)));
                        assert((old_res + seq![suf.take(e2 - p)]) + spec_parse_nix_path(
                            s@.skip(e2 + 1),
                        ) =~= old_res + (seq![suf.take(e2 - p)] + spec_parse_nix_path(
                            s@.skip(e2 + 1),
                        )));
                    }
                    p = e2 + 1;
                }
            } else {
                let entry = vstd::slice::slice_to_vec(vstd::slice::slice_subrange(s, p, e));
                proof {
                    assert(entry@ =~= suf.take(e - p));
                }
                let ghost old_res = res.deep_view();
                res.push(entry);
                proof {
                    assert(res.deep_view() =~~= old_res + seq![suf.take(e - p)]);
                    assert(suf.skip(e + 1 - p) =~= s@.skip(e + 1));
                    assert(spec_parse_nix_path(suf) == seq![suf.take(e - p)]
                        + spec_parse_nix_path(s@.skip(e + 1)));
                    assert((old_res + seq![suf.take(e - p)]) + spec_parse_nix_path(s@.skip(e + 1))
                        =~= old_res + (seq![suf.take(e - p)] + spec_parse_nix_path(
                        s@.skip(e + 1),
                    )));
                }
                p = e + 1;
            }
        }
    }
    proof {
        assert(s@.skip(n as int) =~= Seq::<u8>::empty());
        assert(res.deep_view() + Seq::<Seq<u8>>::empty() =~= res.deep_view());
    }
    res
}

} // verus!
