//! Raw byte-string utilities: equality, lexicographic order, prefix tests.
//!
//! Every path, key and value in this crate is an opaque byte string; nothing
//! here assumes UTF-8.  The lexicographic order below is the order in which
//! trace records and environment entries are kept.

use vstd::prelude::*;

verus! {

/// Strict lexicographic order on byte sequences: `a` comes before `b`.
pub open spec fn lex_lt(a: Seq<u8>, b: Seq<u8>) -> bool
    decreases b.len(),
{
    if b.len() == 0 {
        false
    } else if a.len() == 0 {
        true
    } else {
        a[0] < b[0] || (a[0] == b[0] && lex_lt(a.drop_first(), b.drop_first()))
    }
}

/// Exactly one of `a < b`, `a == b`, `b < a` holds.
pub proof fn lemma_lex_trichotomy(a: Seq<u8>, b: Seq<u8>)
    ensures
        lex_lt(a, b) || lex_lt(b, a) || a == b,
        lex_lt(a, b) ==> !lex_lt(b, a) && a != b,
        lex_lt(b, a) ==> !lex_lt(a, b) && a != b,
    decreases a.len() + b.len(),
{
    if a.len() == 0 && b.len() == 0 {
        assert(a =~= b);
    } else if a.len() == 0 || b.len() == 0 {
    } else {
        lemma_lex_trichotomy(a.drop_first(), b.drop_first());
        if a[0] == b[0] && a.drop_first() == b.drop_first() {
            assert forall|j: int| 0 <= j < a.len() implies a[j] == b[j] by {
                if j >= 1 {
                    assert(a[j] == a.drop_first()[j - 1]);
                    assert(b[j] == b.drop_first()[j - 1]);
                }
            }
            assert(a =~= b);
        }
        if a == b {
            assert(a.drop_first() =~= b.drop_first());
        }
    }
}

/// Lexicographic order is transitive.
pub proof fn lemma_lex_trans(a: Seq<u8>, b: Seq<u8>, c: Seq<u8>)
    requires
        lex_lt(a, b),
        lex_lt(b, c),
    ensures
        lex_lt(a, c),
    decreases c.len(),
{
    if a.len() == 0 {
    } else {
        if a[0] == b[0] && b[0] == c[0] {
            lemma_lex_trans(a.drop_first(), b.drop_first(), c.drop_first());
        }
    }
}

/// If the first `i` bytes agree, the order is decided by the tails.
pub proof fn lemma_lex_common_prefix(a: Seq<u8>, b: Seq<u8>, i: int)
    requires
        0 <= i <= a.len(),
        0 <= i <= b.len(),
        forall|j: int| 0 <= j < i ==> a[j] == b[j],
    ensures
        lex_lt(a, b) == lex_lt(a.skip(i), b.skip(i)),
    decreases i,
{
    if i > 0 {
        assert(a.len() > 0 && b.len() > 0);
        assert(a[0] == b[0]);
        assert(a.drop_first().skip(i - 1) =~= a.skip(i));
        assert(b.drop_first().skip(i - 1) =~= b.skip(i));
        assert(forall|j: int|
            0 <= j < i - 1 ==> a.drop_first()[j] == b.drop_first()[j]);
        lemma_lex_common_prefix(a.drop_first(), b.drop_first(), i - 1);
    } else {
        assert(a.skip(0) =~= a);
        assert(b.skip(0) =~= b);
    }
}

/// Three-way comparison result for byte strings.
pub enum ByteOrd {
    Less,
    Equal,
    Greater,
}

/// Three-way lexicographic comparison of two byte strings.
pub fn lex_cmp(a: &Vec<u8>, b: &Vec<u8>) -> (r: ByteOrd)
    ensures
        r is Less <==> lex_lt(a@, b@),
        r is Equal <==> a@ == b@,
        r is Greater <==> lex_lt(b@, a@),
{
    let mut i: usize = 0;
    loop
        invariant
            0 <= i <= a@.len(),
            0 <= i <= b@.len(),
            forall|j: int| 0 <= j < i ==> a@[j] == b@[j],
        decreases a@.len() - i,
    {
        if i == a.len() && i == b.len() {
            proof {
                lemma_lex_trichotomy(a@, b@);
                assert(a@ =~= b@);
            }
            return ByteOrd::Equal;
        } else if i == a.len() {
            proof {
                lemma_lex_trichotomy(a@, b@);
                lemma_lex_common_prefix(a@, b@, i as int);
                assert(lex_lt(a@.skip(i as int), b@.skip(i as int)));
            }
            return ByteOrd::Less;
        } else if i == b.len() {
            proof {
                lemma_lex_trichotomy(a@, b@);
                lemma_lex_common_prefix(b@, a@, i as int);
                assert(lex_lt(b@.skip(i as int), a@.skip(i as int)));
            }
            return ByteOrd::Greater;
        } else if a[i] < b[i] {
            proof {
                lemma_lex_trichotomy(a@, b@);
                lemma_lex_common_prefix(a@, b@, i as int);
                assert(a@.skip(i as int)[0] < b@.skip(i as int)[0]);
            }
            return ByteOrd::Less;
        } else if a[i] > b[i] {
            proof {
                lemma_lex_trichotomy(a@, b@);
                lemma_lex_common_prefix(b@, a@, i as int);
                assert(b@.skip(i as int)[0] < a@.skip(i as int)[0]);
            }
            return ByteOrd::Greater;
        }
        i += 1;
    }
}

/// Byte-string equality.
pub fn bytes_eq(a: &Vec<u8>, b: &Vec<u8>) -> (r: bool)
    ensures
        r == (a@ == b@),
{
    if a.len() != b.len() {
        return false;
    }
    let n: usize = a.len();
    let mut i: usize = 0;
    while i < n
        invariant
            0 <= i <= n,
            n == a@.len(),
            n == b@.len(),
            forall|j: int| 0 <= j < i ==> a@[j] == b@[j],
        decreases n - i,
    {
        if a[i] != b[i] {
            return false;
        }
        i += 1;
    }
    proof {
        assert(a@ =~= b@);
    }
    true
}

/// True iff `a` begins with `p`.
pub open spec fn spec_starts_with(a: Seq<u8>, p: Seq<u8>) -> bool {
    a.len() >= p.len() && a.take(p.len() as int) == p
}

/// Prefix test on byte strings.
pub fn starts_with(a: &Vec<u8>, p: &Vec<u8>) -> (r: bool)
    ensures
        r == spec_starts_with(a@, p@),
{
    if a.len() < p.len() {
        return false;
    }
    let n: usize = p.len();
    let mut i: usize = 0;
    while i < n
        invariant
            0 <= i <= n,
            n == p@.len(),
            n <= a@.len(),
            forall|j: int| 0 <= j < i ==> a@[j] == p@[j],
        decreases n - i,
    {
        if a[i] != p[i] {
            proof {
                assert(a@.take(n as int)[i as int] != p@[i as int]);
            }
            return false;
        }
        i += 1;
    }
    proof {
        assert(a@.take(n as int) =~= p@);
    }
    true
}

/// Index of the first occurrence of `c` in `s`, or -1 if there is none.
pub open spec fn spec_find(s: Seq<u8>, c: u8) -> int
    decreases s.len(),
{
    if s.len() == 0 {
        -1
    } else if s[0] == c {
        0
    } else {
        let r = spec_find(s.drop_first(), c);
        if r == -1 {
            -1
        } else {
            r + 1
        }
    }
}

/// What [`spec_find`] returns: -1 when `c` does not occur, else the first
/// index holding `c`.
pub proof fn lemma_find_char(s: Seq<u8>, c: u8)
    ensures
        spec_find(s, c) == -1 ==> forall|j: int| 0 <= j < s.len() ==> s[j] != c,
        spec_find(s, c) != -1 ==> {
            let r = spec_find(s, c);
            &&& 0 <= r < s.len()
            &&& s[r] == c
            &&& forall|j: int| 0 <= j < r ==> s[j] != c
        },
    decreases s.len(),
{
    if s.len() > 0 && s[0] != c {
        lemma_find_char(s.drop_first(), c);
        let r = spec_find(s, c);
        if r == -1 {
            assert forall|j: int| 0 <= j < s.len() implies s[j] != c by {
                if j >= 1 {
                    assert(s.drop_first()[j - 1] != c);
                }
            }
        } else {
            assert(s[r] == s.drop_first()[r - 1]);
            assert forall|j: int| 0 <= j < r implies s[j] != c by {
                if j >= 1 {
                    assert(s.drop_first()[j - 1] != c);
                }
            }
        }
    }
}

/// Find the first occurrence of `c` in `s` at or after `from`.
pub fn find_byte_from(s: &[u8], c: u8, from: usize) -> (r: Option<usize>)
    requires
        from <= s@.len(),
    ensures
        match r {
            Some(i) => from <= i < s@.len() && spec_find(s@.skip(from as int), c) == i - from,
            None => spec_find(s@.skip(from as int), c) == -1,
        },
{
    proof {
        lemma_find_char(s@.skip(from as int), c);
    }
    let n: usize = s.len();
    let mut i: usize = from;
    while i < n
        invariant
            from <= i <= n,
            n == s@.len(),
            forall|j: int| from <= j < i ==> s@[j] != c,
        decreases n - i,
    {
        if s[i] == c {
            proof {
                lemma_find_char(s@.skip(from as int), c);
                let r = spec_find(s@.skip(from as int), c);
                assert(s@.skip(from as int)[i - from] == c);
                if r == -1 {
                    assert(false);
                } else {
                    if r < i - from {
                        assert(s@[r + from] == c);
                        assert(false);
                    }
                    if r > i - from {
                        assert(s@.skip(from as int)[i - from] != c);
                        assert(false);
                    }
                }
            }
            return Some(i);
        }
        i += 1;
    }
    proof {
        lemma_find_char(s@.skip(from as int), c);
        let r = spec_find(s@.skip(from as int), c);
        if r != -1 {
            assert(s@[r + from] == c);
            assert(false);
        }
    }
    None
}

/// Index just after the last occurrence of `c` in `s`, or 0 if none occurs.
pub open spec fn spec_after_last(s: Seq<u8>, c: u8) -> int
    decreases s.len(),
{
    if s.len() == 0 {
        0
    } else if s.last() == c {
        s.len() as int
    } else {
        spec_after_last(s.drop_last(), c)
    }
}

/// What [`spec_after_last`] returns: 0 when `c` does not occur, else one
/// past its last index.
pub proof fn lemma_after_last(s: Seq<u8>, c: u8)
    ensures
        0 <= spec_after_last(s, c) <= s.len(),
        spec_after_last(s, c) == 0 ==> forall|j: int| 0 <= j < s.len() ==> s[j] != c,
        spec_after_last(s, c) > 0 ==> {
            let r = spec_after_last(s, c);
            &&& s[r - 1] == c
            &&& forall|j: int| r <= j < s.len() ==> s[j] != c
        },
    decreases s.len(),
{
    if s.len() > 0 && s.last() != c {
        lemma_after_last(s.drop_last(), c);
        let r = spec_after_last(s, c);
        if r == 0 {
            assert forall|j: int| 0 <= j < s.len() implies s[j] != c by {
                if j < s.len() - 1 {
                    assert(s.drop_last()[j] != c);
                }
            }
        } else {
            assert(s[r - 1] == s.drop_last()[r - 1]);
            assert forall|j: int| r <= j < s.len() implies s[j] != c by {
                if j < s.len() - 1 {
                    assert(s.drop_last()[j] != c);
                }
            }
        }
    }
}

/// One past the last occurrence of `c` in `s[from..to]`, as an absolute
/// index; `from` when `c` does not occur there.
pub fn after_last_byte(s: &[u8], c: u8, from: usize, to: usize) -> (r: usize)
    requires
        from <= to <= s@.len(),
    ensures
        r - from == spec_after_last(s@.subrange(from as int, to as int), c),
        from <= r <= to,
{
    proof {
        lemma_after_last(s@.subrange(from as int, to as int), c);
    }
    let ghost sub = s@.subrange(from as int, to as int);
    let mut r: usize = from;
    let mut j: usize = from;
    while j < to
        invariant
            from <= j <= to,
            from <= r <= j,
            to <= s@.len(),
            sub == s@.subrange(from as int, to as int),
            r > from ==> s@[r - 1] == c,
            forall|k: int| r <= k < j ==> s@[k] != c,
        decreases to - j,
    {
        if s[j] == c {
            r = j + 1;
        }
        j += 1;
    }
    proof {
        let sr = spec_after_last(sub, c);
        if r == from {
            if sr > 0 {
                assert(sub[sr - 1] == c);
                assert(s@[from + sr - 1] == c);
                assert(false);
            }
        } else {
            if sr == 0 {
                assert(sub[r - from - 1] == s@[r - 1]);
                assert(false);
            } else if sr < r - from {
                assert(sub[r - from - 1] == s@[r - 1]);
                assert(false);
            } else if sr > r - from {
                assert(sub[sr - 1] == s@[from + sr - 1]);
                assert(false);
            }
        }
    }
    r
}

/// Split `s` at every occurrence of `c`.  The result always has one more
/// piece than `s` has delimiters; pieces never contain `c`.
pub open spec fn spec_split(s: Seq<u8>, c: u8) -> Seq<Seq<u8>>
    decreases s.len(),
    via spec_split_decreases
{
    if spec_find(s, c) == -1 {
        seq![s]
    } else {
        let f = spec_find(s, c);
        seq![s.take(f)] + spec_split(s.skip(f + 1), c)
    }
}

#[via_fn]
proof fn spec_split_decreases(s: Seq<u8>, c: u8) {
    lemma_find_char(s, c);
}

/// Splitting `x + [c] + rest` peels off `x` when `x` is delimiter-free.
pub proof fn lemma_split_prepend(x: Seq<u8>, rest: Seq<u8>, c: u8)
    requires
        forall|j: int| 0 <= j < x.len() ==> x[j] != c,
    ensures
        spec_split(x + seq![c] + rest, c) == seq![x] + spec_split(rest, c),
{
    let s = x + seq![c] + rest;
    lemma_find_char(s, c);
    let f = spec_find(s, c);
    assert(s[x.len() as int] == c);
    if f == -1 {
        assert(false);
    }
    if f < x.len() {
        assert(s[f] == x[f]);
        assert(false);
    }
    if f > x.len() {
        assert(s[x.len() as int] != c);
        assert(false);
    }
    assert(s.take(f) =~= x);
    assert(s.skip(f + 1) =~= rest);
}

/// A delimiter-free sequence splits into itself alone.
pub proof fn lemma_split_single(x: Seq<u8>, c: u8)
    requires
        forall|j: int| 0 <= j < x.len() ==> x[j] != c,
    ensures
        spec_split(x, c) == seq![x],
{
    lemma_find_char(x, c);
    if spec_find(x, c) != -1 {
        assert(x[spec_find(x, c)] == c);
        assert(false);
    }
}

/// Split `s` at every occurrence of `c`.
pub fn split_bytes(s: &[u8], c: u8) -> (r: Vec<Vec<u8>>)
    ensures
        r.deep_view() == spec_split(s@, c),
{
    let mut res: Vec<Vec<u8>> = Vec::new();
    let n: usize = s.len();
    proof {
        assert(s@.skip(0) =~= s@);
        assert(res.deep_view() =~= Seq::<Seq<u8>>::empty());
        assert(Seq::<Seq<u8>>::empty() + spec_split(s@, c) =~= spec_split(s@, c));
    }
    let mut p: usize = 0;
    loop
        invariant
            0 <= p <= n,
            n == s@.len(),
            res.deep_view() + spec_split(s@.skip(p as int), c) == spec_split(s@, c),
        decreases n - p,
    {
        let ghost suf = s@.skip(p as int);
        match find_byte_from(s, c, p) {
            Some(i) => {
                let piece = vstd::slice::slice_to_vec(vstd::slice::slice_subrange(s, p, i));
                proof {
                    assert(piece@ =~= suf.take(i - p));
                }
                let ghost old_res = res.deep_view();
                res.push(piece);
                proof {
                    assert(res.deep_view() =~~= old_res + seq![suf.take(i - p)]);
                    assert(suf.skip(i - p + 1) =~= s@.skip(i + 1));
                    assert(spec_split(suf, c) == seq![suf.take(i - p)] + spec_split(
                        s@.skip(i + 1),
                        c,
                    ));
                    assert((old_res + seq![suf.take(i - p)]) + spec_split(s@.skip(i + 1), c)
                        =~= old_res + (seq![suf.take(i - p)] + spec_split(s@.skip(i + 1), c)));
                }
                p = i + 1;
            },
            None => {
                let piece = vstd::slice::slice_to_vec(vstd::slice::slice_subrange(s, p, n));
                proof {
                    assert(piece@ =~= suf);
                    assert(spec_split(suf, c) == seq![suf]);
                }
                let ghost old_res = res.deep_view();
                res.push(piece);
                proof {
                    assert(res.deep_view() =~~= old_res + seq![suf]);
                    assert(old_res + seq![suf] =~= (old_res + spec_split(suf, c)));
                }
                return res;
            },
        }
    }
}

/// A copy of a byte vector.
pub fn clone_bytes(v: &Vec<u8>) -> (r: Vec<u8>)
    ensures
        r@ == v@,
{
    vstd::slice::slice_to_vec(v.as_slice())
}

/// Append all of `src` to `dst`.
pub fn push_all(dst: &mut Vec<u8>, src: &[u8])
    ensures
        final(dst)@ == old(dst)@ + src@,
{
    let n: usize = src.len();
    let mut i: usize = 0;
    while i < n
        invariant
            0 <= i <= n,
            n == src@.len(),
            dst@ == old(dst)@ + src@.take(i as int),
        decreases n - i,
    {
        dst.push(src[i]);
        proof {
            assert(old(dst)@ + src@.take(i as int) + seq![src@[i as int]] =~= old(dst)@
                + src@.take(i + 1));
        }
        i += 1;
    }
    proof {
        assert(src@.take(n as int) =~= src@);
    }
}

} // verus!
