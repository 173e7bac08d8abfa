//! Helpers for using ASCII string literals as byte strings.
//!
//! All paths, environment entries and command-line arguments in this crate
//! are raw byte strings (`Vec<u8>`), but the well-known constant names
//! (option names, environment variable names, URI prefixes) are naturally
//! written as string literals.  These helpers turn an ASCII `&str` into its
//! byte sequence, with the spec-level value given by [`lit`].

use vstd::prelude::*;

verus! {

/// The byte sequence of a sequence of ASCII characters, one byte per char.
pub open spec fn ascii_seq(cs: Seq<char>) -> Seq<u8> {
    Seq::new(cs.len(), |i: int| cs[i] as u8)
}

/// The byte sequence denoted by an ASCII string literal.
pub open spec fn lit(s: &str) -> Seq<u8> {
    ascii_seq(s@)
}

/// The bytes of an ASCII string, as a fresh vector.
pub fn lit_bytes(s: &str) -> (r: Vec<u8>)
    requires
        vstd::string::is_ascii(s),
    ensures
        r@ == lit(s),
{
    let b: &[u8] = s.as_bytes();
    proof {
        vstd::string::is_ascii_spec_bytes(s);
        assert(b@ =~= lit(s));
    }
    vstd::slice::slice_to_vec(b)
}

/// True iff the byte string `a` equals the ASCII literal `s`.
pub fn bytes_is(a: &[u8], s: &str) -> (r: bool)
    requires
        vstd::string::is_ascii(s),
    ensures
        r == (a@ == lit(s)),
{
    let b: &[u8] = s.as_bytes();
    proof {
        vstd::string::is_ascii_spec_bytes(s);
        assert(b@ =~= lit(s));
    }
    if a.len() != b.len() {
        proof {
            assert(a@.len() != lit(s).len());
        }
        return false;
    }
    let n: usize = a.len();
    let mut i: usize = 0;
    while i < n
        invariant
            0 <= i <= n,
            n == a@.len(),
            n == b@.len(),
            b@ == lit(s),
            forall|j: int| 0 <= j < i ==> a@[j] == b@[j],
        decreases n - i,
    {
        if a[i] != b[i] {
            proof {
                assert(a@[i as int] != lit(s)[i as int]);
            }
            return false;
        }
        i += 1;
    }
    proof {
        assert(a@ =~= lit(s));
    }
    true
}

/// True iff the byte string `a` begins with the ASCII literal `s`.
pub fn bytes_starts_with_lit(a: &[u8], s: &str) -> (r: bool)
    requires
        vstd::string::is_ascii(s),
    ensures
        r == (a@.len() >= lit(s).len() && a@.take(lit(s).len() as int) == lit(s)),
{
    let b: &[u8] = s.as_bytes();
    proof {
        vstd::string::is_ascii_spec_bytes(s);
        assert(b@ =~= lit(s));
    }
    if a.len() < b.len() {
        return false;
    }
    let n: usize = b.len();
    let mut i: usize = 0;
    while i < n
        invariant
            0 <= i <= n,
            n == b@.len(),
            n <= a@.len(),
            b@ == lit(s),
            forall|j: int| 0 <= j < i ==> a@[j] == b@[j],
        decreases n - i,
    {
        if a[i] != b[i] {
            proof {
                assert(a@.take(lit(s).len() as int)[i as int] != lit(s)[i as int]);
            }
            return false;
        }
        i += 1;
    }
    proof {
        assert(a@.take(lit(s).len() as int) =~= lit(s));
    }
    true
}

} // verus!
