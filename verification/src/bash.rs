//! Deciding how an interpreter string may be handed to `exec`.
//!
//! A shebang interpreter that is a "literal bash string" can be executed
//! directly; anything else must be wrapped in `bash -c`.  [`quote`] builds a
//! single-quoted bash word for an arbitrary byte string.

use vstd::prelude::*;

verus! {

/// Bytes with a syntactic meaning to bash anywhere in a word:
/// tab, newline, space and `!"$&'()*,;<>?[\]^`{|}`.
pub open spec fn is_bash_special(c: u8) -> bool {
    ||| c == 9
    ||| c == 10
    ||| c == 32
    ||| c == 33
    ||| c == 34
    ||| c == 36
    ||| c == 38
    ||| c == 39
    ||| c == 40
    ||| c == 41
    ||| c == 42
    ||| c == 44
    ||| c == 59
    ||| c == 60
    ||| c == 62
    ||| c == 63
    ||| c == 91
    ||| c == 92
    ||| c == 93
    ||| c == 94
    ||| c == 96
    ||| c == 123
    ||| c == 124
    ||| c == 125
}

/// A byte string that bash passes through unchanged as a single word:
/// no special byte anywhere, none of `#`, `-`, `~` first, and no `~`
/// directly after `:` or `=` (where bash would expand a home directory).
pub open spec fn spec_is_literal_bash_string(s: Seq<u8>) -> bool {
    &&& forall|i: int| 0 <= i < s.len() ==> !is_bash_special(#[trigger] s[i])
    &&& s.len() > 0 ==> !(s[0] == 35 || s[0] == 45 || s[0] == 126)
    &&& forall|i: int|
        1 <= i < s.len() ==> !((s[i - 1] == 58 || s[i - 1] == 61) && #[trigger] s[i] == 126)
}

/// True iff `command` can be handed to `exec` as-is, with no bash
/// interpretation changing its meaning.
pub fn is_literal_bash_string(command: &[u8]) -> (r: bool)
    ensures
        r == spec_is_literal_bash_string(command@),
{
    let n: usize = command.len();
    let mut i: usize = 0;
    while i < n
        invariant
            0 <= i <= n,
            n == command@.len(),
            forall|j: int| 0 <= j < i ==> !is_bash_special(#[trigger] command@[j]),
            i > 0 ==> !(command@[0] == 35 || command@[0] == 45 || command@[0] == 126),
            forall|j: int|
                1 <= j < i ==> !((command@[j - 1] == 58 || command@[j - 1] == 61)
                    && #[trigger] command@[j] == 126),
        decreases n - i,
    {
        let c = command[i];
        if c == 9 || c == 10 || c == 32 || c == 33 || c == 34 || c == 36 || c == 38 || c == 39
            || c == 40 || c == 41 || c == 42 || c == 44 || c == 59 || c == 60 || c == 62
            || c == 63 || c == 91 || c == 92 || c == 93 || c == 94 || c == 96 || c == 123
            || c == 124 || c == 125 {
            return false;
        }
        if i == 0 && (c == 35 || c == 45 || c == 126) {
            return false;
        }
        if i > 0 && (command[i - 1] == 58 || command[i - 1] == 61) && c == 126 {
            return false;
        }
        i += 1;
    }
    true
}

/// The single-quoted form of one byte: `'` becomes `'\''`, all else is kept.
pub open spec fn quoted_byte(c: u8) -> Seq<u8> {
    if c == 39 {
        seq![39u8, 92u8, 39u8, 39u8]
    } else {
        seq![c]
    }
}

/// The body of [`quote`]'s result, between the outer quotes.
pub open spec fn spec_quote_body(s: Seq<u8>) -> Seq<u8>
    decreases s.len(),
{
    if s.len() == 0 {
        Seq::empty()
    } else {
        spec_quote_body(s.drop_last()) + quoted_byte(s.last())
    }
}

/// The single-quoted bash word for `arg`.
pub open spec fn spec_quote(s: Seq<u8>) -> Seq<u8> {
    seq![39u8] + spec_quote_body(s) + seq![39u8]
}

/// Quote an arbitrary byte string so that bash reads it back verbatim.
pub fn quote(arg: &[u8]) -> (r: Vec<u8>)
    ensures
        r@ == spec_quote(arg@),
{
    let mut result: Vec<u8> = Vec::new();
    result.push(39);
    let n: usize = arg.len();
    let mut i: usize = 0;
    while i < n
        invariant
            0 <= i <= n,
            n == arg@.len(),
            result@ == seq![39u8] + spec_quote_body(arg@.take(i as int)),
        decreases n - i,
    {
        let c = arg[i];
        if c == 39 {
            result.push(39);
            result.push(92);
            result.push(39);
            result.push(39);
        } else {
            result.push(c);
        }
        proof {
            assert(arg@.take(i + 1).drop_last() =~= arg@.take(i as int));
            assert(arg@.take(i + 1).last() == arg@[i as int]);
            assert(result@ =~= seq![39u8] + spec_quote_body(arg@.take(i + 1)));
        }
        i += 1;
    }
    result.push(39);
    proof {
        assert(arg@.take(n as int) =~= arg@);
        assert(result@ =~= spec_quote(arg@));
    }
    result
}

} // verus!
