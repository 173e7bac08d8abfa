//! The input fingerprint: a digest over the normalised environment, the
//! normalised argument list and the working directory, with
//! length-prefixed framing so that no two distinct inputs share a
//! pre-image.

use vstd::prelude::*;
use crate::env::{spec_serialize_env, EnvMap};
use crate::trace::{blake3_hex, blake3_hex_of, is_hex_digit_byte};

verus! {

/// The decimal digits of `n`, most significant first.
pub open spec fn spec_decimal(n: nat) -> Seq<u8>
    decreases n,
{
    if n < 10 {
        seq![(48 + n) as u8]
    } else {
        spec_decimal(n / 10).push((48 + n % 10) as u8)
    }
}

/// Append the decimal digits of `n`.
pub fn push_decimal(n: usize, out: &mut Vec<u8>)
    ensures
        final(out)@ == old(out)@ + spec_decimal(n as nat),
    decreases n,
{
    if n < 10 {
        out.push(48 + (n as u8));
        proof {
            assert(old(out)@ + seq![(48 + n) as u8] =~= old(out)@.push((48 + n) as u8));
        }
    } else {
        push_decimal(n / 10, out);
        out.push(48 + ((n % 10) as u8));
        proof {
            assert((old(out)@ + spec_decimal((n / 10) as nat)).push((48 + n % 10) as u8)
                =~= old(out)@ + spec_decimal((n / 10) as nat).push((48 + n % 10) as u8));
        }
    }
}

/// The serialised argument list: each argument followed by a NUL.
pub open spec fn spec_serialize_args(args: Seq<Seq<u8>>) -> Seq<u8>
    decreases args.len(),
{
    if args.len() == 0 {
        Seq::empty()
    } else {
        args[0] + seq![0u8] + spec_serialize_args(args.drop_first())
    }
}

/// Serialisation restated from the back, as the writing loop proceeds.
proof fn lemma_serialize_args_snoc(args: Seq<Seq<u8>>, x: Seq<u8>)
    ensures
        spec_serialize_args(args.push(x)) == spec_serialize_args(args) + (x + seq![0u8]),
    decreases args.len(),
{
    if args.len() == 0 {
        assert(args.push(x)[0] == x);
        assert(args.push(x).drop_first() =~= Seq::<Seq<u8>>::empty());
        assert(spec_serialize_args(Seq::<Seq<u8>>::empty()) == Seq::<u8>::empty());
        assert(x + seq![0u8] + Seq::<u8>::empty() =~= x + seq![0u8]);
        assert(Seq::<u8>::empty() + (x + seq![0u8]) =~= x + seq![0u8]);
    } else {
        assert(args.push(x).drop_first() =~= args.drop_first().push(x));
        lemma_serialize_args_snoc(args.drop_first(), x);
        assert((args[0] + seq![0u8]) + (spec_serialize_args(args.drop_first()) + (x + seq![0u8]))
            =~= ((args[0] + seq![0u8]) + spec_serialize_args(args.drop_first())) + (x + seq![
            0u8,
        ]));
        assert(spec_serialize_args(args) =~= (args[0] + seq![0u8]) + spec_serialize_args(
            args.drop_first(),
        ));
    }
}

/// Serialise an argument list, NUL after each argument.
pub fn serialize_args(args: &Vec<Vec<u8>>) -> (r: Vec<u8>)
    ensures
        r@ == spec_serialize_args(args.deep_view()),
{
    let ghost av = args.deep_view();
    let mut out: Vec<u8> = Vec::new();
    proof {
        assert(av.take(0) =~= Seq::<Seq<u8>>::empty());
        assert(out@ =~= spec_serialize_args(av.take(0)));
    }
    let n: usize = args.len();
    let mut i: usize = 0;
    while i < n
        invariant
            0 <= i <= n,
            n == av.len(),
            av == args.deep_view(),
            out@ == spec_serialize_args(av.take(i as int)),
        decreases n - i,
    {
        proof {
            assert(args[i as int]@ =~= av[i as int]);
        }
        crate::bytes::push_all(&mut out, args[i].as_slice());
        out.push(0);
        proof {
            lemma_serialize_args_snoc(av.take(i as int), av[i as int]);
            assert(av.take(i + 1) =~= av.take(i as int).push(av[i as int]));
            assert(out@ =~= spec_serialize_args(av.take(i as int)) + (av[i as int] + seq![0u8]));
        }
        i += 1;
    }
    proof {
        assert(av.take(n as int) =~= av);
    }
    out
}

/// Length-prefixed framing: `<len>\0<bytes>` per field, which no pair of
/// distinct field lists can collide on.
pub open spec fn spec_serialize_vecs(vs: Seq<Seq<u8>>) -> Seq<u8>
    decreases vs.len(),
{
    if vs.len() == 0 {
        Seq::empty()
    } else {
        spec_decimal(vs[0].len()) + seq![0u8] + vs[0] + spec_serialize_vecs(vs.drop_first())
    }
}

/// Framing restated from the back, as the writing loop proceeds.
proof fn lemma_serialize_vecs_snoc(vs: Seq<Seq<u8>>, x: Seq<u8>)
    ensures
        spec_serialize_vecs(vs.push(x)) == spec_serialize_vecs(vs) + (spec_decimal(x.len())
            + seq![0u8] + x),
    decreases vs.len(),
{
    let unit = spec_decimal(x.len()) + seq![0u8] + x;
    if vs.len() == 0 {
        assert(vs.push(x)[0] == x);
        assert(vs.push(x).drop_first() =~= Seq::<Seq<u8>>::empty());
        assert(spec_serialize_vecs(Seq::<Seq<u8>>::empty()) == Seq::<u8>::empty());
        assert(unit + Seq::<u8>::empty() =~= unit);
        assert(Seq::<u8>::empty() + unit =~= unit);
        assert(spec_serialize_vecs(vs.push(x)) =~= unit);
    } else {
        assert(vs.push(x).drop_first() =~= vs.drop_first().push(x));
        lemma_serialize_vecs_snoc(vs.drop_first(), x);
        let head = spec_decimal(vs[0].len()) + seq![0u8] + vs[0];
        assert(spec_serialize_vecs(vs.push(x)) =~= head + (spec_serialize_vecs(vs.drop_first())
            + unit));
        assert(head + (spec_serialize_vecs(vs.drop_first()) + unit) =~= (head
            + spec_serialize_vecs(vs.drop_first())) + unit);
        assert(spec_serialize_vecs(vs) =~= head + spec_serialize_vecs(vs.drop_first()));
    }
}

/// Serialise a list of byte strings with length-prefixed framing.
pub fn serialize_vecs(vecs: &Vec<Vec<u8>>) -> (r: Vec<u8>)
    ensures
        r@ == spec_serialize_vecs(vecs.deep_view()),
{
    let ghost vv = vecs.deep_view();
    let mut out: Vec<u8> = Vec::new();
    proof {
        assert(vv.take(0) =~= Seq::<Seq<u8>>::empty());
        assert(out@ =~= spec_serialize_vecs(vv.take(0)));
    }
    let n: usize = vecs.len();
    let mut i: usize = 0;
    while i < n
        invariant
            0 <= i <= n,
            n == vv.len(),
            vv == vecs.deep_view(),
            out@ == spec_serialize_vecs(vv.take(i as int)),
        decreases n - i,
    {
        proof {
            assert(vecs[i as int]@ =~= vv[i as int]);
        }
        push_decimal(vecs[i].len(), &mut out);
        out.push(0);
        crate::bytes::push_all(&mut out, vecs[i].as_slice());
        proof {
            lemma_serialize_vecs_snoc(vv.take(i as int), vv[i as int]);
            assert(vv.take(i + 1) =~= vv.take(i as int).push(vv[i as int]));
            assert(out@ =~= spec_serialize_vecs(vv.take(i as int)) + (spec_decimal(
                vv[i as int].len(),
            ) + seq![0u8] + vv[i as int]));
        }
        i += 1;
    }
    proof {
        assert(vv.take(n as int) =~= vv);
    }
    out
}

/// The fingerprint pre-image: serialised environment, serialised
/// arguments and working directory, each length-framed.
pub open spec fn spec_fingerprint_preimage(
    env: Seq<(Seq<u8>, Seq<u8>)>,
    args: Seq<Seq<u8>>,
    pwd: Seq<u8>,
) -> Seq<u8> {
    spec_serialize_vecs(seq![spec_serialize_env(env), spec_serialize_args(args), pwd])
}

/// The cache key for a set of inputs: the hex digest of the framed
/// pre-image.
pub open spec fn spec_fingerprint(
    env: Seq<(Seq<u8>, Seq<u8>)>,
    args: Seq<Seq<u8>>,
    pwd: Seq<u8>,
) -> Seq<u8> {
    blake3_hex_of(spec_fingerprint_preimage(env, args, pwd))
}

/// Compute the cache key of a set of inputs.  It depends on the
/// environment map, the strong argument list and the working directory
/// alone.
pub fn fingerprint(env: &EnvMap, args: &Vec<Vec<u8>>, pwd: &Vec<u8>) -> (r: Vec<u8>)
    ensures
        r@ == spec_fingerprint(env.pairs(), args.deep_view(), pwd@),
        r@.len() == 64,
        forall|i: int| 0 <= i < r@.len() ==> is_hex_digit_byte(#[trigger] r@[i]),
{
    let mut fields: Vec<Vec<u8>> = Vec::new();
    fields.push(crate::env::serialize_env(env));
    fields.push(serialize_args(args));
    fields.push(crate::bytes::clone_bytes(pwd));
    proof {
        assert(fields.deep_view() =~~= seq![
            spec_serialize_env(env.pairs()),
            spec_serialize_args(args.deep_view()),
            pwd@,
        ]);
    }
    let pre = serialize_vecs(&fields);
    blake3_hex(pre.as_slice())
}

} // verus!
