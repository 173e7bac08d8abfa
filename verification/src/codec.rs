//! Shared pieces of the NUL-separated wire formats: dropping empty pieces,
//! pairing fields into records, folding records into an ordered map, and
//! the lemmas that make the round trips provable.

use vstd::prelude::*;
use crate::bytes::{lemma_find_char, lemma_split_prepend, lemma_split_single, lex_lt, spec_find,
    spec_split};
use crate::bytemap::{lemma_insert_append, lemma_sorted_pairwise, sorted_pairs, spec_insert,
    spec_insert_absent};

verus! {

/// The pieces of `ps` that are not empty, in order.
pub open spec fn spec_drop_empty(ps: Seq<Seq<u8>>) -> Seq<Seq<u8>>
    decreases ps.len(),
{
    if ps.len() == 0 {
        Seq::empty()
    } else if ps[0].len() == 0 {
        spec_drop_empty(ps.drop_first())
    } else {
        seq![ps[0]] + spec_drop_empty(ps.drop_first())
    }
}

/// Consecutive pieces paired up; a dangling odd piece is dropped.
pub open spec fn spec_pair_up(ps: Seq<Seq<u8>>) -> Seq<(Seq<u8>, Seq<u8>)>
    decreases ps.len(),
{
    if ps.len() < 2 {
        Seq::empty()
    } else {
        seq![(ps[0], ps[1])] + spec_pair_up(ps.skip(2))
    }
}

/// The records folded into a map, later bindings replacing earlier ones.
pub open spec fn spec_fold_insert(
    acc: Seq<(Seq<u8>, Seq<u8>)>,
    recs: Seq<(Seq<u8>, Seq<u8>)>,
) -> Seq<(Seq<u8>, Seq<u8>)>
    decreases recs.len(),
{
    if recs.len() == 0 {
        acc
    } else {
        spec_fold_insert(spec_insert(acc, recs[0].0, recs[0].1), recs.drop_first())
    }
}

/// The records folded into a map, earlier bindings kept over later ones.
pub open spec fn spec_fold_insert_absent(
    acc: Seq<(Seq<u8>, Seq<u8>)>,
    recs: Seq<(Seq<u8>, Seq<u8>)>,
) -> Seq<(Seq<u8>, Seq<u8>)>
    decreases recs.len(),
{
    if recs.len() == 0 {
        acc
    } else {
        spec_fold_insert_absent(
            spec_insert_absent(acc, recs[0].0, recs[0].1),
            recs.drop_first(),
        )
    }
}

/// Folding records whose keys continue an already sorted map appends them.
pub proof fn lemma_fold_insert_sorted(acc: Seq<(Seq<u8>, Seq<u8>)>, rest: Seq<(Seq<u8>, Seq<u8>)>)
    requires
        sorted_pairs(acc + rest),
    ensures
        spec_fold_insert(acc, rest) == acc + rest,
    decreases rest.len(),
{
    if rest.len() == 0 {
        assert(acc + rest =~= acc);
    } else {
        let whole = acc + rest;
        assert forall|j: int| 0 <= j < acc.len() implies lex_lt(
            (#[trigger] acc[j]).0,
            rest[0].0,
        ) by {
            assert(whole[j] == acc[j] && whole[acc.len() as int] == rest[0]);
            lemma_sorted_pairwise(whole, j, acc.len() as int);
        }
        lemma_insert_append(acc, rest[0].0, rest[0].1);
        assert((acc + seq![rest[0]]) + rest.drop_first() =~= acc + rest);
        lemma_fold_insert_sorted(acc + seq![rest[0]], rest.drop_first());
    }
}

/// Every piece [`spec_split`] yields is free of the delimiter.
pub proof fn lemma_split_pieces(s: Seq<u8>, c: u8)
    ensures
        forall|i: int, j: int|
            0 <= i < spec_split(s, c).len() && 0 <= j < spec_split(s, c)[i].len()
                ==> #[trigger] spec_split(s, c)[i][j] != c,
    decreases s.len(),
{
    lemma_find_char(s, c);
    let f = spec_find(s, c);
    if f == -1 {
        assert forall|i: int, j: int|
            0 <= i < spec_split(s, c).len() && 0 <= j < spec_split(s, c)[i].len() implies #[trigger]
            spec_split(s, c)[i][j] != c by {
            assert(spec_split(s, c)[i] == s);
        }
    } else {
        lemma_split_pieces(s.skip(f + 1), c);
        let rest = spec_split(s.skip(f + 1), c);
        assert forall|i: int, j: int|
            0 <= i < spec_split(s, c).len() && 0 <= j < spec_split(s, c)[i].len() implies #[trigger]
            spec_split(s, c)[i][j] != c by {
            if i == 0 {
                assert(spec_split(s, c)[0] == s.take(f));
                assert(s.take(f)[j] == s[j]);
            } else {
                assert(spec_split(s, c)[i] == rest[i - 1]);
            }
        }
    }
}

/// A record whose key and observation are non-empty and delimiter-free;
/// only such records can survive a serialise/load round trip.
pub open spec fn good_pair(p: (Seq<u8>, Seq<u8>)) -> bool {
    &&& p.0.len() > 0
    &&& forall|j: int| 0 <= j < p.0.len() ==> #[trigger] p.0[j] != 0
    &&& p.1.len() > 0
    &&& forall|j: int| 0 <= j < p.1.len() ==> #[trigger] p.1[j] != 0
}

/// All records of a map are good.
pub open spec fn all_good(s: Seq<(Seq<u8>, Seq<u8>)>) -> bool {
    forall|i: int| 0 <= i < s.len() ==> good_pair(#[trigger] s[i])
}

/// Insertion keeps every record good.
pub proof fn lemma_insert_good(s: Seq<(Seq<u8>, Seq<u8>)>, k: Seq<u8>, v: Seq<u8>)
    requires
        all_good(s),
        good_pair((k, v)),
    ensures
        all_good(spec_insert(s, k, v)),
        all_good(spec_insert_absent(s, k, v)),
    decreases s.len(),
{
    if s.len() == 0 {
    } else if lex_lt(k, s[0].0) {
        assert forall|i: int| 0 <= i < spec_insert(s, k, v).len() implies good_pair(
            #[trigger] spec_insert(s, k, v)[i],
        ) by {
            if i > 0 {
                assert(spec_insert(s, k, v)[i] == s[i - 1]);
            }
        }
        assert forall|i: int| 0 <= i < spec_insert_absent(s, k, v).len() implies good_pair(
            #[trigger] spec_insert_absent(s, k, v)[i],
        ) by {
            if i > 0 {
                assert(spec_insert_absent(s, k, v)[i] == s[i - 1]);
            }
        }
    } else if k == s[0].0 {
        assert forall|i: int| 0 <= i < spec_insert(s, k, v).len() implies good_pair(
            #[trigger] spec_insert(s, k, v)[i],
        ) by {
            if i > 0 {
                assert(spec_insert(s, k, v)[i] == s.drop_first()[i - 1]);
                assert(s.drop_first()[i - 1] == s[i]);
            }
        }
    } else {
        assert forall|i: int| 0 <= i < s.drop_first().len() implies good_pair(
            #[trigger] s.drop_first()[i],
        ) by {
            assert(s.drop_first()[i] == s[i + 1]);
        }
        lemma_insert_good(s.drop_first(), k, v);
        assert forall|i: int| 0 <= i < spec_insert(s, k, v).len() implies good_pair(
            #[trigger] spec_insert(s, k, v)[i],
        ) by {
            if i > 0 {
                assert(spec_insert(s, k, v)[i] == spec_insert(s.drop_first(), k, v)[i - 1]);
            }
        }
        assert forall|i: int| 0 <= i < spec_insert_absent(s, k, v).len() implies good_pair(
            #[trigger] spec_insert_absent(s, k, v)[i],
        ) by {
            if i > 0 {
                assert(spec_insert_absent(s, k, v)[i] == spec_insert_absent(
                    s.drop_first(),
                    k,
                    v,
                )[i - 1]);
            }
        }
    }
}

} // verus!
