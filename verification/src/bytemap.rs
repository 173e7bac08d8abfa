//! An ordered map from byte-string keys to byte-string values, kept as a
//! vector sorted by key.  Both the environment map and the trace are such
//! maps; their serialised forms depend on the key order, so the order is
//! part of the data model, not an implementation detail.

use vstd::prelude::*;
use crate::bytes::{lex_cmp, lex_lt, lemma_lex_trans, lemma_lex_trichotomy, ByteOrd};

verus! {

/// One key/value binding.
pub struct Entry {
    pub key: Vec<u8>,
    pub val: Vec<u8>,
}

/// The bindings of a map, as pairs of byte sequences.
pub open spec fn entry_pairs(entries: Seq<Entry>) -> Seq<(Seq<u8>, Seq<u8>)> {
    Seq::new(entries.len(), |i: int| (entries[i].key@, entries[i].val@))
}

/// Keys strictly ascending between neighbours.
pub open spec fn sorted_pairs(s: Seq<(Seq<u8>, Seq<u8>)>) -> bool {
    forall|i: int| 0 <= i < s.len() - 1 ==> lex_lt(#[trigger] s[i].0, s[i + 1].0)
}

/// Neighbour-sortedness gives strict order between any two positions.
pub proof fn lemma_sorted_pairwise(s: Seq<(Seq<u8>, Seq<u8>)>, i: int, j: int)
    requires
        sorted_pairs(s),
        0 <= i < j < s.len(),
    ensures
        lex_lt(s[i].0, s[j].0),
    decreases j - i,
{
    if i + 1 == j {
    } else {
        lemma_sorted_pairwise(s, i, j - 1);
        lemma_lex_trans(s[i].0, s[j - 1].0, s[j].0);
    }
}

/// The map after binding `k` to `v`, replacing any previous binding.
pub open spec fn spec_insert(
    s: Seq<(Seq<u8>, Seq<u8>)>,
    k: Seq<u8>,
    v: Seq<u8>,
) -> Seq<(Seq<u8>, Seq<u8>)>
    decreases s.len(),
{
    if s.len() == 0 {
        seq![(k, v)]
    } else if lex_lt(k, s[0].0) {
        seq![(k, v)] + s
    } else if k == s[0].0 {
        seq![(k, v)] + s.drop_first()
    } else {
        seq![s[0]] + spec_insert(s.drop_first(), k, v)
    }
}

/// The map after binding `k` to `v` only if `k` is not bound yet.
pub open spec fn spec_insert_absent(
    s: Seq<(Seq<u8>, Seq<u8>)>,
    k: Seq<u8>,
    v: Seq<u8>,
) -> Seq<(Seq<u8>, Seq<u8>)>
    decreases s.len(),
{
    if s.len() == 0 {
        seq![(k, v)]
    } else if lex_lt(k, s[0].0) {
        seq![(k, v)] + s
    } else if k == s[0].0 {
        s
    } else {
        seq![s[0]] + spec_insert_absent(s.drop_first(), k, v)
    }
}

/// The value bound to `k`, if any.
pub open spec fn spec_get(s: Seq<(Seq<u8>, Seq<u8>)>, k: Seq<u8>) -> Option<Seq<u8>>
    decreases s.len(),
{
    if s.len() == 0 {
        None
    } else if s[0].0 == k {
        Some(s[0].1)
    } else {
        spec_get(s.drop_first(), k)
    }
}

/// The map without any binding for `k`.
pub open spec fn spec_remove(s: Seq<(Seq<u8>, Seq<u8>)>, k: Seq<u8>) -> Seq<(Seq<u8>, Seq<u8>)>
    decreases s.len(),
{
    if s.len() == 0 {
        s
    } else if s[0].0 == k {
        s.drop_first()
    } else {
        seq![s[0]] + spec_remove(s.drop_first(), k)
    }
}

/// Where an insertion lands: if all keys before `i` are below `k` and the
/// key at `i` (if any) is not, the insertion rewrites the map at `i`.
pub proof fn lemma_insert_at(s: Seq<(Seq<u8>, Seq<u8>)>, k: Seq<u8>, v: Seq<u8>, i: int)
    requires
        0 <= i <= s.len(),
        forall|j: int| 0 <= j < i ==> lex_lt(#[trigger] s[j].0, k),
        i < s.len() ==> !lex_lt(s[i].0, k),
    ensures
        i < s.len() && s[i].0 == k ==> spec_insert(s, k, v) == s.take(i) + seq![(k, v)] + s.skip(
            i + 1,
        ) && spec_insert_absent(s, k, v) == s,
        !(i < s.len() && s[i].0 == k) ==> spec_insert(s, k, v) == s.take(i) + seq![(k, v)]
            + s.skip(i) && spec_insert_absent(s, k, v) == s.take(i) + seq![(k, v)] + s.skip(i),
    decreases i,
{
    if i == 0 {
        if s.len() == 0 {
            assert(s.take(0) + seq![(k, v)] + s.skip(0) =~= seq![(k, v)]);
        } else {
            lemma_lex_trichotomy(k, s[0].0);
            if lex_lt(k, s[0].0) {
                assert(s.take(0) + seq![(k, v)] + s.skip(0) =~= seq![(k, v)] + s);
            } else if k == s[0].0 {
                assert(s.take(0) + seq![(k, v)] + s.skip(1) =~= seq![(k, v)] + s.drop_first());
            } else {
                assert(false);
            }
        }
    } else {
        lemma_lex_trichotomy(k, s[0].0);
        assert(lex_lt(s[0].0, k));
        lemma_insert_at(s.drop_first(), k, v, i - 1);
        let d = s.drop_first();
        assert(forall|j: int| 0 <= j < i - 1 ==> lex_lt(#[trigger] d[j].0, k));
        if i < s.len() && s[i].0 == k {
            assert(d[i - 1].0 == k);
            assert(s.take(i) + seq![(k, v)] + s.skip(i + 1) =~= seq![s[0]] + (d.take(i - 1)
                + seq![(k, v)] + d.skip(i)));
            assert(seq![s[0]] + d =~= s);
        } else {
            assert(s.take(i) + seq![(k, v)] + s.skip(i) =~= seq![s[0]] + (d.take(i - 1)
                + seq![(k, v)] + d.skip(i - 1)));
        }
    }
}

/// Inserting a key above every present key appends the binding.
pub proof fn lemma_insert_append(s: Seq<(Seq<u8>, Seq<u8>)>, k: Seq<u8>, v: Seq<u8>)
    requires
        forall|j: int| 0 <= j < s.len() ==> lex_lt(#[trigger] s[j].0, k),
    ensures
        spec_insert(s, k, v) == s + seq![(k, v)],
        spec_insert_absent(s, k, v) == s + seq![(k, v)],
{
    lemma_insert_at(s, k, v, s.len() as int);
    assert(s.take(s.len() as int) + seq![(k, v)] + s.skip(s.len() as int) =~= s + seq![(k, v)]);
}

/// An ordered byte-string map.  The invariant [`ByteMap::wf`] (keys
/// strictly ascending) is established by every constructor and preserved
/// by every method.
pub struct ByteMap {
    entries: Vec<Entry>,
}

impl ByteMap {
    /// The bindings, in key order.
    pub closed spec fn pairs(&self) -> Seq<(Seq<u8>, Seq<u8>)> {
        entry_pairs(self.entries@)
    }

    /// Keys strictly ascending.
    pub open spec fn wf(&self) -> bool {
        sorted_pairs(self.pairs())
    }

    /// The empty map.
    pub fn new() -> (r: ByteMap)
        ensures
            r.wf(),
            r.pairs() == Seq::<(Seq<u8>, Seq<u8>)>::empty(),
    {
        let r = ByteMap { entries: Vec::new() };
        proof {
            assert(r.pairs() =~= Seq::<(Seq<u8>, Seq<u8>)>::empty());
        }
        r
    }

    /// The number of bindings.
    pub fn len(&self) -> (r: usize)
        ensures
            r == self.pairs().len(),
    {
        self.entries.len()
    }

    /// The key of the `i`-th binding.
    pub fn key_at(&self, i: usize) -> (r: &Vec<u8>)
        requires
            i < self.pairs().len(),
        ensures
            r@ == self.pairs()[i as int].0,
    {
        &self.entries[i].key
    }

    /// The value of the `i`-th binding.
    pub fn val_at(&self, i: usize) -> (r: &Vec<u8>)
        requires
            i < self.pairs().len(),
        ensures
            r@ == self.pairs()[i as int].1,
    {
        &self.entries[i].val
    }

    /// The value bound to `k`, if any.
    pub fn get(&self, k: &Vec<u8>) -> (r: Option<&Vec<u8>>)
        ensures
            match r {
                Some(v) => spec_get(self.pairs(), k@) == Some(v@),
                None => spec_get(self.pairs(), k@) is None,
            },
    {
        let n: usize = self.entries.len();
        let mut i: usize = 0;
        proof {
            assert(self.pairs().skip(0) =~= self.pairs());
        }
        while i < n
            invariant
                0 <= i <= n,
                n == self.pairs().len(),
                spec_get(self.pairs().skip(i as int), k@) == spec_get(self.pairs(), k@),
            decreases n - i,
        {
            let ghost suf = self.pairs().skip(i as int);
            if crate::bytes::bytes_eq(&self.entries[i].key, k) {
                proof {
                    assert(suf[0] == self.pairs()[i as int]);
                    assert(spec_get(suf, k@) == Some(suf[0].1));
                }
                return Some(&self.entries[i].val);
            }
            proof {
                assert(suf[0] == self.pairs()[i as int]);
                assert(suf.drop_first() =~= self.pairs().skip(i + 1));
                assert(spec_get(suf, k@) == spec_get(self.pairs().skip(i + 1), k@));
            }
            i += 1;
        }
        proof {
            assert(self.pairs().skip(n as int) =~= Seq::<(Seq<u8>, Seq<u8>)>::empty());
        }
        None
    }

    /// True iff `k` is bound.
    pub fn contains_key(&self, k: &Vec<u8>) -> (r: bool)
        ensures
            r == (spec_get(self.pairs(), k@) is Some),
    {
        match self.get(k) {
            Some(_) => true,
            None => false,
        }
    }

    /// Where `k` belongs: the first position whose key is not below `k`.
    fn find_slot(&self, k: &Vec<u8>) -> (r: usize)
        requires
            self.wf(),
        ensures
            r <= self.pairs().len(),
            forall|j: int| 0 <= j < r ==> lex_lt(#[trigger] self.pairs()[j].0, k@),
            r < self.pairs().len() ==> !lex_lt(self.pairs()[r as int].0, k@),
    {
        let n: usize = self.entries.len();
        let mut i: usize = 0;
        while i < n
            invariant
                0 <= i <= n,
                n == self.pairs().len(),
                forall|j: int| 0 <= j < i ==> lex_lt(#[trigger] self.pairs()[j].0, k@),
            decreases n - i,
        {
            match lex_cmp(&self.entries[i].key, k) {
                ByteOrd::Less => {
                    proof {
                        assert(self.pairs()[i as int].0 == self.entries[i as int].key@);
                    }
                },
                _ => {
                    proof {
                        assert(self.pairs()[i as int].0 == self.entries[i as int].key@);
                        lemma_lex_trichotomy(self.pairs()[i as int].0, k@);
                    }
                    return i;
                },
            }
            i += 1;
        }
        n
    }

    /// Bind `k` to `v`, replacing any previous binding.
    pub fn insert(&mut self, k: Vec<u8>, v: Vec<u8>)
        requires
            old(self).wf(),
        ensures
            final(self).wf(),
            final(self).pairs() == spec_insert(old(self).pairs(), k@, v@),
    {
        let ghost s = self.pairs();
        let i = self.find_slot(&k);
        proof {
            lemma_insert_at(s, k@, v@, i as int);
        }
        let replace = i < self.entries.len() && crate::bytes::bytes_eq(&self.entries[i].key, &k);
        if replace {
            self.entries.remove(i);
            self.entries.insert(i, Entry { key: k, val: v });
            proof {
                assert(self.pairs() =~= s.take(i as int) + seq![(k@, v@)] + s.skip(i + 1));
                lemma_insert_sorted_frame(s, k@, v@, i as int, self.pairs());
            }
        } else {
            self.entries.insert(i, Entry { key: k, val: v });
            proof {
                assert(self.pairs() =~= s.take(i as int) + seq![(k@, v@)] + s.skip(i as int));
                lemma_insert_sorted_frame(s, k@, v@, i as int, self.pairs());
            }
        }
    }

    /// Bind `k` to `v` only if `k` is not bound yet.
    pub fn insert_absent(&mut self, k: Vec<u8>, v: Vec<u8>)
        requires
            old(self).wf(),
        ensures
            final(self).wf(),
            final(self).pairs() == spec_insert_absent(old(self).pairs(), k@, v@),
    {
        let ghost s = self.pairs();
        let i = self.find_slot(&k);
        proof {
            lemma_insert_at(s, k@, v@, i as int);
        }
        let present = i < self.entries.len() && crate::bytes::bytes_eq(&self.entries[i].key, &k);
        if !present {
            self.entries.insert(i, Entry { key: k, val: v });
            proof {
                assert(self.pairs() =~= s.take(i as int) + seq![(k@, v@)] + s.skip(i as int));
                lemma_insert_sorted_frame(s, k@, v@, i as int, self.pairs());
            }
        }
    }

    /// Drop the binding for `k`, returning its value if it was bound.
    pub fn remove_key(&mut self, k: &Vec<u8>) -> (r: Option<Vec<u8>>)
        requires
            old(self).wf(),
        ensures
            final(self).wf(),
            final(self).pairs() == spec_remove(old(self).pairs(), k@),
            match r {
                Some(v) => spec_get(old(self).pairs(), k@) == Some(v@),
                None => spec_get(old(self).pairs(), k@) is None,
            },
    {
        let ghost s = self.pairs();
        let i = self.find_slot(k);
        proof {
            lemma_remove_at(s, k@, i as int);
        }
        let present = i < self.entries.len() && crate::bytes::bytes_eq(&self.entries[i].key, k);
        if present {
            let e = self.entries.remove(i);
            proof {
                assert(self.pairs() =~= s.take(i as int) + s.skip(i + 1));
                assert forall|j: int| 0 <= j < self.pairs().len() - 1 implies lex_lt(
                    #[trigger] self.pairs()[j].0,
                    self.pairs()[j + 1].0,
                ) by {
                    if j < i {
                        if j + 1 < i {
                            assert(self.pairs()[j] == s[j] && self.pairs()[j + 1] == s[j + 1]);
                        } else {
                            assert(self.pairs()[j] == s[j] && self.pairs()[j + 1] == s[j + 2]);
                            lemma_sorted_pairwise(s, j, j + 2);
                        }
                    } else {
                        assert(self.pairs()[j] == s[j + 1] && self.pairs()[j + 1] == s[j + 2]);
                    }
                }
            }
            Some(e.val)
        } else {
            proof {
                assert(self.pairs() =~= s);
            }
            None
        }
    }
}

/// Rewriting a sorted map at the slot found for `k` keeps it sorted, and
/// the result is exactly what [`spec_insert`] describes.
proof fn lemma_insert_sorted_frame(
    s: Seq<(Seq<u8>, Seq<u8>)>,
    k: Seq<u8>,
    v: Seq<u8>,
    i: int,
    r: Seq<(Seq<u8>, Seq<u8>)>,
)
    requires
        sorted_pairs(s),
        0 <= i <= s.len(),
        forall|j: int| 0 <= j < i ==> lex_lt(#[trigger] s[j].0, k),
        i < s.len() ==> !lex_lt(s[i].0, k),
        (i < s.len() && s[i].0 == k && r == s.take(i) + seq![(k, v)] + s.skip(i + 1)) || (!(i
            < s.len() && s[i].0 == k) && r == s.take(i) + seq![(k, v)] + s.skip(i)),
    ensures
        sorted_pairs(r),
{
    if i < s.len() && s[i].0 == k {
        assert forall|j: int| 0 <= j < r.len() - 1 implies lex_lt(
            #[trigger] r[j].0,
            r[j + 1].0,
        ) by {
            if j < i - 1 {
                assert(r[j] == s[j] && r[j + 1] == s[j + 1]);
            } else if j == i - 1 {
                assert(r[j] == s[j] && r[j + 1] == (k, v));
            } else if j == i {
                assert(r[j] == (k, v) && r[j + 1] == s[j + 1]);
                assert(lex_lt(s[i].0, s[i + 1].0));
            } else {
                assert(r[j] == s[j] && r[j + 1] == s[j + 1]);
            }
        }
    } else {
        lemma_lex_trichotomy(k, if i < s.len() {
            s[i].0
        } else {
            k
        });
        assert forall|j: int| 0 <= j < r.len() - 1 implies lex_lt(
            #[trigger] r[j].0,
            r[j + 1].0,
        ) by {
            if j < i - 1 {
                assert(r[j] == s[j] && r[j + 1] == s[j + 1]);
            } else if j == i - 1 {
                assert(r[j] == s[j] && r[j + 1] == (k, v));
            } else if j == i {
                assert(r[j] == (k, v));
                if i < s.len() {
                    assert(r[j + 1] == s[i]);
                    assert(lex_lt(k, s[i].0));
                }
            } else {
                assert(r[j] == s[j - 1] && r[j + 1] == s[j]);
            }
        }
    }
}

/// Where a removal lands, in the same style as [`lemma_insert_at`].
proof fn lemma_remove_at(s: Seq<(Seq<u8>, Seq<u8>)>, k: Seq<u8>, i: int)
    requires
        sorted_pairs(s),
        0 <= i <= s.len(),
        forall|j: int| 0 <= j < i ==> lex_lt(#[trigger] s[j].0, k),
        i < s.len() ==> !lex_lt(s[i].0, k),
    ensures
        i < s.len() && s[i].0 == k ==> spec_remove(s, k) == s.take(i) + s.skip(i + 1)
            && spec_get(s, k) == Some(s[i].1),
        !(i < s.len() && s[i].0 == k) ==> spec_remove(s, k) == s && spec_get(s, k) is None,
    decreases i,
{
    if i == 0 {
        if s.len() == 0 {
        } else {
            lemma_lex_trichotomy(k, s[0].0);
            if s[0].0 == k {
                assert(s.take(0) + s.skip(1) =~= s.drop_first());
            } else {
                assert(lex_lt(k, s[0].0));
                assert forall|j: int| 0 <= j < s.len() implies s[j].0 != k by {
                    if j > 0 {
                        lemma_sorted_pairwise(s, 0, j);
                        lemma_lex_trans(k, s[0].0, s[j].0);
                        lemma_lex_trichotomy(k, s[j].0);
                    }
                }
                lemma_remove_absent(s, k);
            }
        }
    } else {
        lemma_lex_trichotomy(k, s[0].0);
        assert(lex_lt(s[0].0, k));
        let d = s.drop_first();
        assert forall|j: int| 0 <= j < d.len() - 1 implies lex_lt(
            #[trigger] d[j].0,
            d[j + 1].0,
        ) by {
            assert(d[j] == s[j + 1] && d[j + 1] == s[j + 2]);
        }
        lemma_remove_at(d, k, i - 1);
        assert(forall|j: int| 0 <= j < i - 1 ==> lex_lt(#[trigger] d[j].0, k));
        if i < s.len() && s[i].0 == k {
            assert(d[i - 1].0 == k);
            assert(s.take(i) + s.skip(i + 1) =~= seq![s[0]] + (d.take(i - 1) + d.skip(i)));
        } else {
            assert(seq![s[0]] + d =~= s);
        }
    }
}

/// A key bound nowhere is left alone by removal and unseen by lookup.
proof fn lemma_remove_absent(s: Seq<(Seq<u8>, Seq<u8>)>, k: Seq<u8>)
    requires
        forall|j: int| 0 <= j < s.len() ==> (#[trigger] s[j]).0 != k,
    ensures
        spec_remove(s, k) == s,
        spec_get(s, k) is None,
    decreases s.len(),
{
    if s.len() > 0 {
        let d = s.drop_first();
        assert forall|j: int| 0 <= j < d.len() implies (#[trigger] d[j]).0 != k by {
            assert(d[j] == s[j + 1]);
        }
        lemma_remove_absent(d, k);
        assert(seq![s[0]] + d =~= s);
    }
}

} // verus!
