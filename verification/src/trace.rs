//! The trace: what the traced `nix-shell` observed of the filesystem,
//! as an ordered, de-duplicated map from `tag ⨁ path` keys to observation
//! bytes, with its wire format and its revalidation predicate.

use vstd::prelude::*;
use crate::bytemap::{entry_pairs, sorted_pairs, spec_get, spec_insert, ByteMap, Entry};
use crate::bytes::{lemma_split_prepend, lemma_split_single, spec_split, split_bytes};
use crate::codec::{all_good, good_pair, lemma_fold_insert_sorted, lemma_insert_good,
    lemma_split_pieces, spec_drop_empty, spec_fold_insert, spec_pair_up};

verus! {

/// The hex digits `0-9a-f`.
pub open spec fn is_hex_digit_byte(c: u8) -> bool {
    (48 <= c && c <= 57) || (97 <= c && c <= 102)
}

/// The lowercase hex form of the 256-bit digest of a byte string.
pub uninterp spec fn blake3_hex_of(data: Seq<u8>) -> Seq<u8>;

/// Relies on `blake3::hash` and `blake3::Hash::to_hex`: the digest is a
/// function of the input bytes alone, and its hex form is 64 lowercase
/// hex digits.
#[verifier::external_body]
pub fn blake3_hex(data: &[u8]) -> (r: Vec<u8>)
    ensures
        r@ == blake3_hex_of(data@),
        r@.len() == 64,
        forall|i: int| 0 <= i < r@.len() ==> is_hex_digit_byte(#[trigger] r@[i]),
{
    blake3::hash(data).to_hex().as_str().as_bytes().to_vec()
}

/// The wire form of one record: `\0<key>\0<observation>`.
pub open spec fn trace_record_bytes(p: (Seq<u8>, Seq<u8>)) -> Seq<u8> {
    seq![0u8] + p.0 + seq![0u8] + p.1
}

/// The wire form of a whole trace: its records, in map order.
pub open spec fn spec_serialize_trace(s: Seq<(Seq<u8>, Seq<u8>)>) -> Seq<u8>
    decreases s.len(),
{
    if s.len() == 0 {
        Seq::empty()
    } else {
        trace_record_bytes(s[0]) + spec_serialize_trace(s.drop_first())
    }
}

/// Serialisation consumes its records from the front; this restates it
/// from the back, as the writing loop proceeds.
pub proof fn lemma_serialize_trace_snoc(s: Seq<(Seq<u8>, Seq<u8>)>, x: (Seq<u8>, Seq<u8>))
    ensures
        spec_serialize_trace(s.push(x)) == spec_serialize_trace(s) + trace_record_bytes(x),
    decreases s.len(),
{
    if s.len() == 0 {
        assert(s.push(x)[0] == x);
        assert(s.push(x).drop_first() =~= Seq::<(Seq<u8>, Seq<u8>)>::empty());
        assert(spec_serialize_trace(Seq::<(Seq<u8>, Seq<u8>)>::empty()) == Seq::<u8>::empty());
        assert(spec_serialize_trace(s.push(x)) == trace_record_bytes(x) + Seq::<u8>::empty());
        assert(spec_serialize_trace(s) == Seq::<u8>::empty());
        assert(trace_record_bytes(x) + Seq::<u8>::empty() =~= trace_record_bytes(x));
        assert(Seq::<u8>::empty() + trace_record_bytes(x) =~= trace_record_bytes(x));
    } else {
        assert(s.push(x).drop_first() =~= s.drop_first().push(x));
        lemma_serialize_trace_snoc(s.drop_first(), x);
        assert(spec_serialize_trace(s.push(x)) == trace_record_bytes(s[0])
            + (spec_serialize_trace(s.drop_first()) + trace_record_bytes(x)));
        assert(trace_record_bytes(s[0]) + (spec_serialize_trace(s.drop_first())
            + trace_record_bytes(x)) =~= (trace_record_bytes(s[0]) + spec_serialize_trace(
            s.drop_first(),
        )) + trace_record_bytes(x));
    }
}

/// The records of a serialised trace or environment log: split at NUL,
/// empty fields dropped, consecutive fields paired.
pub open spec fn spec_wire_records(data: Seq<u8>) -> Seq<(Seq<u8>, Seq<u8>)> {
    spec_pair_up(spec_drop_empty(spec_split(data, 0)))
}

/// What loading an already-sorted trace yields: its records folded into a
/// map, a repeated key taking the last observation.
pub open spec fn spec_load_sorted(data: Seq<u8>) -> Seq<(Seq<u8>, Seq<u8>)> {
    spec_fold_insert(Seq::empty(), spec_wire_records(data))
}

/// A file-access trace: observations keyed by `tag ⨁ path`, sorted and
/// de-duplicated.
pub struct Trace {
    items: ByteMap,
}

impl Trace {
    /// The records, in key order.
    pub closed spec fn items(&self) -> Seq<(Seq<u8>, Seq<u8>)> {
        self.items.pairs()
    }

    /// Sorted, and every key and observation non-empty and NUL-free: what
    /// both loaders establish, and what the wire format can carry.
    pub open spec fn wf(&self) -> bool {
        &&& sorted_pairs(self.items())
        &&& all_good(self.items())
    }

    /// The number of records.
    pub fn len(&self) -> (r: usize)
        ensures
            r == self.items().len(),
    {
        self.items.len()
    }

    /// The key (`tag ⨁ path`) of the `i`-th record.
    pub fn key_at(&self, i: usize) -> (r: &Vec<u8>)
        requires
            i < self.items().len(),
        ensures
            r@ == self.items()[i as int].0,
    {
        self.items.key_at(i)
    }

    /// The observation of the `i`-th record.
    pub fn obs_at(&self, i: usize) -> (r: &Vec<u8>)
        requires
            i < self.items().len(),
        ensures
            r@ == self.items()[i as int].1,
    {
        self.items.val_at(i)
    }

    /// Load an already-sorted trace, as stored in a cache entry.
    pub fn load(data: Vec<u8>) -> (r: Trace)
        ensures
            r.wf(),
            r.items() == spec_load_sorted(data@),
    {
        let pieces = split_bytes(data.as_slice(), 0);
        let filtered = drop_empty_pieces(&pieces);
        proof {
            lemma_split_pieces(data@, 0);
            lemma_drop_empty_props(pieces.deep_view(), 0);
        }
        let mut map = ByteMap::new();
        let ghost fv = filtered.deep_view();
        proof {
            assert(fv.skip(0) =~= fv);
            assert(map.pairs() =~= Seq::<(Seq<u8>, Seq<u8>)>::empty());
        }
        let mut j: usize = 0;
        while j < filtered.len() && j + 1 < filtered.len()
            invariant
                j <= filtered.len(),
                fv == filtered.deep_view(),
                map.wf(),
                all_good(map.pairs()),
                forall|i: int, l: int|
                    0 <= i < fv.len() && 0 <= l < fv[i].len() ==> #[trigger] fv[i][l] != 0,
                forall|i: int| 0 <= i < fv.len() ==> (#[trigger] fv[i]).len() > 0,
                spec_fold_insert(map.pairs(), spec_pair_up(fv.skip(j as int))) == spec_fold_insert(
                    Seq::empty(),
                    spec_pair_up(fv),
                ),
            decreases filtered.len() - j,
        {
            let ghost suf = fv.skip(j as int);
            let k = crate::bytes::clone_bytes(&filtered[j]);
            let v = crate::bytes::clone_bytes(&filtered[j + 1]);
            proof {
                assert(filtered[j as int]@ =~= fv[j as int]);
                assert(filtered[j + 1]@ =~= fv[j + 1]);
                assert(suf[0] == fv[j as int] && suf[1] == fv[j + 1]);
                assert(spec_pair_up(suf) == seq![(suf[0], suf[1])] + spec_pair_up(suf.skip(2)));
                assert(suf.skip(2) =~= fv.skip(j + 2));
                assert((seq![(suf[0], suf[1])] + spec_pair_up(suf.skip(2))).drop_first()
                    =~= spec_pair_up(fv.skip(j + 2)));
                lemma_insert_good(map.pairs(), k@, v@);
            }
            let ghost before = map.pairs();
            map.insert(k, v);
            proof {
                assert(spec_fold_insert(before, spec_pair_up(fv.skip(j as int)))
                    == spec_fold_insert(
                    spec_insert(before, fv[j as int], fv[j + 1]),
                    spec_pair_up(fv.skip(j + 2)),
                ));
            }
            j += 2;
        }
        proof {
            assert(fv.skip(j as int).len() < 2);
            assert(spec_pair_up(fv.skip(j as int)) == Seq::<(Seq<u8>, Seq<u8>)>::empty());
        }
        Trace { items: map }
    }

    /// Write the trace in its wire form.
    pub fn serialize(&self) -> (r: Vec<u8>)
        ensures
            r@ == spec_serialize_trace(self.items()),
    {
        let mut out: Vec<u8> = Vec::new();
        let n = self.items.len();
        proof {
            assert(self.items().take(0) =~= Seq::<(Seq<u8>, Seq<u8>)>::empty());
            assert(out@ =~= spec_serialize_trace(self.items().take(0)));
        }
        let mut i: usize = 0;
        while i < n
            invariant
                0 <= i <= n,
                n == self.items().len(),
                out@ == spec_serialize_trace(self.items().take(i as int)),
            decreases n - i,
        {
            out.push(0);
            crate::bytes::push_all(&mut out, self.items.key_at(i).as_slice());
            out.push(0);
            crate::bytes::push_all(&mut out, self.items.val_at(i).as_slice());
            proof {
                let t = self.items().take(i as int);
                let x = self.items()[i as int];
                lemma_serialize_trace_snoc(t, x);
                assert(self.items().take(i + 1) =~= t.push(x));
                assert(out@ =~= spec_serialize_trace(t) + trace_record_bytes(x));
            }
            i += 1;
        }
        proof {
            assert(self.items().take(n as int) =~= self.items());
        }
        out
    }
}

/// The pieces that are not empty, in order.
fn drop_empty_pieces(pieces: &Vec<Vec<u8>>) -> (r: Vec<Vec<u8>>)
    ensures
        r.deep_view() == spec_drop_empty(pieces.deep_view()),
{
    let ghost pv = pieces.deep_view();
    let mut r: Vec<Vec<u8>> = Vec::new();
    proof {
        assert(pv.skip(0) =~= pv);
        assert(r.deep_view() =~= Seq::<Seq<u8>>::empty());
        assert(Seq::<Seq<u8>>::empty() + spec_drop_empty(pv) =~= spec_drop_empty(pv));
    }
    let mut i: usize = 0;
    while i < pieces.len()
        invariant
            0 <= i <= pieces.len(),
            pv == pieces.deep_view(),
            r.deep_view() + spec_drop_empty(pv.skip(i as int)) == spec_drop_empty(pv),
        decreases pieces.len() - i,
    {
        let ghost suf = pv.skip(i as int);
        proof {
            assert(suf[0] == pv[i as int]);
            assert(suf.drop_first() =~= pv.skip(i + 1));
            assert(pieces[i as int]@ =~= pv[i as int]);
        }
        if pieces[i].len() > 0 {
            let ghost old_r = r.deep_view();
            r.push(crate::bytes::clone_bytes(&pieces[i]));
            proof {
                assert(r.deep_view() =~~= old_r + seq![pv[i as int]]);
                assert(spec_drop_empty(suf) == seq![pv[i as int]] + spec_drop_empty(
                    pv.skip(i + 1),
                ));
                assert((old_r + seq![pv[i as int]]) + spec_drop_empty(pv.skip(i + 1)) =~= old_r + (
                seq![pv[i as int]] + spec_drop_empty(pv.skip(i + 1))));
            }
        } else {
            proof {
                assert(spec_drop_empty(suf) == spec_drop_empty(pv.skip(i + 1)));
            }
        }
        i += 1;
    }
    proof {
        assert(pv.skip(pieces.len() as int) =~= Seq::<Seq<u8>>::empty());
        assert(r.deep_view() + Seq::<Seq<u8>>::empty() =~= r.deep_view());
    }
    r
}

/// Non-empty, NUL-free pieces pass through [`spec_drop_empty`] unharmed:
/// what comes out is non-empty, and stays NUL-free.
proof fn lemma_drop_empty_props(ps: Seq<Seq<u8>>, i: int)
    requires
        forall|a: int, b: int| 0 <= a < ps.len() && 0 <= b < ps[a].len() ==> #[trigger] ps[a][b]
            != 0,
    ensures
        forall|a: int| 0 <= a < spec_drop_empty(ps).len() ==> (#[trigger] spec_drop_empty(
            ps,
        )[a]).len() > 0,
        forall|a: int, b: int|
            0 <= a < spec_drop_empty(ps).len() && 0 <= b < spec_drop_empty(ps)[a].len()
                ==> #[trigger] spec_drop_empty(ps)[a][b] != 0,
    decreases ps.len(),
{
    if ps.len() > 0 {
        let d = ps.drop_first();
        assert forall|a: int, b: int|
            0 <= a < d.len() && 0 <= b < d[a].len() implies #[trigger] d[a][b] != 0 by {
            assert(d[a] == ps[a + 1]);
        }
        lemma_drop_empty_props(d, 0);
        if ps[0].len() == 0 {
        } else {
            assert forall|a: int| 0 <= a < spec_drop_empty(ps).len() implies (
            #[trigger] spec_drop_empty(ps)[a]).len() > 0 by {
                if a > 0 {
                    assert(spec_drop_empty(ps)[a] == spec_drop_empty(d)[a - 1]);
                }
            }
            assert forall|a: int, b: int|
                0 <= a < spec_drop_empty(ps).len() && 0 <= b < spec_drop_empty(ps)[a].len()
                implies #[trigger] spec_drop_empty(ps)[a][b] != 0 by {
                if a > 0 {
                    assert(spec_drop_empty(ps)[a] == spec_drop_empty(d)[a - 1]);
                }
            }
        }
    }
}

/// The fields of a serialised trace, flattened back out: key, observation,
/// key, observation, …
pub open spec fn spec_interleave(s: Seq<(Seq<u8>, Seq<u8>)>) -> Seq<Seq<u8>>
    decreases s.len(),
{
    if s.len() == 0 {
        Seq::empty()
    } else {
        seq![s[0].0, s[0].1] + spec_interleave(s.drop_first())
    }
}

/// Splitting `v ++ serialise(t)` at NUL yields `v` followed by the
/// interleaved fields of `t`, provided everything in sight is NUL-free.
proof fn lemma_split_serialized(v: Seq<u8>, t: Seq<(Seq<u8>, Seq<u8>)>)
    requires
        forall|j: int| 0 <= j < v.len() ==> v[j] != 0,
        all_good(t),
    ensures
        spec_split(v + spec_serialize_trace(t), 0) == seq![v] + spec_interleave(t),
    decreases t.len(),
{
    if t.len() == 0 {
        assert(v + spec_serialize_trace(t) =~= v);
        lemma_split_single(v, 0);
        assert(seq![v] + spec_interleave(t) =~= seq![v]);
    } else {
        let x = t[0];
        assert(good_pair(x));
        let rest = t.drop_first();
        assert(all_good(rest)) by {
            assert(forall|i: int| 0 <= i < rest.len() ==> #[trigger] rest[i] == t[i + 1]);
        }
        let tail1 = x.0 + seq![0u8] + (x.1 + spec_serialize_trace(rest));
        assert(v + spec_serialize_trace(t) =~= v + seq![0u8] + tail1);
        lemma_split_prepend(v, tail1, 0);
        let tail2 = x.1 + spec_serialize_trace(rest);
        assert(tail1 =~= x.0 + seq![0u8] + tail2);
        lemma_split_prepend(x.0, tail2, 0);
        lemma_split_serialized(x.1, rest);
        assert(spec_split(v + spec_serialize_trace(t), 0) == seq![v] + (seq![x.0] + (seq![x.1]
            + spec_interleave(rest))));
        assert(seq![v] + (seq![x.0] + (seq![x.1] + spec_interleave(rest))) =~= seq![v] + (
        seq![x.0, x.1] + spec_interleave(rest)));
    }
}

/// Non-empty pieces pass [`spec_drop_empty`] unchanged.
proof fn lemma_drop_empty_id(ps: Seq<Seq<u8>>)
    requires
        forall|a: int| 0 <= a < ps.len() ==> (#[trigger] ps[a]).len() > 0,
    ensures
        spec_drop_empty(ps) == ps,
    decreases ps.len(),
{
    if ps.len() > 0 {
        let d = ps.drop_first();
        assert(forall|a: int| 0 <= a < d.len() ==> (#[trigger] d[a]).len() > 0);
        lemma_drop_empty_id(d);
        assert(seq![ps[0]] + d =~= ps);
    }
}

/// Pairing the interleaved fields recovers the records.
proof fn lemma_pair_up_interleave(t: Seq<(Seq<u8>, Seq<u8>)>)
    ensures
        spec_pair_up(spec_interleave(t)) == t,
    decreases t.len(),
{
    if t.len() == 0 {
        assert(spec_interleave(t).len() == 0);
        assert(spec_pair_up(spec_interleave(t)) =~= t);
    } else {
        let il = spec_interleave(t);
        lemma_pair_up_interleave(t.drop_first());
        assert(il[0] == t[0].0 && il[1] == t[0].1);
        assert(il.skip(2) =~= spec_interleave(t.drop_first()));
        assert(seq![(t[0].0, t[0].1)] + t.drop_first() =~= t);
    }
}

/// Loading a serialised well-formed trace gives back exactly its records:
/// the loader/serialiser round trip law of the trace store.  Both loaders
/// establish `wf`, so this holds in particular of every trace the raw
/// loader yields.
pub proof fn lemma_trace_round_trip(t: &Trace)
    requires
        t.wf(),
    ensures
        spec_load_sorted(spec_serialize_trace(t.items())) == t.items(),
{
    let s = t.items();
    assert(Seq::<u8>::empty() + spec_serialize_trace(s) =~= spec_serialize_trace(s));
    lemma_split_serialized(Seq::empty(), s);
    assert(spec_split(spec_serialize_trace(s), 0) == seq![Seq::<u8>::empty()]
        + spec_interleave(s));
    lemma_interleave_good(s);
    let il = spec_interleave(s);
    assert(spec_drop_empty(seq![Seq::<u8>::empty()] + il) == spec_drop_empty((seq![
        Seq::<u8>::empty(),
    ] + il).drop_first())) by {
        assert((seq![Seq::<u8>::empty()] + il)[0].len() == 0);
    }
    assert((seq![Seq::<u8>::empty()] + il).drop_first() =~= il);
    lemma_drop_empty_id(il);
    lemma_pair_up_interleave(s);
    assert(Seq::<(Seq<u8>, Seq<u8>)>::empty() + s =~= s);
    lemma_fold_insert_sorted(Seq::empty(), s);
}

/// True iff the path in `key` (the bytes after the tag byte) equals the
/// directory `d` or lies underneath it.
pub open spec fn spec_path_under(key: Seq<u8>, d: Seq<u8>) -> bool {
    key.skip(1) == d || crate::bytes::spec_starts_with(key.skip(1), d + seq![47u8])
}

/// A `t`-tagged record announcing that directory `d` was created.
pub open spec fn spec_tempdir_open(r: (Seq<u8>, Seq<u8>), d: Seq<u8>) -> bool {
    r.0 == seq![116u8] + d && r.1 == seq![43u8]
}

/// A `t`-tagged record announcing that directory `d` was removed.
pub open spec fn spec_tempdir_close(r: (Seq<u8>, Seq<u8>), d: Seq<u8>) -> bool {
    r.0 == seq![116u8] + d && r.1 == seq![45u8]
}

/// Record `i` falls inside the lifetime of temporary directory `d` (a
/// matching `+`/`-` pair surrounds it) and its path lies under `d`.
pub open spec fn spec_scrub_dir(records: Seq<(Seq<u8>, Seq<u8>)>, i: int, d: Seq<u8>) -> bool {
    &&& spec_path_under(records[i].0, d)
    &&& exists|j: int| 0 <= j < i && spec_tempdir_open(#[trigger] records[j], d)
    &&& exists|l: int| i < l < records.len() && spec_tempdir_close(#[trigger] records[l], d)
}

/// Record `i` is masked by some vanished temporary directory.
pub open spec fn spec_scrubbed(records: Seq<(Seq<u8>, Seq<u8>)>, i: int, gone: Seq<Seq<u8>>) -> bool {
    exists|di: int| 0 <= di < gone.len() && spec_scrub_dir(records, i, #[trigger] gone[di])
}

/// A record survives the raw load: it is not a `t` record itself and no
/// vanished temporary directory masks it.
pub open spec fn spec_keep(records: Seq<(Seq<u8>, Seq<u8>)>, i: int, gone: Seq<Seq<u8>>) -> bool {
    &&& records[i].0.len() > 0
    &&& records[i].0[0] != 116
    &&& !spec_scrubbed(records, i, gone)
}

/// The surviving records from index `i` on, in log order.
pub open spec fn spec_retained(
    records: Seq<(Seq<u8>, Seq<u8>)>,
    gone: Seq<Seq<u8>>,
    i: int,
) -> Seq<(Seq<u8>, Seq<u8>)>
    decreases records.len() - i,
    when i >= 0
{
    if i >= records.len() {
        Seq::empty()
    } else {
        (if spec_keep(records, i, gone) {
            seq![records[i]]
        } else {
            Seq::empty()
        }) + spec_retained(records, gone, i + 1)
    }
}

/// What the raw loader yields: the log's records, the temp-dir filter
/// applied, sorted, a repeated key keeping its first observation.
pub open spec fn spec_load_raw(log: Seq<u8>, gone: Seq<Seq<u8>>) -> Seq<(Seq<u8>, Seq<u8>)> {
    crate::codec::spec_fold_insert_absent(
        Seq::empty(),
        spec_retained(spec_wire_records(log), gone, 0),
    )
}

/// The records of a raw trace log, split, paired, in log order.
fn wire_records(data: &[u8]) -> (r: Vec<Entry>)
    ensures
        entry_pairs(r@) == spec_wire_records(data@),
        all_good(entry_pairs(r@)),
{
    let pieces = split_bytes(data, 0);
    let filtered = drop_empty_pieces(&pieces);
    proof {
        lemma_split_pieces(data@, 0);
        lemma_drop_empty_props(pieces.deep_view(), 0);
    }
    let ghost fv = filtered.deep_view();
    let mut recs: Vec<Entry> = Vec::new();
    proof {
        assert(fv.skip(0) =~= fv);
        assert(entry_pairs(recs@) =~= Seq::<(Seq<u8>, Seq<u8>)>::empty());
        assert(Seq::<(Seq<u8>, Seq<u8>)>::empty() + spec_pair_up(fv) =~= spec_pair_up(fv));
    }
    let mut j: usize = 0;
    while j < filtered.len() && j + 1 < filtered.len()
        invariant
            j <= filtered.len(),
            fv == filtered.deep_view(),
            all_good(entry_pairs(recs@)),
            forall|i: int, l: int|
                0 <= i < fv.len() && 0 <= l < fv[i].len() ==> #[trigger] fv[i][l] != 0,
            forall|i: int| 0 <= i < fv.len() ==> (#[trigger] fv[i]).len() > 0,
            entry_pairs(recs@) + spec_pair_up(fv.skip(j as int)) == spec_pair_up(fv),
        decreases filtered.len() - j,
    {
        let ghost suf = fv.skip(j as int);
        let k = crate::bytes::clone_bytes(&filtered[j]);
        let v = crate::bytes::clone_bytes(&filtered[j + 1]);
        proof {
            assert(filtered[j as int]@ =~= fv[j as int]);
            assert(filtered[j + 1]@ =~= fv[j + 1]);
            assert(suf[0] == fv[j as int] && suf[1] == fv[j + 1]);
            assert(spec_pair_up(suf) == seq![(suf[0], suf[1])] + spec_pair_up(suf.skip(2)));
            assert(suf.skip(2) =~= fv.skip(j + 2));
        }
        let ghost before = entry_pairs(recs@);
        recs.push(Entry { key: k, val: v });
        proof {
            assert(entry_pairs(recs@) =~= before + seq![(fv[j as int], fv[j + 1])]);
            assert((before + seq![(fv[j as int], fv[j + 1])]) + spec_pair_up(fv.skip(j + 2))
                =~= before + (seq![(fv[j as int], fv[j + 1])] + spec_pair_up(fv.skip(j + 2))));
            assert forall|i: int| 0 <= i < entry_pairs(recs@).len() implies good_pair(
                #[trigger] entry_pairs(recs@)[i],
            ) by {
                if i < before.len() {
                    assert(entry_pairs(recs@)[i] == before[i]);
                }
            }
        }
        j += 2;
    }
    proof {
        assert(fv.skip(j as int).len() < 2);
        assert(spec_pair_up(fv.skip(j as int)) == Seq::<(Seq<u8>, Seq<u8>)>::empty());
        assert(entry_pairs(recs@) + Seq::<(Seq<u8>, Seq<u8>)>::empty() =~= entry_pairs(recs@));
    }
    recs
}

/// True iff the path part of `key` equals `d` or lies underneath it.
fn path_under(key: &Vec<u8>, d: &Vec<u8>) -> (r: bool)
    requires
        key@.len() >= 1,
    ensures
        r == spec_path_under(key@, d@),
{
    let tail = vstd::slice::slice_to_vec(vstd::slice::slice_subrange(
        key.as_slice(),
        1,
        key.len(),
    ));
    proof {
        assert(tail@ =~= key@.skip(1));
    }
    if crate::bytes::bytes_eq(&tail, d) {
        return true;
    }
    let mut ds = crate::bytes::clone_bytes(d);
    ds.push(47);
    proof {
        assert(ds@ =~= d@ + seq![47u8]);
    }
    crate::bytes::starts_with(&tail, &ds)
}

/// Is some `t<dir>,+` record among the first `i` records?
fn has_open(recs: &Vec<Entry>, i: usize, td: &Vec<u8>, Ghost(d): Ghost<Seq<u8>>) -> (r: bool)
    requires
        i <= recs@.len(),
        td@ == seq![116u8] + d,
    ensures
        r == exists|j: int| 0 <= j < i && spec_tempdir_open(#[trigger] entry_pairs(recs@)[j], d),
{
    let mut j: usize = 0;
    while j < i
        invariant
            0 <= j <= i <= recs@.len(),
            td@ == seq![116u8] + d,
            forall|j2: int| 0 <= j2 < j ==> !spec_tempdir_open(#[trigger] entry_pairs(recs@)[j2], d),
        decreases i - j,
    {
        if crate::bytes::bytes_eq(&recs[j].key, td) && recs[j].val.len() == 1 && recs[j].val[0]
            == 43 {
            proof {
                assert(entry_pairs(recs@)[j as int].0 == recs@[j as int].key@);
                assert(entry_pairs(recs@)[j as int].1 =~= seq![43u8]);
                assert(spec_tempdir_open(entry_pairs(recs@)[j as int], d));
            }
            return true;
        }
        proof {
            assert(entry_pairs(recs@)[j as int].0 == recs@[j as int].key@);
            assert(entry_pairs(recs@)[j as int].1 == recs@[j as int].val@);
            if spec_tempdir_open(entry_pairs(recs@)[j as int], d) {
                assert(recs@[j as int].val@ == seq![43u8]);
                assert(false);
            }
        }
        j += 1;
    }
    false
}

/// Is some `t<dir>,-` record among the records after `i`?
fn has_close(recs: &Vec<Entry>, i: usize, td: &Vec<u8>, Ghost(d): Ghost<Seq<u8>>) -> (r: bool)
    requires
        i < recs@.len(),
        td@ == seq![116u8] + d,
    ensures
        r == exists|l: int|
            i < l < entry_pairs(recs@).len() && spec_tempdir_close(
                #[trigger] entry_pairs(recs@)[l],
                d,
            ),
{
    let n: usize = recs.len();
    let mut j: usize = i + 1;
    while j < n
        invariant
            i < j <= n,
            n == recs@.len(),
            td@ == seq![116u8] + d,
            forall|j2: int|
                i < j2 < j ==> !spec_tempdir_close(#[trigger] entry_pairs(recs@)[j2], d),
        decreases n - j,
    {
        if crate::bytes::bytes_eq(&recs[j].key, td) && recs[j].val.len() == 1 && recs[j].val[0]
            == 45 {
            proof {
                assert(entry_pairs(recs@)[j as int].0 == recs@[j as int].key@);
                assert(entry_pairs(recs@)[j as int].1 =~= seq![45u8]);
                assert(spec_tempdir_close(entry_pairs(recs@)[j as int], d));
            }
            return true;
        }
        proof {
            assert(entry_pairs(recs@)[j as int].0 == recs@[j as int].key@);
            assert(entry_pairs(recs@)[j as int].1 == recs@[j as int].val@);
            if spec_tempdir_close(entry_pairs(recs@)[j as int], d) {
                assert(recs@[j as int].val@ == seq![45u8]);
                assert(false);
            }
        }
        j += 1;
    }
    false
}

/// Is record `i` masked by one of the vanished directories?
fn is_scrubbed(recs: &Vec<Entry>, i: usize, gone: &Vec<Vec<u8>>) -> (r: bool)
    requires
        i < recs@.len(),
        entry_pairs(recs@)[i as int].0.len() > 0,
    ensures
        r == spec_scrubbed(entry_pairs(recs@), i as int, gone.deep_view()),
{
    let ghost gv = gone.deep_view();
    let mut di: usize = 0;
    while di < gone.len()
        invariant
            0 <= di <= gone.len(),
            gv == gone.deep_view(),
            i < recs@.len(),
            entry_pairs(recs@)[i as int].0.len() > 0,
            forall|d2: int| 0 <= d2 < di ==> !spec_scrub_dir(entry_pairs(recs@), i as int, #[trigger] gv[d2]),
        decreases gone.len() - di,
    {
        let d = &gone[di];
        proof {
            assert(d@ =~= gv[di as int]);
            assert(entry_pairs(recs@)[i as int].0 == recs@[i as int].key@);
        }
        let mut td: Vec<u8> = Vec::new();
        td.push(116);
        crate::bytes::push_all(&mut td, d.as_slice());
        proof {
            assert(td@ =~= seq![116u8] + d@);
        }
        if path_under(&recs[i].key, d) && has_open(recs, i, &td, Ghost(d@)) && has_close(
            recs,
            i,
            &td,
            Ghost(d@),
        ) {
            proof {
                assert(spec_scrub_dir(entry_pairs(recs@), i as int, gv[di as int]));
            }
            return true;
        }
        di += 1;
    }
    false
}

/// Load a raw trace log: the temp-dir filter applied against the set of
/// directories that no longer exist, `t` records dropped, the rest sorted
/// and de-duplicated, a repeated key keeping its first observation.
pub fn load_raw(log: &[u8], gone_dirs: &Vec<Vec<u8>>) -> (r: Trace)
    ensures
        r.wf(),
        r.items() == spec_load_raw(log@, gone_dirs.deep_view()),
{
    let recs = wire_records(log);
    let ghost rv = entry_pairs(recs@);
    let ghost gv = gone_dirs.deep_view();
    let mut map = ByteMap::new();
    proof {
        assert(map.pairs() =~= Seq::<(Seq<u8>, Seq<u8>)>::empty());
    }
    let n: usize = recs.len();
    let mut i: usize = 0;
    while i < n
        invariant
            0 <= i <= n,
            n == rv.len(),
            rv == entry_pairs(recs@),
            gv == gone_dirs.deep_view(),
            all_good(rv),
            map.wf(),
            all_good(map.pairs()),
            crate::codec::spec_fold_insert_absent(map.pairs(), spec_retained(rv, gv, i as int))
                == spec_load_raw(log@, gv),
        decreases n - i,
    {
        proof {
            assert(good_pair(rv[i as int]));
            assert(rv[i as int].0 == recs@[i as int].key@);
        }
        let is_t = recs[i].key[0] == 116;
        if !is_t && !is_scrubbed(&recs, i, gone_dirs) {
            let k = crate::bytes::clone_bytes(&recs[i].key);
            let v = crate::bytes::clone_bytes(&recs[i].val);
            proof {
                assert(spec_keep(rv, i as int, gv));
                assert(spec_retained(rv, gv, i as int) == seq![rv[i as int]] + spec_retained(
                    rv,
                    gv,
                    i + 1,
                ));
                assert((seq![rv[i as int]] + spec_retained(rv, gv, i + 1)).drop_first()
                    =~= spec_retained(rv, gv, i + 1));
                crate::codec::lemma_insert_good(map.pairs(), k@, v@);
            }
            let ghost before = map.pairs();
            map.insert_absent(k, v);
        } else {
            proof {
                assert(!spec_keep(rv, i as int, gv));
                assert(spec_retained(rv, gv, i as int) =~= Seq::<(Seq<u8>, Seq<u8>)>::empty()
                    + spec_retained(rv, gv, i + 1));
                assert(Seq::<(Seq<u8>, Seq<u8>)>::empty() + spec_retained(rv, gv, i + 1)
                    =~= spec_retained(rv, gv, i + 1));
            }
        }
        i += 1;
    }
    proof {
        assert(spec_retained(rv, gv, n as int) == Seq::<(Seq<u8>, Seq<u8>)>::empty());
    }
    Trace { items: map }
}

/// What a stat/lstat of a path found: nothing, a symlink (with its
/// target), a directory, or some other kind of entry.
pub enum StatKind {
    Missing,
    Symlink(Vec<u8>),
    Dir,
    Other,
}

/// What reading a file's contents yielded.
pub enum ReadOutcome {
    Data(Vec<u8>),
    Missing,
    ReadError,
}

/// One direct child of a directory: its name and its type byte
/// (`f`, `d`, `l` or `u`).
pub struct DirEntry {
    pub name: Vec<u8>,
    pub kind: u8,
}

/// What enumerating a directory yielded.
pub enum DirListing {
    Absent,
    Present(Vec<DirEntry>),
}

/// The observation bytes for an `s` record: `-` when absent, `l<target>`
/// for a symlink, `d` for a directory, `+` for anything else.
pub open spec fn spec_stat_observation(k: StatKind) -> Seq<u8> {
    match k {
        StatKind::Missing => seq![45u8],
        StatKind::Symlink(t) => seq![108u8] + t@,
        StatKind::Dir => seq![100u8],
        StatKind::Other => seq![43u8],
    }
}

/// Compute the observation an `s` record would hold today.
pub fn stat_observation(k: &StatKind) -> (r: Vec<u8>)
    ensures
        r@ == spec_stat_observation(*k),
{
    match k {
        StatKind::Missing => {
            let mut v: Vec<u8> = Vec::new();
            v.push(45);
            proof {
                assert(v@ =~= seq![45u8]);
            }
            v
        },
        StatKind::Symlink(t) => {
            let mut v: Vec<u8> = Vec::new();
            v.push(108);
            crate::bytes::push_all(&mut v, t.as_slice());
            proof {
                assert(v@ =~= seq![108u8] + t@);
            }
            v
        },
        StatKind::Dir => {
            let mut v: Vec<u8> = Vec::new();
            v.push(100);
            proof {
                assert(v@ =~= seq![100u8]);
            }
            v
        },
        StatKind::Other => {
            let mut v: Vec<u8> = Vec::new();
            v.push(43);
            proof {
                assert(v@ =~= seq![43u8]);
            }
            v
        },
    }
}

/// The observation bytes for an `f` record: the first 32 hex digits of
/// the contents' digest, `-` when absent, `e` on other read errors.
pub open spec fn spec_file_observation(o: ReadOutcome) -> Seq<u8> {
    match o {
        ReadOutcome::Data(d) => blake3_hex_of(d@).take(32),
        ReadOutcome::Missing => seq![45u8],
        ReadOutcome::ReadError => seq![101u8],
    }
}

/// Compute the observation an `f` record would hold today.
pub fn file_observation(o: &ReadOutcome) -> (r: Vec<u8>)
    ensures
        r@ == spec_file_observation(*o),
{
    match o {
        ReadOutcome::Data(d) => {
            let mut h = blake3_hex(d.as_slice());
            h.truncate(32);
            proof {
                assert(h@ =~= blake3_hex_of(d@).take(32));
            }
            h
        },
        ReadOutcome::Missing => {
            let mut v: Vec<u8> = Vec::new();
            v.push(45);
            proof {
                assert(v@ =~= seq![45u8]);
            }
            v
        },
        ReadOutcome::ReadError => {
            let mut v: Vec<u8> = Vec::new();
            v.push(101);
            proof {
                assert(v@ =~= seq![101u8]);
            }
            v
        },
    }
}

/// The hashed form of one directory child: `name=<type>\0`.
pub open spec fn spec_dir_entry_bytes(e: DirEntry) -> Seq<u8> {
    e.name@ + seq![61u8, e.kind, 0u8]
}

/// Insert a byte string into a lexicographically sorted list, before any
/// equal elements.
pub open spec fn spec_sorted_insert(x: Seq<u8>, s: Seq<Seq<u8>>) -> Seq<Seq<u8>>
    decreases s.len(),
{
    if s.len() == 0 {
        seq![x]
    } else if crate::bytes::lex_lt(s[0], x) {
        seq![s[0]] + spec_sorted_insert(x, s.drop_first())
    } else {
        seq![x] + s
    }
}

/// The lexicographically sorted form of a list of byte strings.
pub open spec fn spec_sort_pieces(s: Seq<Seq<u8>>) -> Seq<Seq<u8>>
    decreases s.len(),
{
    if s.len() == 0 {
        Seq::empty()
    } else {
        spec_sorted_insert(s[0], spec_sort_pieces(s.drop_first()))
    }
}

/// The concatenation of a list of byte strings.
pub open spec fn spec_concat_pieces(s: Seq<Seq<u8>>) -> Seq<u8>
    decreases s.len(),
{
    if s.len() == 0 {
        Seq::empty()
    } else {
        s[0] + spec_concat_pieces(s.drop_first())
    }
}

/// The observation bytes for a `d` record: `-` when the directory is
/// absent, else the first 32 hex digits of the digest over the sorted
/// `name=<type>\0` lines of its children.
pub open spec fn spec_dir_observation(l: DirListing) -> Seq<u8> {
    match l {
        DirListing::Absent => seq![45u8],
        DirListing::Present(es) => blake3_hex_of(
            spec_concat_pieces(
                spec_sort_pieces(Seq::new(es@.len(), |i: int| spec_dir_entry_bytes(es@[i]))),
            ),
        ).take(32),
    }
}

/// Where an insertion into a sorted list lands.
proof fn lemma_sorted_insert_at(x: Seq<u8>, s: Seq<Seq<u8>>, p: int)
    requires
        0 <= p <= s.len(),
        forall|j: int| 0 <= j < p ==> crate::bytes::lex_lt(#[trigger] s[j], x),
        p < s.len() ==> !crate::bytes::lex_lt(s[p], x),
    ensures
        spec_sorted_insert(x, s) == s.take(p) + seq![x] + s.skip(p),
    decreases p,
{
    if p == 0 {
        if s.len() == 0 {
            assert(s.take(0) + seq![x] + s.skip(0) =~= seq![x]);
        } else {
            assert(s.take(0) + seq![x] + s.skip(0) =~= seq![x] + s);
        }
    } else {
        lemma_sorted_insert_at(x, s.drop_first(), p - 1);
        let d = s.drop_first();
        assert(forall|j: int| 0 <= j < p - 1 ==> crate::bytes::lex_lt(#[trigger] d[j], x));
        assert(s.take(p) + seq![x] + s.skip(p) =~= seq![s[0]] + (d.take(p - 1) + seq![x] + d.skip(
            p - 1,
        )));
    }
}

/// Sort a list of byte strings lexicographically, by insertion.
fn sort_pieces(v: Vec<Vec<u8>>) -> (r: Vec<Vec<u8>>)
    ensures
        r.deep_view() == spec_sort_pieces(v.deep_view()),
    decreases v@.len(),
{
    let ghost vv = v.deep_view();
    if v.len() == 0 {
        proof {
            assert(spec_sort_pieces(vv) == Seq::<Seq<u8>>::empty());
        }
        let r: Vec<Vec<u8>> = Vec::new();
        proof {
            assert(r.deep_view() =~= Seq::<Seq<u8>>::empty());
        }
        return r;
    }
    let mut rest = v;
    let first = rest.remove(0);
    proof {
        assert(rest.deep_view() =~= vv.drop_first());
        assert(first@ == vv[0]);
    }
    let mut sorted = sort_pieces(rest);
    let ghost sv = sorted.deep_view();
    // Find where `first` belongs and put it there.
    let n: usize = sorted.len();
    let mut p: usize = 0;
    while p < n
        invariant_except_break
            0 <= p <= n,
            n == sv.len(),
            sv == sorted.deep_view(),
            forall|j: int| 0 <= j < p ==> crate::bytes::lex_lt(#[trigger] sv[j], first@),
        ensures
            0 <= p <= n,
            n == sv.len(),
            sv == sorted.deep_view(),
            forall|j: int| 0 <= j < p ==> crate::bytes::lex_lt(#[trigger] sv[j], first@),
            p < n ==> !crate::bytes::lex_lt(sv[p as int], first@),
        decreases n - p,
    {
        proof {
            assert(sorted[p as int]@ == sv[p as int]);
        }
        match crate::bytes::lex_cmp(&sorted[p], &first) {
            crate::bytes::ByteOrd::Less => {},
            _ => {
                proof {
                    crate::bytes::lemma_lex_trichotomy(sv[p as int], first@);
                }
                break;
            },
        }
        p += 1;
    }
    proof {
        lemma_sorted_insert_at(first@, sv, p as int);
    }
    sorted.insert(p, first);
    proof {
        assert(sorted.deep_view() =~~= sv.take(p as int) + seq![vv[0]] + sv.skip(p as int));
        assert(spec_sort_pieces(vv) == spec_sorted_insert(vv[0], spec_sort_pieces(vv.drop_first())));
    }
    sorted
}

/// Compute the observation a `d` record would hold today.
pub fn dir_observation(l: &DirListing) -> (r: Vec<u8>)
    ensures
        r@ == spec_dir_observation(*l),
{
    match l {
        DirListing::Absent => {
            let mut v: Vec<u8> = Vec::new();
            v.push(45);
            proof {
                assert(v@ =~= seq![45u8]);
            }
            v
        },
        DirListing::Present(es) => {
            let ghost fmt = Seq::new(es@.len(), |i: int| spec_dir_entry_bytes(es@[i]));
            let mut lines: Vec<Vec<u8>> = Vec::new();
            proof {
                assert(lines.deep_view() =~= fmt.take(0));
            }
            let n: usize = es.len();
            let mut i: usize = 0;
            while i < n
                invariant
                    0 <= i <= n,
                    n == es@.len(),
                    fmt == Seq::new(es@.len(), |j: int| spec_dir_entry_bytes(es@[j])),
                    lines.deep_view() == fmt.take(i as int),
                decreases n - i,
            {
                let mut line = crate::bytes::clone_bytes(&es[i].name);
                line.push(61);
                line.push(es[i].kind);
                line.push(0);
                proof {
                    assert(line@ =~= spec_dir_entry_bytes(es@[i as int]));
                }
                let ghost before = lines.deep_view();
                lines.push(line);
                proof {
                    assert(lines.deep_view() =~~= before.push(fmt[i as int]));
                    assert(before.push(fmt[i as int]) =~= fmt.take(i + 1));
                }
                i += 1;
            }
            proof {
                assert(fmt.take(n as int) =~= fmt);
            }
            let sorted = sort_pieces(lines);
            let ghost sv = sorted.deep_view();
            let mut buf: Vec<u8> = Vec::new();
            proof {
                assert(sv.skip(0) =~= sv);
                assert(buf@ =~= Seq::<u8>::empty());
                assert(Seq::<u8>::empty() + spec_concat_pieces(sv) =~= spec_concat_pieces(sv));
            }
            let m: usize = sorted.len();
            let mut j: usize = 0;
            while j < m
                invariant
                    0 <= j <= m,
                    m == sv.len(),
                    sv == sorted.deep_view(),
                    buf@ + spec_concat_pieces(sv.skip(j as int)) == spec_concat_pieces(sv),
                decreases m - j,
            {
                proof {
                    assert(sorted[j as int]@ == sv[j as int]);
                    assert(sv.skip(j as int)[0] == sv[j as int]);
                    assert(sv.skip(j as int).drop_first() =~= sv.skip(j + 1));
                }
                let ghost before = buf@;
                crate::bytes::push_all(&mut buf, sorted[j].as_slice());
                proof {
                    assert((before + sv[j as int]) + spec_concat_pieces(sv.skip(j + 1)) =~= before
                        + (sv[j as int] + spec_concat_pieces(sv.skip(j + 1))));
                }
                j += 1;
            }
            proof {
                assert(sv.skip(m as int) =~= Seq::<Seq<u8>>::empty());
                assert(buf@ + Seq::<u8>::empty() =~= buf@);
            }
            let mut h = blake3_hex(buf.as_slice());
            h.truncate(32);
            proof {
                assert(h@ =~= blake3_hex_of(buf@).take(32));
            }
            h
        },
    }
}

/// The directories named by `t` records from index `i` on, in log order:
/// the candidates whose existence decides the temp-dir filter.
pub open spec fn spec_tempdir_candidates(records: Seq<(Seq<u8>, Seq<u8>)>, i: int) -> Seq<Seq<u8>>
    decreases records.len() - i,
    when i >= 0
{
    if i >= records.len() {
        Seq::empty()
    } else {
        (if records[i].0.len() > 0 && records[i].0[0] == 116 {
            seq![records[i].0.skip(1)]
        } else {
            Seq::<Seq<u8>>::empty()
        }) + spec_tempdir_candidates(records, i + 1)
    }
}

/// The directories a raw log opens or closes with `t` records.  The
/// caller checks which of them still exist and passes the vanished ones
/// to [`Trace::load_raw`].
pub fn tempdir_candidates(log: &[u8]) -> (r: Vec<Vec<u8>>)
    ensures
        r.deep_view() == spec_tempdir_candidates(spec_wire_records(log@), 0),
{
    let recs = wire_records(log);
    let ghost rv = entry_pairs(recs@);
    let mut out: Vec<Vec<u8>> = Vec::new();
    proof {
        assert(out.deep_view() =~= Seq::<Seq<u8>>::empty());
        assert(Seq::<Seq<u8>>::empty() + spec_tempdir_candidates(rv, 0) =~= spec_tempdir_candidates(
            rv,
            0,
        ));
    }
    let n: usize = recs.len();
    let mut i: usize = 0;
    while i < n
        invariant
            0 <= i <= n,
            n == rv.len(),
            rv == entry_pairs(recs@),
            out.deep_view() + spec_tempdir_candidates(rv, i as int) == spec_tempdir_candidates(
                rv,
                0,
            ),
        decreases n - i,
    {
        proof {
            assert(rv[i as int].0 == recs@[i as int].key@);
        }
        let key = &recs[i].key;
        if key.len() > 0 && key[0] == 116 {
            let d = vstd::slice::slice_to_vec(vstd::slice::slice_subrange(
                key.as_slice(),
                1,
                key.len(),
            ));
            let ghost ob = out.deep_view();
            out.push(d);
            proof {
                assert(out.deep_view() =~~= ob + seq![rv[i as int].0.skip(1)]);
                assert(spec_tempdir_candidates(rv, i as int) == seq![rv[i as int].0.skip(1)]
                    + spec_tempdir_candidates(rv, i + 1));
                assert((ob + seq![rv[i as int].0.skip(1)]) + spec_tempdir_candidates(rv, i + 1)
                    =~= ob + (seq![rv[i as int].0.skip(1)] + spec_tempdir_candidates(rv, i + 1)));
            }
        } else {
            proof {
                assert(spec_tempdir_candidates(rv, i as int) == spec_tempdir_candidates(rv, i + 1));
                assert(Seq::<Seq<u8>>::empty() + spec_tempdir_candidates(rv, i + 1)
                    =~= spec_tempdir_candidates(rv, i + 1));
            }
        }
        i += 1;
    }
    proof {
        assert(spec_tempdir_candidates(rv, n as int) == Seq::<Seq<u8>>::empty());
        assert(out.deep_view() + Seq::<Seq<u8>>::empty() =~= out.deep_view());
    }
    out
}

/// Some record's observation differs from what was recorded.
pub open spec fn spec_trace_changed(items: Seq<(Seq<u8>, Seq<u8>)>, current: Seq<Seq<u8>>) -> bool {
    exists|i: int| 0 <= i < items.len() && (#[trigger] items[i]).1 != current[i]
}

impl Trace {
    /// Compare the stored observations against `current`, the observation
    /// recomputed today for each record, in record order.  True iff some
    /// file changed: the first mismatch decides.
    pub fn check_for_changes(&self, current: &Vec<Vec<u8>>) -> (r: bool)
        requires
            current@.len() == self.items().len(),
        ensures
            r == spec_trace_changed(self.items(), current.deep_view()),
    {
        let n = self.items.len();
        let mut i: usize = 0;
        while i < n
            invariant
                0 <= i <= n,
                n == self.items().len(),
                n == current@.len(),
                forall|j: int| 0 <= j < i ==> (#[trigger] self.items()[j]).1
                    == current.deep_view()[j],
            decreases n - i,
        {
            proof {
                assert(current[i as int]@ == current.deep_view()[i as int]);
            }
            if !crate::bytes::bytes_eq(self.items.val_at(i), &current[i]) {
                return true;
            }
            i += 1;
        }
        false
    }
}

/// The revalidation law: against the exact observations taken at record
/// time a trace reports no change, and against any snapshot where some
/// recorded observation differs it reports a change.
pub proof fn lemma_revalidation(t: &Trace, current: Seq<Seq<u8>>)
    requires
        current.len() == t.items().len(),
    ensures
        (forall|i: int| 0 <= i < t.items().len() ==> (#[trigger] t.items()[i]).1 == current[i])
            ==> !spec_trace_changed(t.items(), current),
        (exists|i: int| 0 <= i < t.items().len() && (#[trigger] t.items()[i]).1 != current[i])
            ==> spec_trace_changed(t.items(), current),
{
}

/// The interleaved fields of good records are non-empty.
proof fn lemma_interleave_good(t: Seq<(Seq<u8>, Seq<u8>)>)
    requires
        all_good(t),
    ensures
        forall|a: int| 0 <= a < spec_interleave(t).len() ==> (#[trigger] spec_interleave(
            t,
        )[a]).len() > 0,
    decreases t.len(),
{
    if t.len() > 0 {
        let rest = t.drop_first();
        assert(all_good(rest)) by {
            assert(forall|i: int| 0 <= i < rest.len() ==> #[trigger] rest[i] == t[i + 1]);
        }
        lemma_interleave_good(rest);
        assert forall|a: int| 0 <= a < spec_interleave(t).len() implies (
        #[trigger] spec_interleave(t)[a]).len() > 0 by {
            if a >= 2 {
                assert(spec_interleave(t)[a] == spec_interleave(rest)[a - 2]);
            }
        }
    }
}

} // verus!
