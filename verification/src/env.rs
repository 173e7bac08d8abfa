//! The environment map: `env -0` serialisation and deserialisation, the
//! pure-mode re-injection list, and the impure merge.

use vstd::prelude::*;
use crate::bytemap::{lemma_insert_append, sorted_pairs, spec_get, spec_insert, spec_remove,
    ByteMap};
use crate::bytes::{lemma_find_char, lemma_split_prepend, lemma_split_single, spec_find,
    spec_split, split_bytes};
use crate::codec::spec_drop_empty;
use crate::lit::{lit, lit_bytes};

verus! {

/// An ordered environment map; order is the lexicographic order of keys.
pub type EnvMap = ByteMap;

/// The wire form of one variable: `key=value\0`.
pub open spec fn env_record_bytes(p: (Seq<u8>, Seq<u8>)) -> Seq<u8> {
    p.0 + seq![61u8] + p.1 + seq![0u8]
}

/// The `env -0` form of an environment map: its records, in key order.
pub open spec fn spec_serialize_env(s: Seq<(Seq<u8>, Seq<u8>)>) -> Seq<u8>
    decreases s.len(),
{
    if s.len() == 0 {
        Seq::empty()
    } else {
        env_record_bytes(s[0]) + spec_serialize_env(s.drop_first())
    }
}

/// Serialisation restated from the back, as the writing loop proceeds.
pub proof fn lemma_serialize_env_snoc(s: Seq<(Seq<u8>, Seq<u8>)>, x: (Seq<u8>, Seq<u8>))
    ensures
        spec_serialize_env(s.push(x)) == spec_serialize_env(s) + env_record_bytes(x),
    decreases s.len(),
{
    if s.len() == 0 {
        assert(s.push(x)[0] == x);
        assert(s.push(x).drop_first() =~= Seq::<(Seq<u8>, Seq<u8>)>::empty());
        assert(spec_serialize_env(Seq::<(Seq<u8>, Seq<u8>)>::empty()) == Seq::<u8>::empty());
        assert(spec_serialize_env(s.push(x)) == env_record_bytes(x) + Seq::<u8>::empty());
        assert(spec_serialize_env(s) == Seq::<u8>::empty());
        assert(env_record_bytes(x) + Seq::<u8>::empty() =~= env_record_bytes(x));
        assert(Seq::<u8>::empty() + env_record_bytes(x) =~= env_record_bytes(x));
    } else {
        assert(s.push(x).drop_first() =~= s.drop_first().push(x));
        lemma_serialize_env_snoc(s.drop_first(), x);
        assert(spec_serialize_env(s.push(x)) == env_record_bytes(s[0]) + (spec_serialize_env(
            s.drop_first(),
        ) + env_record_bytes(x)));
        assert(env_record_bytes(s[0]) + (spec_serialize_env(s.drop_first()) + env_record_bytes(x))
            =~= (env_record_bytes(s[0]) + spec_serialize_env(s.drop_first())) + env_record_bytes(
            x,
        ));
    }
}

/// Serialise an environment map the way `env -0` prints it.
pub fn serialize_env(env: &EnvMap) -> (r: Vec<u8>)
    ensures
        r@ == spec_serialize_env(env.pairs()),
{
    let mut out: Vec<u8> = Vec::new();
    let n = env.len();
    proof {
        assert(env.pairs().take(0) =~= Seq::<(Seq<u8>, Seq<u8>)>::empty());
        assert(out@ =~= spec_serialize_env(env.pairs().take(0)));
    }
    let mut i: usize = 0;
    while i < n
        invariant
            0 <= i <= n,
            n == env.pairs().len(),
            out@ == spec_serialize_env(env.pairs().take(i as int)),
        decreases n - i,
    {
        crate::bytes::push_all(&mut out, env.key_at(i).as_slice());
        out.push(61);
        crate::bytes::push_all(&mut out, env.val_at(i).as_slice());
        out.push(0);
        proof {
            let t = env.pairs().take(i as int);
            let x = env.pairs()[i as int];
            lemma_serialize_env_snoc(t, x);
            assert(env.pairs().take(i + 1) =~= t.push(x));
            assert(out@ =~= spec_serialize_env(t) + env_record_bytes(x));
        }
        i += 1;
    }
    proof {
        assert(env.pairs().take(n as int) =~= env.pairs());
    }
    out
}

/// One `key=value` field, split at its first `=`; `None` when it has no
/// `=` (such a field is skipped by the loader).
pub open spec fn spec_env_record(f: Seq<u8>) -> Option<(Seq<u8>, Seq<u8>)> {
    let e = spec_find(f, 61);
    if e == -1 {
        None
    } else {
        Some((f.take(e), f.skip(e + 1)))
    }
}

/// The fields folded into a map, later bindings replacing earlier ones.
pub open spec fn spec_fold_env(
    acc: Seq<(Seq<u8>, Seq<u8>)>,
    fields: Seq<Seq<u8>>,
) -> Seq<(Seq<u8>, Seq<u8>)>
    decreases fields.len(),
{
    if fields.len() == 0 {
        acc
    } else {
        match spec_env_record(fields[0]) {
            Some(kv) => spec_fold_env(spec_insert(acc, kv.0, kv.1), fields.drop_first()),
            None => spec_fold_env(acc, fields.drop_first()),
        }
    }
}

/// What deserialising an `env -0` byte string yields.
pub open spec fn spec_deserialize_env(data: Seq<u8>) -> Seq<(Seq<u8>, Seq<u8>)> {
    spec_fold_env(Seq::empty(), spec_drop_empty(spec_split(data, 0)))
}

/// Deserialise environment variables from the `env -0` format.
pub fn deserialize_env(data: &[u8]) -> (r: EnvMap)
    ensures
        r.wf(),
        r.pairs() == spec_deserialize_env(data@),
{
    let pieces = split_bytes(data, 0);
    let mut map = ByteMap::new();
    let ghost pv = pieces.deep_view();
    proof {
        assert(map.pairs() =~= Seq::<(Seq<u8>, Seq<u8>)>::empty());
        assert(pv.skip(0) =~= pv);
    }
    let n: usize = pieces.len();
    let mut i: usize = 0;
    while i < n
        invariant
            0 <= i <= n,
            n == pv.len(),
            pv == pieces.deep_view(),
            map.wf(),
            spec_fold_env(map.pairs(), spec_drop_empty(pv.skip(i as int)))
                == spec_deserialize_env(data@),
        decreases n - i,
    {
        let ghost suf = pv.skip(i as int);
        proof {
            assert(suf[0] == pv[i as int]);
            assert(suf.drop_first() =~= pv.skip(i + 1));
            assert(pieces[i as int]@ =~= pv[i as int]);
        }
        let f = &pieces[i];
        if f.len() > 0 {
            proof {
                assert(spec_drop_empty(suf) == seq![pv[i as int]] + spec_drop_empty(
                    pv.skip(i + 1),
                ));
                assert((seq![pv[i as int]] + spec_drop_empty(pv.skip(i + 1))).drop_first()
                    =~= spec_drop_empty(pv.skip(i + 1)));
                lemma_find_char(f@, 61);
            }
            match crate::bytes::find_byte_from(f.as_slice(), 61, 0) {
                Some(e) => {
                    proof {
                        assert(f@.skip(0) =~= f@);
                    }
                    let k = vstd::slice::slice_to_vec(vstd::slice::slice_subrange(
                        f.as_slice(),
                        0,
                        e,
                    ));
                    let v = vstd::slice::slice_to_vec(vstd::slice::slice_subrange(
                        f.as_slice(),
                        e + 1,
                        f.len(),
                    ));
                    proof {
                        assert(k@ =~= f@.take(e as int));
                        assert(v@ =~= f@.skip(e + 1));
                        assert(spec_env_record(pv[i as int]) == Some((k@, v@)));
                    }
                    map.insert(k, v);
                },
                None => {
                    proof {
                        assert(f@.skip(0) =~= f@);
                        assert(spec_env_record(pv[i as int]) is None);
                    }
                },
            }
        } else {
            proof {
                assert(spec_drop_empty(suf) == spec_drop_empty(pv.skip(i + 1)));
            }
        }
        i += 1;
    }
    proof {
        assert(pv.skip(n as int) =~= Seq::<Seq<u8>>::empty());
    }
    map
}

/// A map the `env -0` format can carry faithfully: keys free of `=` and
/// NUL, values free of NUL.
pub open spec fn env_serialisable(s: Seq<(Seq<u8>, Seq<u8>)>) -> bool {
    forall|i: int| 0 <= i < s.len() ==> {
        let p = #[trigger] s[i];
        &&& forall|j: int| 0 <= j < p.0.len() ==> p.0[j] != 61 && #[trigger] p.0[j] != 0
        &&& forall|j: int| 0 <= j < p.1.len() ==> #[trigger] p.1[j] != 0
    }
}

/// The fields of a serialised environment, one `key=value` per record.
pub open spec fn spec_env_fields(s: Seq<(Seq<u8>, Seq<u8>)>) -> Seq<Seq<u8>>
    decreases s.len(),
{
    if s.len() == 0 {
        Seq::empty()
    } else {
        seq![s[0].0 + seq![61u8] + s[0].1] + spec_env_fields(s.drop_first())
    }
}

/// Splitting a serialised environment at NUL yields its fields and one
/// final empty piece.
proof fn lemma_split_env(t: Seq<(Seq<u8>, Seq<u8>)>)
    requires
        env_serialisable(t),
    ensures
        spec_split(spec_serialize_env(t), 0) == spec_env_fields(t) + seq![Seq::<u8>::empty()],
    decreases t.len(),
{
    if t.len() == 0 {
        lemma_split_single(Seq::empty(), 0);
        assert(spec_split(spec_serialize_env(t), 0) =~= Seq::<Seq<u8>>::empty() + seq![
            Seq::<u8>::empty(),
        ]);
    } else {
        let x = t[0];
        let rest = t.drop_first();
        assert(env_serialisable(rest)) by {
            assert(forall|i: int| 0 <= i < rest.len() ==> #[trigger] rest[i] == t[i + 1]);
        }
        let field = x.0 + seq![61u8] + x.1;
        assert(spec_serialize_env(t) =~= field + seq![0u8] + spec_serialize_env(rest));
        assert(forall|j: int| 0 <= j < field.len() ==> field[j] != 0) by {
            assert(forall|j: int| 0 <= j < x.0.len() ==> field[j] == #[trigger] x.0[j]);
            assert(field[x.0.len() as int] == 61);
            assert(forall|j: int|
                x.0.len() + 1 <= j < field.len() ==> field[j] == #[trigger] x.1[j - x.0.len()
                    - 1]);
        }
        lemma_split_prepend(field, spec_serialize_env(rest), 0);
        lemma_split_env(rest);
        assert(seq![field] + (spec_env_fields(rest) + seq![Seq::<u8>::empty()])
            =~= spec_env_fields(t) + seq![Seq::<u8>::empty()]);
    }
}

/// A trailing empty piece is dropped.
proof fn lemma_drop_empty_snoc_empty(ps: Seq<Seq<u8>>)
    ensures
        spec_drop_empty(ps + seq![Seq::<u8>::empty()]) == spec_drop_empty(ps),
    decreases ps.len(),
{
    let whole = ps + seq![Seq::<u8>::empty()];
    if ps.len() == 0 {
        assert(whole[0].len() == 0);
        assert(whole.drop_first() =~= Seq::<Seq<u8>>::empty());
        assert(spec_drop_empty(Seq::<Seq<u8>>::empty()) == Seq::<Seq<u8>>::empty());
    } else {
        assert(whole[0] == ps[0]);
        assert(whole.drop_first() =~= ps.drop_first() + seq![Seq::<u8>::empty()]);
        lemma_drop_empty_snoc_empty(ps.drop_first());
    }
}

/// Each field of a serialisable record parses back to the record.
proof fn lemma_env_record_parse(k: Seq<u8>, v: Seq<u8>)
    requires
        forall|j: int| 0 <= j < k.len() ==> #[trigger] k[j] != 61,
    ensures
        spec_env_record(k + seq![61u8] + v) == Some((k, v)),
{
    let f = k + seq![61u8] + v;
    lemma_find_char(f, 61);
    let e = spec_find(f, 61);
    assert(f[k.len() as int] == 61);
    if e == -1 {
        assert(false);
    }
    if e < k.len() {
        assert(f[e] == k[e]);
        assert(false);
    }
    if e > k.len() {
        assert(f[k.len() as int] != 61);
        assert(false);
    }
    assert(f.take(e) =~= k);
    assert(f.skip(e + 1) =~= v);
}

/// Folding the fields of a sorted serialisable map rebuilds it.
proof fn lemma_fold_env_sorted(acc: Seq<(Seq<u8>, Seq<u8>)>, t: Seq<(Seq<u8>, Seq<u8>)>)
    requires
        sorted_pairs(acc + t),
        env_serialisable(t),
    ensures
        spec_fold_env(acc, spec_env_fields(t)) == acc + t,
    decreases t.len(),
{
    if t.len() == 0 {
        assert(acc + t =~= acc);
    } else {
        let x = t[0];
        let rest = t.drop_first();
        assert(env_serialisable(rest)) by {
            assert(forall|i: int| 0 <= i < rest.len() ==> #[trigger] rest[i] == t[i + 1]);
        }
        lemma_env_record_parse(x.0, x.1);
        let fields = spec_env_fields(t);
        assert(fields[0] == x.0 + seq![61u8] + x.1);
        assert(fields.drop_first() =~= spec_env_fields(rest));
        let whole = acc + t;
        assert forall|j: int| 0 <= j < acc.len() implies crate::bytes::lex_lt(
            (#[trigger] acc[j]).0,
            x.0,
        ) by {
            assert(whole[j] == acc[j] && whole[acc.len() as int] == x);
            crate::bytemap::lemma_sorted_pairwise(whole, j, acc.len() as int);
        }
        lemma_insert_append(acc, x.0, x.1);
        assert((acc + seq![x]) + rest =~= acc + t);
        lemma_fold_env_sorted(acc + seq![x], rest);
    }
}

/// The serialise/deserialise round trip: any sorted environment map whose
/// keys are `=`-free and NUL-free and whose values are NUL-free is
/// recovered bit-for-bit from its `env -0` form.
pub proof fn lemma_env_round_trip(env: &EnvMap)
    requires
        env.wf(),
        env_serialisable(env.pairs()),
    ensures
        spec_deserialize_env(spec_serialize_env(env.pairs())) == env.pairs(),
{
    let s = env.pairs();
    lemma_split_env(s);
    lemma_drop_empty_snoc_empty(spec_env_fields(s));
    lemma_env_fields_nonempty(s);
    lemma_drop_empty_id_env(spec_env_fields(s));
    assert(Seq::<(Seq<u8>, Seq<u8>)>::empty() + s =~= s);
    lemma_fold_env_sorted(Seq::empty(), s);
}

/// Every field of a serialised environment is non-empty (it holds `=`).
proof fn lemma_env_fields_nonempty(s: Seq<(Seq<u8>, Seq<u8>)>)
    ensures
        forall|i: int| 0 <= i < spec_env_fields(s).len() ==> (#[trigger] spec_env_fields(
            s,
        )[i]).len() > 0,
    decreases s.len(),
{
    if s.len() > 0 {
        lemma_env_fields_nonempty(s.drop_first());
        assert forall|i: int| 0 <= i < spec_env_fields(s).len() implies (
        #[trigger] spec_env_fields(s)[i]).len() > 0 by {
            if i > 0 {
                assert(spec_env_fields(s)[i] == spec_env_fields(s.drop_first())[i - 1]);
            }
        }
    }
}

/// Non-empty pieces pass [`spec_drop_empty`] unchanged.
proof fn lemma_drop_empty_id_env(ps: Seq<Seq<u8>>)
    requires
        forall|a: int| 0 <= a < ps.len() ==> (#[trigger] ps[a]).len() > 0,
    ensures
        spec_drop_empty(ps) == ps,
    decreases ps.len(),
{
    if ps.len() > 0 {
        let d = ps.drop_first();
        assert(forall|a: int| 0 <= a < d.len() ==> (#[trigger] d[a]).len() > 0);
        lemma_drop_empty_id_env(d);
        assert(seq![ps[0]] + d =~= ps);
    }
}

/// Drop the variables a bash session exports on its own: `OLDPWD`, `PWD`,
/// `SHLVL` and `_` carry no information about the derivation.
pub fn strip_session_vars(env: &mut EnvMap)
    requires
        old(env).wf(),
    ensures
        final(env).wf(),
        final(env).pairs() == spec_remove(
            spec_remove(
                spec_remove(spec_remove(old(env).pairs(), lit("OLDPWD")), lit("PWD")),
                lit("SHLVL"),
            ),
            lit("_"),
        ),
{
    proof {
        reveal_strlit("OLDPWD");
        reveal_strlit("PWD");
        reveal_strlit("SHLVL");
        reveal_strlit("_");
    }
    let _ = env.remove_key(&lit_bytes("OLDPWD"));
    let _ = env.remove_key(&lit_bytes("PWD"));
    let _ = env.remove_key(&lit_bytes("SHLVL"));
    let _ = env.remove_key(&lit_bytes("_"));
}

/// The variables that the underlying tool passes through from the ambient
/// environment even in pure mode.
pub open spec fn spec_keep_vars() -> Seq<Seq<u8>> {
    seq![
        lit("USER"),
        lit("LOGNAME"),
        lit("DISPLAY"),
        lit("WAYLAND_DISPLAY"),
        lit("WAYLAND_SOCKET"),
        lit("TERM"),
        lit("NIX_SHELL_PRESERVE_PROMPT"),
        lit("TZ"),
        lit("PAGER"),
        lit("SHLVL"),
    ]
}

/// The keep-list variables present in `amb`, injected into `env` in list
/// order.
pub open spec fn spec_merge_keep_from(
    env: Seq<(Seq<u8>, Seq<u8>)>,
    amb: Seq<(Seq<u8>, Seq<u8>)>,
    i: int,
) -> Seq<(Seq<u8>, Seq<u8>)>
    decreases spec_keep_vars().len() - i,
    when 0 <= i <= spec_keep_vars().len()
{
    if i >= spec_keep_vars().len() {
        env
    } else {
        let nm = spec_keep_vars()[i];
        match spec_get(amb, nm) {
            Some(v) => spec_merge_keep_from(spec_insert(env, nm, v), amb, i + 1),
            None => spec_merge_keep_from(env, amb, i + 1),
        }
    }
}

/// Re-inject the always-kept ambient variables, as the underlying tool
/// does regardless of pure mode.
pub fn merge_env(env: EnvMap, ambient: &EnvMap) -> (r: EnvMap)
    requires
        env.wf(),
    ensures
        r.wf(),
        r.pairs() == spec_merge_keep_from(env.pairs(), ambient.pairs(), 0),
{
    proof {
        reveal_strlit("USER");
        reveal_strlit("LOGNAME");
        reveal_strlit("DISPLAY");
        reveal_strlit("WAYLAND_DISPLAY");
        reveal_strlit("WAYLAND_SOCKET");
        reveal_strlit("TERM");
        reveal_strlit("NIX_SHELL_PRESERVE_PROMPT");
        reveal_strlit("TZ");
        reveal_strlit("PAGER");
        reveal_strlit("SHLVL");
    }
    let mut names: Vec<Vec<u8>> = Vec::new();
    names.push(lit_bytes("USER"));
    names.push(lit_bytes("LOGNAME"));
    names.push(lit_bytes("DISPLAY"));
    names.push(lit_bytes("WAYLAND_DISPLAY"));
    names.push(lit_bytes("WAYLAND_SOCKET"));
    names.push(lit_bytes("TERM"));
    names.push(lit_bytes("NIX_SHELL_PRESERVE_PROMPT"));
    names.push(lit_bytes("TZ"));
    names.push(lit_bytes("PAGER"));
    names.push(lit_bytes("SHLVL"));
    proof {
        assert(names.deep_view() =~~= spec_keep_vars());
    }
    let mut out = env;
    let ghost start = out.pairs();
    let mut i: usize = 0;
    while i < names.len()
        invariant
            0 <= i <= names.len(),
            names.deep_view() == spec_keep_vars(),
            names.len() == spec_keep_vars().len(),
            out.wf(),
            spec_merge_keep_from(out.pairs(), ambient.pairs(), i as int) == spec_merge_keep_from(
                start,
                ambient.pairs(),
                0,
            ),
        decreases names.len() - i,
    {
        proof {
            assert(names[i as int]@ =~= spec_keep_vars()[i as int]);
        }
        match ambient.get(&names[i]) {
            Some(v) => {
                let nm = crate::bytes::clone_bytes(&names[i]);
                let vv = crate::bytes::clone_bytes(v);
                out.insert(nm, vv);
            },
            None => {},
        }
        i += 1;
    }
    out
}

/// The separator-joined variables of the impure merge.
pub open spec fn spec_is_delim_var(v: Seq<u8>) -> bool {
    v == lit("PATH") || v == lit("HOST_PATH") || v == lit("XDG_DATA_DIRS")
}

/// One ambient variable merged into the cached environment: a cached
/// value wins, except that the separator-joined variables take the
/// ambient value appended after a `:`; anything not cached is inherited.
pub open spec fn spec_impure_step(
    env: Seq<(Seq<u8>, Seq<u8>)>,
    var: Seq<u8>,
    val: Seq<u8>,
) -> Seq<(Seq<u8>, Seq<u8>)> {
    match spec_get(env, var) {
        Some(old_val) => if spec_is_delim_var(var) {
            spec_insert(env, var, old_val + seq![58u8] + val)
        } else {
            env
        },
        None => spec_insert(env, var, val),
    }
}

/// The ambient variables from index `i` on, merged in order.
pub open spec fn spec_merge_impure_from(
    env: Seq<(Seq<u8>, Seq<u8>)>,
    amb: Seq<(Seq<u8>, Seq<u8>)>,
    i: int,
) -> Seq<(Seq<u8>, Seq<u8>)>
    decreases amb.len() - i,
    when i >= 0
{
    if i >= amb.len() {
        env
    } else {
        spec_merge_impure_from(spec_impure_step(env, amb[i].0, amb[i].1), amb, i + 1)
    }
}

/// What the impure merge yields: the SSL certificate overrides of the
/// pure setup dropped, `IN_NIX_SHELL=impure` set, then every ambient
/// variable merged by [`spec_impure_step`].
pub open spec fn spec_merge_impure(
    env: Seq<(Seq<u8>, Seq<u8>)>,
    amb: Seq<(Seq<u8>, Seq<u8>)>,
) -> Seq<(Seq<u8>, Seq<u8>)> {
    spec_merge_impure_from(
        spec_insert(
            spec_remove(spec_remove(env, lit("SSL_CERT_FILE")), lit("NIX_SSL_CERT_FILE")),
            lit("IN_NIX_SHELL"),
            lit("impure"),
        ),
        amb,
        0,
    )
}

/// Merge the ambient (impure) environment into the cached one.
pub fn merge_impure_env(env: EnvMap, ambient: &EnvMap) -> (r: EnvMap)
    requires
        env.wf(),
    ensures
        r.wf(),
        r.pairs() == spec_merge_impure(env.pairs(), ambient.pairs()),
{
    proof {
        reveal_strlit("SSL_CERT_FILE");
        reveal_strlit("NIX_SSL_CERT_FILE");
        reveal_strlit("IN_NIX_SHELL");
        reveal_strlit("impure");
        reveal_strlit("PATH");
        reveal_strlit("HOST_PATH");
        reveal_strlit("XDG_DATA_DIRS");
    }
    let mut out = env;
    let _ = out.remove_key(&lit_bytes("SSL_CERT_FILE"));
    let _ = out.remove_key(&lit_bytes("NIX_SSL_CERT_FILE"));
    out.insert(lit_bytes("IN_NIX_SHELL"), lit_bytes("impure"));
    let ghost base = out.pairs();
    let n = ambient.len();
    let mut i: usize = 0;
    while i < n
        invariant
            0 <= i <= n,
            n == ambient.pairs().len(),
            out.wf(),
            spec_merge_impure_from(out.pairs(), ambient.pairs(), i as int)
                == spec_merge_impure_from(base, ambient.pairs(), 0),
        decreases n - i,
    {
        proof {
            reveal_strlit("PATH");
            reveal_strlit("HOST_PATH");
            reveal_strlit("XDG_DATA_DIRS");
        }
        let var = ambient.key_at(i);
        let val = ambient.val_at(i);
        let ghost before = out.pairs();
        match out.get(var) {
            Some(old_val) => {
                let is_delim = crate::lit::bytes_is(var.as_slice(), "PATH") || crate::lit::bytes_is(
                    var.as_slice(),
                    "HOST_PATH",
                ) || crate::lit::bytes_is(var.as_slice(), "XDG_DATA_DIRS");
                if is_delim {
                    let mut joined = crate::bytes::clone_bytes(old_val);
                    joined.push(58);
                    crate::bytes::push_all(&mut joined, val.as_slice());
                    proof {
                        assert(joined@ =~= spec_get(before, ambient.pairs()[i as int].0).unwrap()
                            + seq![58u8] + ambient.pairs()[i as int].1);
                    }
                    let var2 = crate::bytes::clone_bytes(var);
                    out.insert(var2, joined);
                }
            },
            None => {
                let var2 = crate::bytes::clone_bytes(var);
                let val2 = crate::bytes::clone_bytes(val);
                out.insert(var2, val2);
            },
        }
        proof {
            assert(out.pairs() == spec_impure_step(
                before,
                ambient.pairs()[i as int].0,
                ambient.pairs()[i as int].1,
            ));
        }
        i += 1;
    }
    out
}

/// Same as bash's `"$a:$b"`: the two (possibly absent) search paths
/// joined with a single `:`.
pub fn env_path_concat(a: Option<&Vec<u8>>, b: Option<&Vec<u8>>) -> (r: Vec<u8>)
    ensures
        r@ == (match a {
            Some(x) => x@,
            None => Seq::<u8>::empty(),
        }) + seq![58u8] + (match b {
            Some(x) => x@,
            None => Seq::<u8>::empty(),
        }),
{
    let mut out: Vec<u8> = Vec::new();
    match a {
        Some(x) => {
            crate::bytes::push_all(&mut out, x.as_slice());
        },
        None => {},
    }
    out.push(58);
    match b {
        Some(x) => {
            crate::bytes::push_all(&mut out, x.as_slice());
        },
        None => {},
    }
    proof {
        assert(out@ =~= (match a {
            Some(x) => x@,
            None => Seq::<u8>::empty(),
        }) + seq![58u8] + (match b {
            Some(x) => x@,
            None => Seq::<u8>::empty(),
        }));
    }
    out
}

} // verus!
