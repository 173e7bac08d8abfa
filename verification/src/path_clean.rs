//! Lexical path cleaning on raw bytes: collapse `//`, drop `.`, resolve
//! `..` where a parent component is present.  Byte-level on purpose: a
//! path need not be valid UTF-8.

use vstd::prelude::*;
use crate::bytes::spec_split;

verus! {

/// An absolute path: one that begins with `/`.
pub open spec fn spec_is_abs(p: Seq<u8>) -> bool {
    p.len() > 0 && p[0] == 47
}

/// The named components of a path: split at `/`, empty pieces and `.`
/// dropped.
pub open spec fn spec_components(p: Seq<u8>) -> Seq<Seq<u8>> {
    spec_filter_components(spec_split(p, 47))
}

/// Drop empty pieces and `.` pieces.
pub open spec fn spec_filter_components(ps: Seq<Seq<u8>>) -> Seq<Seq<u8>>
    decreases ps.len(),
{
    if ps.len() == 0 {
        Seq::empty()
    } else if ps[0].len() == 0 || ps[0] == seq![46u8] {
        spec_filter_components(ps.drop_first())
    } else {
        seq![ps[0]] + spec_filter_components(ps.drop_first())
    }
}

/// One component applied to the stack of kept components.  `..` pops a
/// real parent, stays at the root of an absolute path, and accumulates
/// at the front of a relative one.
pub open spec fn spec_clean_step(stack: Seq<Seq<u8>>, part: Seq<u8>, abs: bool) -> Seq<Seq<u8>> {
    if part == seq![46u8, 46u8] {
        if stack.len() > 0 && stack.last() != seq![46u8, 46u8] {
            stack.drop_last()
        } else if abs {
            stack
        } else {
            stack.push(part)
        }
    } else {
        stack.push(part)
    }
}

/// The component stack after processing `parts` from index `i` on.
pub open spec fn spec_clean_fold(
    stack: Seq<Seq<u8>>,
    parts: Seq<Seq<u8>>,
    i: int,
    abs: bool,
) -> Seq<Seq<u8>>
    decreases parts.len() - i,
    when i >= 0
{
    if i >= parts.len() {
        stack
    } else {
        spec_clean_fold(spec_clean_step(stack, parts[i], abs), parts, i + 1, abs)
    }
}

/// Components joined with `/` between them.
pub open spec fn spec_join_slash(parts: Seq<Seq<u8>>) -> Seq<u8>
    decreases parts.len(),
{
    if parts.len() == 0 {
        Seq::empty()
    } else if parts.len() == 1 {
        parts[0]
    } else {
        parts[0] + seq![47u8] + spec_join_slash(parts.drop_first())
    }
}

/// The cleaned form of a path: its component stack rendered back, `/`
/// restored in front of an absolute path, `.` standing for an emptied
/// relative one.
pub open spec fn spec_path_clean(p: Seq<u8>) -> Seq<u8> {
    let abs = spec_is_abs(p);
    let stack = spec_clean_fold(Seq::empty(), spec_components(p), 0, abs);
    if abs {
        seq![47u8] + spec_join_slash(stack)
    } else if stack.len() == 0 {
        seq![46u8]
    } else {
        spec_join_slash(stack)
    }
}

/// Lexical path cleaning.
pub trait PathClean {
    /// The bytes of the path to clean.
    spec fn path_bytes(&self) -> Seq<u8>;

    /// The cleaned path: no `//`, no `.`, `..` only where it cannot be
    /// resolved.
    fn clean(&self) -> (r: Vec<u8>)
        ensures
            r@ == spec_path_clean(self.path_bytes()),
    ;
}

impl PathClean for Vec<u8> {
    open spec fn path_bytes(&self) -> Seq<u8> {
        self@
    }

    fn clean(&self) -> (r: Vec<u8>)
        ensures
            r@ == spec_path_clean(self@),
    {
        let abs = self.len() > 0 && self[0] == 47;
        let pieces = crate::bytes::split_bytes(self.as_slice(), 47);
        let ghost pv = pieces.deep_view();
        // Keep the named components.
        let mut parts: Vec<Vec<u8>> = Vec::new();
        proof {
            assert(pv.skip(0) =~= pv);
            assert(parts.deep_view() =~= Seq::<Seq<u8>>::empty());
            assert(Seq::<Seq<u8>>::empty() + spec_filter_components(pv)
                =~= spec_filter_components(pv));
        }
        let mut i: usize = 0;
        while i < pieces.len()
            invariant
                0 <= i <= pieces.len(),
                pv == pieces.deep_view(),
                parts.deep_view() + spec_filter_components(pv.skip(i as int))
                    == spec_filter_components(pv),
            decreases pieces.len() - i,
        {
            let ghost suf = pv.skip(i as int);
            proof {
                assert(suf[0] == pv[i as int]);
                assert(suf.drop_first() =~= pv.skip(i + 1));
                assert(pieces[i as int]@ =~= pv[i as int]);
            }
            let p = &pieces[i];
            let is_dot = p.len() == 1 && p[0] == 46;
            proof {
                if is_dot {
                    assert(pv[i as int] =~= seq![46u8]);
                }
                if !is_dot && pv[i as int] == seq![46u8] {
                    assert(p@.len() == 1 && p@[0] == 46);
                    assert(false);
                }
            }
            if p.len() == 0 || is_dot {
                proof {
                    assert(spec_filter_components(suf) == spec_filter_components(pv.skip(i + 1)));
                }
            } else {
                let ghost old_parts = parts.deep_view();
                parts.push(crate::bytes::clone_bytes(p));
                proof {
                    assert(parts.deep_view() =~~= old_parts + seq![pv[i as int]]);
                    assert(spec_filter_components(suf) == seq![pv[i as int]]
                        + spec_filter_components(pv.skip(i + 1)));
                    assert((old_parts + seq![pv[i as int]]) + spec_filter_components(
                        pv.skip(i + 1),
                    ) =~= old_parts + (seq![pv[i as int]] + spec_filter_components(
                        pv.skip(i + 1),
                    )));
                }
            }
            i += 1;
        }
        proof {
            assert(pv.skip(pieces.len() as int) =~= Seq::<Seq<u8>>::empty());
            assert(parts.deep_view() + Seq::<Seq<u8>>::empty() =~= parts.deep_view());
        }
        let ghost cv = parts.deep_view();
        // Resolve `..` against the stack.
        let mut stack: Vec<Vec<u8>> = Vec::new();
        proof {
            assert(stack.deep_view() =~= Seq::<Seq<u8>>::empty());
        }
        let mut j: usize = 0;
        while j < parts.len()
            invariant
                0 <= j <= parts.len(),
                cv == parts.deep_view(),
                spec_clean_fold(stack.deep_view(), cv, j as int, abs) == spec_clean_fold(
                    Seq::empty(),
                    cv,
                    0,
                    abs,
                ),
            decreases parts.len() - j,
        {
            let ghost sv = stack.deep_view();
            proof {
                assert(parts[j as int]@ =~= cv[j as int]);
            }
            let p = &parts[j];
            let is_dotdot = p.len() == 2 && p[0] == 46 && p[1] == 46;
            proof {
                if is_dotdot {
                    assert(cv[j as int] =~= seq![46u8, 46u8]);
                }
                if !is_dotdot && cv[j as int] == seq![46u8, 46u8] {
                    assert(p@.len() == 2 && p@[0] == 46 && p@[1] == 46);
                    assert(false);
                }
            }
            if is_dotdot {
                let top_is_dotdot = if stack.len() > 0 {
                    let t = &stack[stack.len() - 1];
                    t.len() == 2 && t[0] == 46 && t[1] == 46
                } else {
                    false
                };
                proof {
                    if stack.len() > 0 {
                        assert(stack[stack@.len() - 1]@ == sv.last());
                        if top_is_dotdot {
                            assert(sv.last() =~= seq![46u8, 46u8]);
                        }
                        if !top_is_dotdot && sv.last() == seq![46u8, 46u8] {
                            assert(false);
                        }
                    }
                }
                if stack.len() > 0 && !top_is_dotdot {
                    let _ = stack.pop();
                    proof {
                        assert(stack.deep_view() =~= sv.drop_last());
                    }
                } else if abs {
                    // `..` at the root of an absolute path goes nowhere.
                } else {
                    stack.push(crate::bytes::clone_bytes(p));
                    proof {
                        assert(stack.deep_view() =~~= sv.push(seq![46u8, 46u8]));
                    }
                }
            } else {
                stack.push(crate::bytes::clone_bytes(p));
                proof {
                    assert(stack.deep_view() =~~= sv.push(cv[j as int]));
                }
            }
            proof {
                assert(stack.deep_view() == spec_clean_step(sv, cv[j as int], abs));
            }
            j += 1;
        }
        let ghost fstack = stack.deep_view();
        // Render.
        let mut out: Vec<u8> = Vec::new();
        if abs {
            out.push(47);
        }
        if !abs && stack.len() == 0 {
            out.push(46);
            proof {
                assert(out@ =~= spec_path_clean(self@));
            }
            return out;
        }
        let ghost base = out@;
        proof {
            assert(fstack.skip(0) =~= fstack);
        }
        let mut k: usize = 0;
        while k < stack.len()
            invariant
                0 <= k <= stack.len(),
                fstack == stack.deep_view(),
                out@ == base + (if k == 0 {
                    Seq::<u8>::empty()
                } else {
                    spec_join_slash(fstack.take(k as int))
                }),
            decreases stack.len() - k,
        {
            if k > 0 {
                out.push(47);
            }
            proof {
                assert(stack[k as int]@ == fstack[k as int]);
            }
            crate::bytes::push_all(&mut out, stack[k].as_slice());
            proof {
                lemma_join_slash_snoc(fstack.take(k as int), fstack[k as int]);
                assert(fstack.take(k + 1) =~= fstack.take(k as int).push(fstack[k as int]));
                if k == 0 {
                    assert(out@ =~= base + spec_join_slash(fstack.take(1)));
                } else {
                    assert(out@ =~= base + spec_join_slash(fstack.take(k + 1)));
                }
            }
            k += 1;
        }
        proof {
            assert(fstack.take(stack@.len() as int) =~= fstack);
            if abs {
                assert(out@ =~= spec_path_clean(self@));
            } else {
                assert(stack@.len() > 0);
                assert(out@ =~= spec_path_clean(self@));
            }
        }
        out
    }
}

/// Joining restated from the back, as the rendering loop proceeds.
proof fn lemma_join_slash_snoc(parts: Seq<Seq<u8>>, x: Seq<u8>)
    ensures
        parts.len() == 0 ==> spec_join_slash(parts.push(x)) == x,
        parts.len() > 0 ==> spec_join_slash(parts.push(x)) == spec_join_slash(parts) + seq![47u8]
            + x,
    decreases parts.len(),
{
    if parts.len() == 0 {
        assert(parts.push(x)[0] == x);
    } else if parts.len() == 1 {
        assert(parts.push(x)[0] == parts[0]);
        assert(parts.push(x).drop_first() =~= seq![x]);
        assert(spec_join_slash(seq![x]) == x);
    } else {
        assert(parts.push(x)[0] == parts[0]);
        assert(parts.push(x).drop_first() =~= parts.drop_first().push(x));
        lemma_join_slash_snoc(parts.drop_first(), x);
        assert(parts[0] + seq![47u8] + (spec_join_slash(parts.drop_first()) + seq![47u8] + x)
            =~= (parts[0] + seq![47u8] + spec_join_slash(parts.drop_first())) + seq![47u8] + x);
    }
}

} // verus!
