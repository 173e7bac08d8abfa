//! Shebang-script parsing: find every `#!nix-shell ...` line of a script
//! and split it into words the way the underlying tool does.

use vstd::prelude::*;
use crate::bytes::{spec_split, split_bytes, spec_starts_with};
use crate::lit::{bytes_starts_with_lit, lit};

verus! {

/// Bytes matched by `\s` / `isspace(3)`: tab, newline, vertical tab,
/// form feed, carriage return, space.
pub open spec fn is_space_byte(c: u8) -> bool {
    c == 9 || c == 10 || c == 11 || c == 12 || c == 13 || c == 32
}

/// The number of space bytes at the start of `s`.
pub open spec fn spec_leading_spaces(s: Seq<u8>) -> int
    decreases s.len(),
{
    if s.len() > 0 && is_space_byte(s[0]) {
        1 + spec_leading_spaces(s.drop_first())
    } else {
        0
    }
}

/// [`spec_leading_spaces`] counts a maximal run of space bytes.
pub proof fn lemma_leading_spaces(s: Seq<u8>)
    ensures
        0 <= spec_leading_spaces(s) <= s.len(),
        forall|j: int| 0 <= j < spec_leading_spaces(s) ==> is_space_byte(#[trigger] s[j]),
        spec_leading_spaces(s) < s.len() ==> !is_space_byte(s[spec_leading_spaces(s)]),
    decreases s.len(),
{
    if s.len() > 0 && is_space_byte(s[0]) {
        lemma_leading_spaces(s.drop_first());
        let r = spec_leading_spaces(s);
        assert forall|j: int| 0 <= j < r implies is_space_byte(s[j]) by {
            if j >= 1 {
                assert(is_space_byte(s.drop_first()[j - 1]));
            }
        }
        if r < s.len() {
            assert(s[r] == s.drop_first()[r - 1]);
        }
    }
}

/// Length of the leading whitespace of `line`, when there is any.
pub fn re_whitespaces_len(line: &[u8]) -> (r: Option<usize>)
    ensures
        match r {
            Some(k) => k == spec_leading_spaces(line@) && k > 0,
            None => spec_leading_spaces(line@) == 0,
        },
{
    proof {
        lemma_leading_spaces(line@);
    }
    let n: usize = line.len();
    let mut k: usize = 0;
    while k < n && (line[k] == 9 || line[k] == 10 || line[k] == 11 || line[k] == 12 || line[k]
        == 13 || line[k] == 32)
        invariant
            0 <= k <= n,
            n == line@.len(),
            forall|j: int| 0 <= j < k ==> is_space_byte(#[trigger] line@[j]),
        decreases n - k,
    {
        k += 1;
    }
    proof {
        let r = spec_leading_spaces(line@);
        if r < k {
            assert(is_space_byte(line@[r]));
            assert(false);
        }
        if r > k {
            assert(is_space_byte(line@[k as int]));
            assert(false);
        }
    }
    if k == 0 {
        None
    } else {
        Some(k)
    }
}

/// The capture of `^#!\s*nix-shell (.*)$` applied to `line`, if it matches.
pub open spec fn spec_re_nix_shell(line: Seq<u8>) -> Option<Seq<u8>> {
    if !spec_starts_with(line, lit("#!")) {
        None
    } else {
        let t = line.skip(2);
        let u = t.skip(spec_leading_spaces(t));
        if spec_starts_with(u, lit("nix-shell ")) {
            Some(u.skip(lit("nix-shell ").len() as int))
        } else {
            None
        }
    }
}

/// Match a `#!nix-shell ` line and return the text after the marker.
pub fn re_nix_shell(line: &[u8]) -> (r: Option<Vec<u8>>)
    ensures
        match r {
            Some(m) => spec_re_nix_shell(line@) == Some(m@),
            None => spec_re_nix_shell(line@) is None,
        },
{
    proof {
        reveal_strlit("#!");
        reveal_strlit("nix-shell ");
    }
    if !bytes_starts_with_lit(line, "#!") {
        return None;
    }
    let t = vstd::slice::slice_subrange(line, 2, line.len());
    proof {
        assert(t@ =~= line@.skip(2));
        lemma_leading_spaces(t@);
    }
    let k: usize = match re_whitespaces_len(t) {
        Some(k) => k,
        None => 0,
    };
    let u = vstd::slice::slice_subrange(t, k, t.len());
    proof {
        assert(u@ =~= t@.skip(k as int));
    }
    if !bytes_starts_with_lit(u, "nix-shell ") {
        return None;
    }
    let m = vstd::slice::slice_to_vec(vstd::slice::slice_subrange(u, 10, u.len()));
    proof {
        assert(lit("nix-shell ").len() == 10);
        assert(m@ =~= u@.skip(10));
    }
    Some(m)
}

/// One step of the word scanner's state: position, start of the pending
/// literal run, the word collected so far, whether we are outside quotes,
/// and the words already emitted.  Mirrors the underlying tool's scanner:
/// unquoted whitespace separates words, `"…"` groups, `\x` yields `x`.
pub open spec fn spec_shellwords_loop(
    s: Seq<u8>,
    it: int,
    begin: int,
    cur: Seq<u8>,
    state: bool,
    res: Seq<Seq<u8>>,
) -> Seq<Seq<u8>>
    decreases s.len() + 2 - it,
    when 0 <= begin <= s.len() && begin <= it <= s.len() + 1
    via spec_shellwords_loop_decreases
{
    if it >= s.len() {
        let w = cur + s.subrange(begin, s.len() as int);
        if w.len() > 0 {
            res.push(w)
        } else {
            res
        }
    } else if state && is_space_byte(s[it]) {
        let k = spec_leading_spaces(s.skip(it));
        spec_shellwords_loop(
            s,
            it + k,
            it + k,
            Seq::empty(),
            state,
            res.push(cur + s.subrange(begin, it)),
        )
    } else if s[it] == 34 {
        spec_shellwords_loop(s, it + 1, it + 1, cur + s.subrange(begin, it), !state, res)
    } else if s[it] == 92 {
        spec_shellwords_loop(s, it + 2, it + 1, cur + s.subrange(begin, it), state, res)
    } else {
        spec_shellwords_loop(s, it + 1, begin, cur, state, res)
    }
}

#[via_fn]
proof fn spec_shellwords_loop_decreases(
    s: Seq<u8>,
    it: int,
    begin: int,
    cur: Seq<u8>,
    state: bool,
    res: Seq<Seq<u8>>,
) {
    if 0 <= it < s.len() && state && is_space_byte(s[it]) {
        lemma_leading_spaces(s.skip(it));
        assert(spec_leading_spaces(s.skip(it)) >= 1);
        assert(spec_leading_spaces(s.skip(it)) <= s.len() - it);
    }
}

/// The words of `s`, split the way the underlying tool splits a
/// `#!nix-shell` line.  A lone trailing backslash is dropped.
pub open spec fn spec_shellwords(s: Seq<u8>) -> Seq<Seq<u8>> {
    spec_shellwords_loop(s, 0, 0, Seq::empty(), true, Seq::empty())
}

/// Split a `#!nix-shell` line into words: unquoted whitespace separates,
/// `"…"` groups, `\x` yields `x`.
pub fn shellwords(s: &[u8]) -> (r: Vec<Vec<u8>>)
    ensures
        r.deep_view() == spec_shellwords(s@),
{
    let n: usize = s.len();
    let mut res: Vec<Vec<u8>> = Vec::new();
    let mut cur: Vec<u8> = Vec::new();
    let mut it: usize = 0;
    let mut begin: usize = 0;
    let mut state: bool = true;
    proof {
        assert(res.deep_view() =~= Seq::<Seq<u8>>::empty());
        assert(cur@ =~= Seq::<u8>::empty());
    }
    while it < n
        invariant
            n == s@.len(),
            0 <= begin <= n,
            begin <= it <= n + 1,
            spec_shellwords_loop(s@, it as int, begin as int, cur@, state, res.deep_view())
                == spec_shellwords(s@),
        decreases n + 2 - it,
    {
        let ghost g_it = it as int;
        let ghost g_begin = begin as int;
        let ghost g_cur = cur@;
        let ghost g_state = state;
        let ghost g_res = res.deep_view();
        let c = s[it];
        if state && (c == 9 || c == 10 || c == 11 || c == 12 || c == 13 || c == 32) {
            let sub = vstd::slice::slice_subrange(s, it, n);
            proof {
                assert(sub@ =~= s@.skip(g_it));
                lemma_leading_spaces(s@.skip(g_it));
            }
            let k: usize = match re_whitespaces_len(sub) {
                Some(k) => k,
                None => 1,  // unreachable: the byte at `it` is a space
            };
            proof {
                assert(k == spec_leading_spaces(s@.skip(g_it)));
            }
            let mut word = cur;
            crate::bytes::push_all(&mut word, vstd::slice::slice_subrange(s, begin, it));
            proof {
                assert(word@ =~= g_cur + s@.subrange(g_begin, g_it));
            }
            let ghost old_res = res.deep_view();
            res.push(word);
            cur = Vec::new();
            proof {
                assert(res.deep_view() =~~= old_res.push(g_cur + s@.subrange(g_begin, g_it)));
                assert(cur@ =~= Seq::<u8>::empty());
            }
            it += k;
            begin = it;
            proof {
                assert(res.deep_view() == g_res.push(g_cur + s@.subrange(g_begin, g_it)));
                assert(it as int == g_it + spec_leading_spaces(s@.skip(g_it)));
                assert(spec_shellwords_loop(s@, g_it, g_begin, g_cur, g_state, g_res)
                    == spec_shellwords_loop(
                    s@,
                    it as int,
                    begin as int,
                    cur@,
                    state,
                    res.deep_view(),
                ));
            }
        } else if c == 34 {
            let mut w = cur;
            crate::bytes::push_all(&mut w, vstd::slice::slice_subrange(s, begin, it));
            proof {
                assert(w@ =~= g_cur + s@.subrange(g_begin, g_it));
            }
            cur = w;
            begin = it + 1;
            state = !state;
            it += 1;
            proof {
                assert(spec_shellwords_loop(s@, g_it, g_begin, g_cur, g_state, g_res)
                    == spec_shellwords_loop(
                    s@,
                    it as int,
                    begin as int,
                    cur@,
                    state,
                    res.deep_view(),
                ));
            }
        } else if c == 92 {
            let mut w = cur;
            crate::bytes::push_all(&mut w, vstd::slice::slice_subrange(s, begin, it));
            proof {
                assert(w@ =~= g_cur + s@.subrange(g_begin, g_it));
            }
            cur = w;
            begin = it + 1;
            if it + 1 < n {
                it += 2;
            } else {
                it = n;
            }
            proof {
                // Clamping to `n` does not change the scanner's result: both
                // positions are at or beyond the end of the input.
                if g_it + 2 > n {
                    assert(spec_shellwords_loop(
                        s@,
                        g_it + 2,
                        g_it + 1,
                        g_cur + s@.subrange(g_begin, g_it),
                        g_state,
                        g_res,
                    ) == spec_shellwords_loop(
                        s@,
                        n as int,
                        g_it + 1,
                        g_cur + s@.subrange(g_begin, g_it),
                        g_state,
                        g_res,
                    ));
                }
                assert(spec_shellwords_loop(s@, g_it, g_begin, g_cur, g_state, g_res)
                    == spec_shellwords_loop(
                    s@,
                    g_it + 2,
                    g_it + 1,
                    g_cur + s@.subrange(g_begin, g_it),
                    g_state,
                    g_res,
                ));
                assert(spec_shellwords_loop(s@, g_it, g_begin, g_cur, g_state, g_res)
                    == spec_shellwords_loop(
                    s@,
                    it as int,
                    begin as int,
                    cur@,
                    state,
                    res.deep_view(),
                ));
            }
        } else {
            it += 1;
            proof {
                assert(spec_shellwords_loop(s@, g_it, g_begin, g_cur, g_state, g_res)
                    == spec_shellwords_loop(
                    s@,
                    it as int,
                    begin as int,
                    cur@,
                    state,
                    res.deep_view(),
                ));
            }
        }
    }
    let mut word = cur;
    crate::bytes::push_all(&mut word, vstd::slice::slice_subrange(s, begin, n));
    proof {
        assert(word@ =~= cur@ + s@.subrange(begin as int, n as int));
    }
    if word.len() > 0 {
        let ghost old_res = res.deep_view();
        res.push(word);
        proof {
            assert(res.deep_view() =~~= old_res.push(word@));
        }
    }
    res
}

/// The effective command line of a script: the concatenated words of every
/// `#!nix-shell` line after the first line.
pub open spec fn spec_script_args(lines: Seq<Seq<u8>>, i: int) -> Seq<Seq<u8>>
    decreases lines.len() - i,
    when i >= 0
{
    if i >= lines.len() {
        Seq::empty()
    } else {
        (match spec_re_nix_shell(lines[i]) {
            Some(m) => spec_shellwords(m),
            None => Seq::empty(),
        }) + spec_script_args(lines, i + 1)
    }
}

/// The lines of a byte string, separated by newline bytes; a final
/// newline does not open an extra empty line.
pub open spec fn spec_lines(data: Seq<u8>) -> Seq<Seq<u8>> {
    let p = spec_split(data, 10);
    if p.len() > 1 && p.last().len() == 0 {
        p.drop_last()
    } else {
        p
    }
}

/// What [`parse_script`] returns: `None` unless the first line starts
/// with `#!`, else every `#!nix-shell` line's words, in order.
pub open spec fn spec_parse_script(data: Seq<u8>) -> Option<Seq<Seq<u8>>> {
    let lines = spec_lines(data);
    if lines.len() == 0 || !spec_starts_with(lines[0], lit("#!")) {
        None
    } else {
        Some(spec_script_args(lines, 1))
    }
}

/// Parse a script's contents in the same way as the underlying tool does:
/// decline unless it starts with a shebang, else gather the words of all
/// `#!nix-shell` lines.
pub fn parse_script(data: &[u8]) -> (r: Option<Vec<Vec<u8>>>)
    ensures
        match r {
            Some(args) => spec_parse_script(data@) == Some(args.deep_view()),
            None => spec_parse_script(data@) is None,
        },
{
    proof {
        reveal_strlit("#!");
    }
    let pieces = split_bytes(data, 10);
    let mut lines = pieces;
    if lines.len() > 1 {
        let last_is_empty = lines[lines.len() - 1].len() == 0;
        if last_is_empty {
            let _ = lines.pop();
        }
    }
    proof {
        assert(lines.deep_view() =~= spec_lines(data@));
    }
    if lines.len() == 0 {
        return None;
    }
    proof {
        assert(lines[0]@ =~= lines.deep_view()[0]);
    }
    if !bytes_starts_with_lit(lines[0].as_slice(), "#!") {
        return None;
    }
    let mut result: Vec<Vec<u8>> = Vec::new();
    let ghost glines = lines.deep_view();
    let mut i: usize = 1;
    proof {
        assert(result.deep_view() =~= Seq::<Seq<u8>>::empty());
        assert(Seq::<Seq<u8>>::empty() + spec_script_args(glines, 1) =~= spec_script_args(
            glines,
            1,
        ));
    }
    while i < lines.len()
        invariant
            1 <= i <= lines.len(),
            glines == lines.deep_view(),
            result.deep_view() + spec_script_args(glines, i as int) == spec_script_args(glines, 1),
        decreases lines.len() - i,
    {
        let ghost old_result = result.deep_view();
        proof {
            assert(lines[i as int]@ =~= glines[i as int]);
        }
        match re_nix_shell(lines[i].as_slice()) {
            Some(m) => {
                let words = shellwords(m.as_slice());
                let ghost gwords = words.deep_view();
                let wn: usize = words.len();
                let mut j: usize = 0;
                while j < wn
                    invariant
                        0 <= j <= wn,
                        wn == words.len(),
                        gwords == words.deep_view(),
                        result.deep_view() == old_result + gwords.take(j as int),
                    decreases wn - j,
                {
                    let w = crate::bytes::clone_bytes(&words[j]);
                    let ghost before = result.deep_view();
                    result.push(w);
                    proof {
                        assert(result.deep_view() =~~= before.push(gwords[j as int]));
                        assert(before.push(gwords[j as int]) =~= old_result + gwords.take(
                            j + 1,
                        ));
                    }
                    j += 1;
                }
                proof {
                    assert(gwords.take(wn as int) =~= gwords);
                    assert(spec_script_args(glines, i as int) == spec_shellwords(m@)
                        + spec_script_args(glines, i + 1));
                    assert((old_result + gwords) + spec_script_args(glines, i + 1) =~= old_result
                        + (gwords + spec_script_args(glines, i + 1)));
                }
            },
            None => {
                proof {
                    assert(spec_script_args(glines, i as int) == spec_script_args(glines, i + 1));
                    assert(Seq::<Seq<u8>>::empty() + spec_script_args(glines, i + 1)
                        =~= spec_script_args(glines, i + 1));
                }
            },
        }
        i += 1;
    }
    proof {
        assert(spec_script_args(glines, lines.len() as int) == Seq::<Seq<u8>>::empty());
        assert(result.deep_view() + Seq::<Seq<u8>>::empty() =~= result.deep_view());
    }
    Some(result)
}

} // verus!
