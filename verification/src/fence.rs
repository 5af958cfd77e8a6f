//! Fence computation.
//!
//! A text payload is wrapped in a fence of backticks.  So that no payload
//! line can be mistaken for the closing fence, the fence is one byte longer
//! than the longest backtick run that opens any (left-trimmed) payload line,
//! and at least three bytes long.

use vstd::prelude::*;
use crate::bytes::{NL, BT, run_len, split_bytes, lemma_find_byte, lemma_run_len,
    lemma_run_len_is, find_byte_in, run_len_in};

verus! {

/// ASCII whitespace that the left-trim of a line removes.
pub open spec fn is_ws(b: u8) -> bool {
    b == 32 || b == 9 || b == 11 || b == 12 || b == 13
}

/// Length of the longest whitespace prefix of `s`.
pub open spec fn ws_len(s: Seq<u8>) -> nat
    decreases s.len(),
{
    if s.len() == 0 {
        0
    } else if is_ws(s[0]) {
        (1 + ws_len(s.skip(1))) as nat
    } else {
        0
    }
}

pub proof fn lemma_ws_len(s: Seq<u8>)
    ensures
        ws_len(s) <= s.len(),
        forall|j: int| 0 <= j < ws_len(s) ==> is_ws(s[j]),
        ws_len(s) < s.len() ==> !is_ws(s[ws_len(s) as int]),
    decreases s.len(),
{
    if s.len() == 0 {
    } else if is_ws(s[0]) {
        lemma_ws_len(s.skip(1));
        assert forall|j: int| 0 <= j < ws_len(s) implies is_ws(s[j]) by {
            if j > 0 {
                assert(is_ws(s.skip(1)[j - 1]));
            }
        }
    } else {
    }
}

pub proof fn lemma_ws_len_is(s: Seq<u8>, m: int)
    requires
        0 <= m <= s.len(),
        forall|j: int| 0 <= j < m ==> is_ws(s[j]),
        m < s.len() ==> !is_ws(s[m]),
    ensures
        ws_len(s) == m,
    decreases s.len(),
{
    if s.len() == 0 {
    } else if is_ws(s[0]) {
        assert(m >= 1) by {
            if m == 0 {
                assert(!is_ws(s[0]));
            }
        }
        lemma_ws_len_is(s.skip(1), m - 1);
    } else {
        assert(m == 0);
    }
}

/// The backtick run that opens the left-trimmed line `l`.
pub open spec fn line_run(l: Seq<u8>) -> nat {
    run_len(l.skip(ws_len(l) as int), BT)
}

/// The longest opening backtick run over a sequence of lines.
pub open spec fn max_run(ls: Seq<Seq<u8>>) -> nat
    decreases ls.len(),
{
    if ls.len() == 0 {
        0
    } else {
        let rest = max_run(ls.skip(1));
        if line_run(ls[0]) > rest {
            line_run(ls[0])
        } else {
            rest
        }
    }
}

pub proof fn lemma_max_run_ge(ls: Seq<Seq<u8>>)
    ensures
        forall|k: int| 0 <= k < ls.len() ==> line_run(#[trigger] ls[k]) <= max_run(ls),
    decreases ls.len(),
{
    if ls.len() == 0 {
    } else {
        lemma_max_run_ge(ls.skip(1));
        assert forall|k: int| 0 <= k < ls.len() implies line_run(ls[k]) <= max_run(ls) by {
            if k > 0 {
                assert(line_run(ls.skip(1)[k - 1]) <= max_run(ls.skip(1)));
            }
        }
    }
}

/// The fence length chosen for `payload`: one more than the longest opening
/// backtick run of its lines, and at least three.
pub open spec fn fence_len(payload: Seq<u8>) -> nat {
    let m = max_run(split_bytes(payload, NL));
    if m < 2 {
        3
    } else {
        (m + 1) as nat
    }
}

/// A run of `n` fence bytes.
pub open spec fn fence_seq(n: nat) -> Seq<u8> {
    Seq::new(n, |i: int| BT)
}

/// The fence is long enough that no payload line can equal it.
pub proof fn lemma_fence_safety(payload: Seq<u8>)
    ensures
        fence_len(payload) >= 3,
        forall|k: int| 0 <= k < split_bytes(payload, NL).len()
            ==> line_run(#[trigger] split_bytes(payload, NL)[k]) < fence_len(payload),
{
    lemma_max_run_ge(split_bytes(payload, NL));
}

/// A line that is exactly a fence has an opening run of the whole fence.
pub proof fn lemma_line_run_of_fence(n: nat)
    ensures
        line_run(fence_seq(n)) == n,
{
    let f = fence_seq(n);
    lemma_ws_len_is(f, 0);
    assert(f.skip(0) =~= f);
    lemma_run_len_is(f, BT, n as int);
}

/// Count of leading whitespace bytes of `s` within `s[from..to]`.
fn ws_len_in(s: &[u8], from: usize, to: usize) -> (n: usize)
    requires
        from <= to <= s@.len(),
    ensures
        n == ws_len(s@.subrange(from as int, to as int)),
        from + n <= to,
{
    let mut j = from;
    while j < to
        invariant
            from <= j <= to <= s@.len(),
            forall|k: int| from <= k < j ==> is_ws(s@[k]),
        decreases to - j,
    {
        let b = s[j];
        if !(b == 32 || b == 9 || b == 11 || b == 12 || b == 13) {
            proof {
                lemma_ws_len_is(s@.subrange(from as int, to as int), j - from);
            }
            return j - from;
        }
        j += 1;
    }
    proof {
        lemma_ws_len_is(s@.subrange(from as int, to as int), j - from);
    }
    j - from
}

/// The opening backtick run of the line `s[from..to]`, after left-trimming.
fn line_run_in(s: &[u8], from: usize, to: usize) -> (n: usize)
    requires
        from <= to <= s@.len(),
    ensures
        n == line_run(s@.subrange(from as int, to as int)),
{
    let w = ws_len_in(s, from, to);
    let r = run_len_in(s, from + w, to, BT);
    proof {
        let l = s@.subrange(from as int, to as int);
        assert(l.skip(w as int) =~= s@.subrange(from + w, to as int));
    }
    r
}

/// Computes the fence string for `content`: a backtick run longer than any
/// opening backtick run of its left-trimmed lines, and at least three long.
pub fn calculate_fence(content: &[u8]) -> (f: Vec<u8>)
    requires
        content@.len() < usize::MAX,
    ensures
        f@ == fence_seq(fence_len(content@)),
        f@.len() == fence_len(content@),
{
    let n = content.len();
    let mut m: usize = 0;
    let mut pos: usize = 0;
    proof {
        assert(content@.skip(0) =~= content@);
    }
    loop
        invariant
            pos <= n,
            m <= n,
            n == content@.len(),
            n < usize::MAX,
            max_run(split_bytes(content@, NL)) == spec_max(
                m as nat,
                max_run(split_bytes(content@.skip(pos as int), NL)),
            ),
        decreases n - pos,
    {
        let j = find_byte_in(content, pos, NL);
        let r = line_run_in(content, pos, j);
        proof {
            let rest = content@.skip(pos as int);
            lemma_find_byte(rest, NL);
            assert(rest.take(j - pos) =~= content@.subrange(pos as int, j as int));
            lemma_run_len(content@.subrange(pos as int, j as int).skip(
                ws_len(content@.subrange(pos as int, j as int)) as int,
            ), BT);
            lemma_ws_len(content@.subrange(pos as int, j as int));
        }
        let m2 = if r > m {
            r
        } else {
            m
        };
        if j == n {
            proof {
                let rest = content@.skip(pos as int);
                assert(rest.take(j - pos) =~= rest);
                assert(split_bytes(rest, NL) =~= seq![rest]);
                assert(max_run(split_bytes(rest, NL)) == line_run(rest)) by {
                    assert(split_bytes(rest, NL).skip(1) =~= Seq::<Seq<u8>>::empty());
                    assert(max_run(Seq::<Seq<u8>>::empty()) == 0);
                    assert(split_bytes(rest, NL)[0] == rest);
                }
                assert(m2 as nat == max_run(split_bytes(content@, NL)));
            }
            let flen = if m2 < 2 {
                3
            } else {
                m2 + 1
            };
            let f = make_fence(flen);
            return f;
        }
        proof {
            let rest = content@.skip(pos as int);
            assert(rest.skip(j - pos + 1) =~= content@.skip(j as int + 1));
            assert(split_bytes(rest, NL) =~= seq![content@.subrange(pos as int, j as int)]
                + split_bytes(content@.skip(j as int + 1), NL));
            assert(split_bytes(rest, NL).skip(1) =~= split_bytes(content@.skip(j as int + 1), NL));
        }
        m = m2;
        pos = j + 1;
    }
}

/// The larger of two lengths.
pub open spec fn spec_max(a: nat, b: nat) -> nat {
    if a > b {
        a
    } else {
        b
    }
}

/// A vector of `n` fence bytes.
fn make_fence(n: usize) -> (f: Vec<u8>)
    ensures
        f@ == fence_seq(n as nat),
{
    let mut f: Vec<u8> = Vec::new();
    let mut k: usize = 0;
    while k < n
        invariant
            k <= n,
            f@.len() == k,
            forall|i: int| 0 <= i < k ==> f@[i] == BT,
        decreases n - k,
    {
        f.push(BT);
        k += 1;
    }
    proof {
        assert(f@ =~= fence_seq(n as nat));
    }
    f
}

} // verus!
