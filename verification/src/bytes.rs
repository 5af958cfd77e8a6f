//! Byte-sequence helpers shared by the whole crate.
//!
//! The container format is byte-exact, so every structural notion (lines,
//! path components, leading runs) is defined here over `Seq<u8>`, together
//! with the executable scanners that realize those definitions.

use vstd::prelude::*;

verus! {

/// The line separator byte (`\n`).
pub const NL: u8 = 10;

/// The fence byte (a backtick).
pub const BT: u8 = 96;

/// The path separator byte (`/`).
pub const SLASH: u8 = 47;

/// The bytes of an ASCII string literal, character by character.
pub open spec fn lit(s: &str) -> Seq<u8> {
    Seq::new(s@.len(), |i: int| s@[i] as u8)
}

/// Index of the first occurrence of `b` in `s`, or `s.len()` if `b` does not occur.
pub open spec fn find_byte(s: Seq<u8>, b: u8) -> nat
    decreases s.len(),
{
    if s.len() == 0 {
        0
    } else if s[0] == b {
        0
    } else {
        (1 + find_byte(s.skip(1), b)) as nat
    }
}

pub proof fn lemma_find_byte(s: Seq<u8>, b: u8)
    ensures
        find_byte(s, b) <= s.len(),
        forall|j: int| 0 <= j < find_byte(s, b) ==> s[j] != b,
        find_byte(s, b) < s.len() ==> s[find_byte(s, b) as int] == b,
    decreases s.len(),
{
    if s.len() == 0 {
    } else if s[0] == b {
    } else {
        lemma_find_byte(s.skip(1), b);
        assert forall|j: int| 0 <= j < find_byte(s, b) implies s[j] != b by {
            if j > 0 {
                assert(s.skip(1)[j - 1] != b);
            }
        }
    }
}

/// `find_byte` is the unique position bounded by `m` scans that stop at `b`.
pub proof fn lemma_find_byte_is(s: Seq<u8>, b: u8, m: int)
    requires
        0 <= m <= s.len(),
        forall|j: int| 0 <= j < m ==> s[j] != b,
        m < s.len() ==> s[m] == b,
    ensures
        find_byte(s, b) == m,
    decreases s.len(),
{
    if s.len() == 0 {
    } else if s[0] == b {
        assert(m == 0);
    } else {
        assert(s[0] != b);
        assert(m >= 1);
        lemma_find_byte_is(s.skip(1), b, m - 1);
    }
}

/// How `find_byte` distributes over concatenation.
pub proof fn lemma_find_byte_concat(s: Seq<u8>, t: Seq<u8>, b: u8)
    ensures
        find_byte(s, b) < s.len() ==> find_byte(s + t, b) == find_byte(s, b),
        find_byte(s, b) == s.len() ==> find_byte(s + t, b) == s.len() + find_byte(t, b),
{
    lemma_find_byte(s, b);
    lemma_find_byte(t, b);
    if find_byte(s, b) < s.len() {
        lemma_find_byte_is(s + t, b, find_byte(s, b) as int);
    } else {
        lemma_find_byte_is(s + t, b, s.len() + find_byte(t, b) as int);
    }
}

/// Position of the first occurrence of `b` in `s` at or after `from`.
///
/// Returns `s.len()` when `b` does not occur there.
pub fn find_byte_in(s: &[u8], from: usize, b: u8) -> (j: usize)
    requires
        from <= s@.len(),
    ensures
        from <= j <= s@.len(),
        j - from == find_byte(s@.skip(from as int), b),
{
    let n = s.len();
    let mut j = from;
    while j < n
        invariant
            from <= j <= n,
            n == s@.len(),
            forall|k: int| from <= k < j ==> s@[k] != b,
        decreases n - j,
    {
        if s[j] == b {
            proof {
                lemma_find_byte_is(s@.skip(from as int), b, j - from);
            }
            return j;
        }
        j += 1;
    }
    proof {
        lemma_find_byte_is(s@.skip(from as int), b, j - from);
    }
    j
}

/// Length of the longest prefix of `s` consisting only of `b`.
pub open spec fn run_len(s: Seq<u8>, b: u8) -> nat
    decreases s.len(),
{
    if s.len() == 0 {
        0
    } else if s[0] == b {
        (1 + run_len(s.skip(1), b)) as nat
    } else {
        0
    }
}

pub proof fn lemma_run_len(s: Seq<u8>, b: u8)
    ensures
        run_len(s, b) <= s.len(),
        forall|j: int| 0 <= j < run_len(s, b) ==> s[j] == b,
        run_len(s, b) < s.len() ==> s[run_len(s, b) as int] != b,
    decreases s.len(),
{
    if s.len() == 0 {
    } else if s[0] == b {
        lemma_run_len(s.skip(1), b);
        assert forall|j: int| 0 <= j < run_len(s, b) implies s[j] == b by {
            if j > 0 {
                assert(s.skip(1)[j - 1] == b);
            }
        }
    } else {
    }
}

pub proof fn lemma_run_len_is(s: Seq<u8>, b: u8, m: int)
    requires
        0 <= m <= s.len(),
        forall|j: int| 0 <= j < m ==> s[j] == b,
        m < s.len() ==> s[m] != b,
    ensures
        run_len(s, b) == m,
    decreases s.len(),
{
    if s.len() == 0 {
    } else if s[0] == b {
        assert(m >= 1) by {
            if m == 0 {
                assert(s[0] != b);
            }
        }
        lemma_run_len_is(s.skip(1), b, m - 1);
    } else {
        assert(m == 0);
    }
}

/// Count of the leading bytes of `s` equal to `b`, within `s[from..to]`.
pub fn run_len_in(s: &[u8], from: usize, to: usize, b: u8) -> (n: usize)
    requires
        from <= to <= s@.len(),
    ensures
        n == run_len(s@.subrange(from as int, to as int), b),
        from + n <= to,
{
    let mut j = from;
    while j < to
        invariant
            from <= j <= to <= s@.len(),
            forall|k: int| from <= k < j ==> s@[k] == b,
        decreases to - j,
    {
        if s[j] != b {
            proof {
                lemma_run_len_is(s@.subrange(from as int, to as int), b, j - from);
            }
            return j - from;
        }
        j += 1;
    }
    proof {
        lemma_run_len_is(s@.subrange(from as int, to as int), b, j - from);
    }
    j - from
}

/// `s` split at every occurrence of `b`; the separators are dropped.
///
/// The result always holds at least one element, and an element never
/// holds `b`.  A trailing separator yields a trailing empty element.
pub open spec fn split_bytes(s: Seq<u8>, b: u8) -> Seq<Seq<u8>>
    decreases s.len(),
{
    let i = find_byte(s, b);
    if i == s.len() {
        seq![s]
    } else {
        proof {
            lemma_find_byte(s, b);
        }
        seq![s.take(i as int)] + split_bytes(s.skip(i as int + 1), b)
    }
}

pub proof fn lemma_split_len(s: Seq<u8>, b: u8)
    ensures
        split_bytes(s, b).len() >= 1,
    decreases s.len(),
{
    let i = find_byte(s, b);
    if i == s.len() {
    } else {
        lemma_find_byte(s, b);
        lemma_split_len(s.skip(i as int + 1), b);
    }
}

/// Splitting a sequence that ends with one separator appends one empty element.
pub proof fn lemma_split_terminated(s: Seq<u8>, b: u8)
    ensures
        split_bytes(s + seq![b], b) == split_bytes(s, b) + seq![Seq::<u8>::empty()],
    decreases s.len(),
{
    let st = s + seq![b];
    let i = find_byte(s, b);
    lemma_find_byte(s, b);
    lemma_find_byte_concat(s, seq![b], b);
    if i == s.len() {
        assert(find_byte(seq![b], b) == 0);
        assert(find_byte(st, b) == s.len());
        assert(st.take(s.len() as int) =~= s);
        assert(st.skip(s.len() as int + 1) =~= Seq::<u8>::empty());
        assert(split_bytes(Seq::<u8>::empty(), b) == seq![Seq::<u8>::empty()]);
        assert(split_bytes(st, b) =~= seq![s] + seq![Seq::<u8>::empty()]);
    } else {
        assert(find_byte(st, b) == i);
        lemma_split_terminated(s.skip(i as int + 1), b);
        assert(st.take(i as int) =~= s.take(i as int));
        assert(st.skip(i as int + 1) =~= s.skip(i as int + 1) + seq![b]);
        assert(split_bytes(st, b) =~= seq![s.take(i as int)] + split_bytes(s.skip(i as int + 1), b)
            + seq![Seq::<u8>::empty()]);
    }
}

/// View of a vector of byte vectors as a sequence of byte sequences.
pub open spec fn vecs_view(v: Seq<Vec<u8>>) -> Seq<Seq<u8>> {
    v.map_values(|e: Vec<u8>| e@)
}

/// `s` split at every occurrence of `b`, as owned vectors.
pub fn split_byte(s: &[u8], b: u8) -> (parts: Vec<Vec<u8>>)
    ensures
        vecs_view(parts@) == split_bytes(s@, b),
{
    let n = s.len();
    let mut parts: Vec<Vec<u8>> = Vec::new();
    let mut pos: usize = 0;
    proof {
        assert(s@.skip(0) =~= s@);
        assert(vecs_view(parts@) + split_bytes(s@, b) =~= split_bytes(s@, b));
    }
    loop
        invariant
            pos <= n,
            n == s@.len(),
            split_bytes(s@, b) == vecs_view(parts@) + split_bytes(s@.skip(pos as int), b),
        decreases n - pos,
    {
        let j = find_byte_in(s, pos, b);
        let piece = copy_range(s, pos, j);
        proof {
            let rest = s@.skip(pos as int);
            lemma_find_byte(rest, b);
            assert(rest.take(j - pos) =~= s@.subrange(pos as int, j as int));
        }
        if j == n {
            proof {
                assert(split_bytes(s@.skip(pos as int), b) =~= seq![piece@]);
                assert(vecs_view(parts@.push(piece)) =~= vecs_view(parts@) + seq![piece@]);
            }
            parts.push(piece);
            return parts;
        }
        proof {
            let rest = s@.skip(pos as int);
            assert(rest.skip(j - pos + 1) =~= s@.skip(j as int + 1));
            assert(split_bytes(rest, b) =~= seq![piece@] + split_bytes(s@.skip(j as int + 1), b));
            assert(vecs_view(parts@.push(piece)) =~= vecs_view(parts@) + seq![piece@]);
        }
        parts.push(piece);
        pos = j + 1;
    }
}

/// Whether `s[from..to]` equals the bytes of `pat`.
pub fn range_eq(s: &[u8], from: usize, to: usize, pat: &[u8]) -> (r: bool)
    requires
        from <= to <= s@.len(),
    ensures
        r == (s@.subrange(from as int, to as int) == pat@),
{
    if to - from != pat.len() {
        proof {
            assert(s@.subrange(from as int, to as int).len() == to - from);
        }
        return false;
    }
    let mut k: usize = 0;
    while k < pat.len()
        invariant
            from <= to <= s@.len(),
            to - from == pat@.len(),
            k <= pat@.len(),
            forall|i: int| 0 <= i < k ==> s@[from + i] == pat@[i],
        decreases pat@.len() - k,
    {
        if s[from + k] != pat[k] {
            proof {
                assert(s@.subrange(from as int, to as int)[k as int] == s@[from + k]);
            }
            return false;
        }
        k += 1;
    }
    proof {
        assert(s@.subrange(from as int, to as int) =~= pat@);
    }
    true
}

/// A fresh copy of `s[from..to]`.
pub fn copy_range(s: &[u8], from: usize, to: usize) -> (v: Vec<u8>)
    requires
        from <= to <= s@.len(),
    ensures
        v@ == s@.subrange(from as int, to as int),
{
    vstd::slice::slice_to_vec(vstd::slice::slice_subrange(s, from, to))
}

/// The bytes of an ASCII literal, as a vector.
pub fn lit_vec(s: &str) -> (v: Vec<u8>)
    requires
        s.is_ascii(),
    ensures
        v@ == lit(s),
{
    broadcast use vstd::string::is_ascii_spec_bytes;

    let v = s.as_bytes_vec();
    proof {
        assert(v@ =~= lit(s));
    }
    v
}

/// Index of the last occurrence of `b` in `s`, or `-1` if `b` does not occur.
pub open spec fn rfind_byte(s: Seq<u8>, b: u8) -> int
    decreases s.len(),
{
    if s.len() == 0 {
        -1
    } else if s[s.len() - 1] == b {
        s.len() - 1
    } else {
        rfind_byte(s.drop_last(), b)
    }
}

pub proof fn lemma_rfind_byte(s: Seq<u8>, b: u8)
    ensures
        -1 <= rfind_byte(s, b) < s.len(),
        rfind_byte(s, b) >= 0 ==> s[rfind_byte(s, b)] == b,
        forall|j: int| rfind_byte(s, b) < j < s.len() ==> s[j] != b,
    decreases s.len(),
{
    if s.len() == 0 {
    } else if s[s.len() - 1] == b {
    } else {
        lemma_rfind_byte(s.drop_last(), b);
        assert forall|j: int| rfind_byte(s, b) < j < s.len() implies s[j] != b by {
            if j < s.len() - 1 {
                assert(s.drop_last()[j] != b);
            }
        }
    }
}

pub proof fn lemma_rfind_byte_is(s: Seq<u8>, b: u8, m: int)
    requires
        -1 <= m < s.len(),
        m >= 0 ==> s[m] == b,
        forall|j: int| m < j < s.len() ==> s[j] != b,
    ensures
        rfind_byte(s, b) == m,
    decreases s.len(),
{
    if s.len() == 0 {
    } else if s[s.len() - 1] == b {
        assert(m == s.len() - 1);
    } else {
        assert(m < s.len() - 1);
        lemma_rfind_byte_is(s.drop_last(), b, m);
    }
}

/// Index just past the last occurrence of `b` in `s`, or `0` if none occurs.
pub fn rfind_byte_in(s: &[u8], b: u8) -> (j: usize)
    ensures
        j == rfind_byte(s@, b) + 1,
{
    let n = s.len();
    let mut j = n;
    while j > 0
        invariant
            j <= n,
            n == s@.len(),
            forall|k: int| j <= k < n ==> s@[k] != b,
        decreases j,
    {
        if s[j - 1] == b {
            proof {
                lemma_rfind_byte_is(s@, b, j - 1);
            }
            return j;
        }
        j -= 1;
    }
    proof {
        lemma_rfind_byte_is(s@, b, -1);
    }
    0
}

/// A fresh copy of a byte slice.
pub fn slice_dup(s: &[u8]) -> (v: Vec<u8>)
    ensures
        v@ == s@,
{
    vstd::slice::slice_to_vec(s)
}

/// Whether two byte slices hold the same bytes.
pub fn bytes_eq(a: &[u8], b: &[u8]) -> (r: bool)
    ensures
        r == (a@ == b@),
{
    let r = range_eq(a, 0, a.len(), b);
    proof {
        assert(a@.subrange(0, a@.len() as int) =~= a@);
    }
    r
}

} // verus!
