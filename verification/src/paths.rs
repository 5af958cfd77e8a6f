//! Path predicates used when filtering enumerated files and when
//! materializing decoded records.
//!
//! Paths are forward-slash byte strings; the enumeration itself and every
//! filesystem query stay with the caller, which hands in plain values.

use vstd::prelude::*;
use crate::bytes::{SLASH, lit, lit_vec, split_bytes, split_byte, vecs_view, rfind_byte,
    lemma_rfind_byte, rfind_byte_in, range_eq, bytes_eq};
use crate::lang::DOT;

verus! {

/// One explicitly selected path, with the caller's knowledge of whether it
/// names a file (match exactly) or a directory (match as a prefix).
pub struct PathSelector {
    pub path: Vec<u8>,
    pub is_file: bool,
}

/// Whether `base` is a whole-component prefix of `p`: equal, or followed in
/// `p` by a separator, or itself separator-terminated.  The empty base is a
/// prefix of everything.
pub open spec fn is_path_prefix(base: Seq<u8>, p: Seq<u8>) -> bool {
    ||| base.len() == 0
    ||| (base.len() <= p.len() && p.take(base.len() as int) == base && (p.len() == base.len()
        || p[base.len() as int] == SLASH || base[base.len() - 1] == SLASH))
}

/// Whether the selector admits `p`: a file selector matches exactly, a
/// directory selector matches every path under it.
pub open spec fn sel_matches(sel: PathSelector, p: Seq<u8>) -> bool {
    if sel.is_file {
        p == sel.path@
    } else {
        is_path_prefix(sel.path@, p)
    }
}

/// Whether `base` is a whole-component prefix of `p`.
pub fn is_path_prefix_bytes(base: &[u8], p: &[u8]) -> (r: bool)
    ensures
        r == is_path_prefix(base@, p@),
{
    let bn = base.len();
    if bn == 0 {
        return true;
    }
    if bn > p.len() {
        return false;
    }
    if !range_eq(p, 0, bn, base) {
        proof {
            assert(p@.take(bn as int) =~= p@.subrange(0, bn as int));
        }
        return false;
    }
    proof {
        assert(p@.take(bn as int) =~= p@.subrange(0, bn as int));
    }
    p.len() == bn || p[bn] == SLASH || base[bn - 1] == SLASH
}

/// Whether `path` is admitted by at least one of the selectors.
pub fn is_in_specific_paths(path: &[u8], specific_paths: &Vec<PathSelector>) -> (r: bool)
    ensures
        r == exists|i: int|
            0 <= i < specific_paths@.len() && sel_matches(#[trigger] specific_paths@[i], path@),
{
    let n = specific_paths.len();
    let mut i: usize = 0;
    while i < n
        invariant
            i <= n,
            n == specific_paths@.len(),
            forall|k: int| 0 <= k < i ==> !sel_matches(#[trigger] specific_paths@[k], path@),
        decreases n - i,
    {
        let sel = &specific_paths[i];
        let hit = if sel.is_file {
            bytes_eq(path, sel.path.as_slice())
        } else {
            is_path_prefix_bytes(sel.path.as_slice(), path)
        };
        if hit {
            proof {
                assert(sel_matches(specific_paths@[i as int], path@));
            }
            return true;
        }
        i += 1;
    }
    false
}

/// Whether the path's file name starts with a dot.
pub open spec fn spec_is_hidden(p: Seq<u8>) -> bool {
    rfind_byte(p, SLASH) + 1 < p.len() && p[rfind_byte(p, SLASH) + 1] == DOT
}

/// Whether a file or directory is hidden: its name starts with a dot.
pub fn is_hidden(path: &[u8]) -> (r: bool)
    ensures
        r == spec_is_hidden(path@),
{
    proof {
        lemma_rfind_byte(path@, SLASH);
    }
    let start = rfind_byte_in(path, SLASH);
    start < path.len() && path[start] == DOT
}

/// Whether every `/`-separated component of `p` is non-empty and none is
/// `..`: such a path stays under the root it is joined to, and `p` is
/// neither empty nor absolute nor separator-terminated.
pub open spec fn spec_safe_rel_path(p: Seq<u8>) -> bool {
    forall|k: int| 0 <= k < split_bytes(p, SLASH).len() ==> {
        let c = #[trigger] split_bytes(p, SLASH)[k];
        c.len() > 0 && c != lit("..")
    }
}

/// Whether a decoded relative path may be materialized under a target
/// root: every component non-empty and none `..`.
pub fn is_safe_rel_path(p: &[u8]) -> (r: bool)
    ensures
        r == spec_safe_rel_path(p@),
{
    proof {
        reveal_strlit("..");
        assert("..".is_ascii());
    }
    let dots = lit_vec("..");
    let parts = split_byte(p, SLASH);
    let n = parts.len();
    let ghost cs = split_bytes(p@, SLASH);
    let mut k: usize = 0;
    while k < n
        invariant
            k <= n,
            n == parts@.len(),
            cs == split_bytes(p@, SLASH),
            vecs_view(parts@) == cs,
            dots@ == lit(".."),
            forall|i: int| 0 <= i < k ==> (#[trigger] cs[i]).len() > 0 && cs[i] != lit(".."),
        decreases n - k,
    {
        let part = &parts[k];
        if part.len() == 0 || bytes_eq(part.as_slice(), dots.as_slice()) {
            proof {
                assert(cs[k as int] == parts@[k as int]@);
            }
            return false;
        }
        proof {
            assert(cs[k as int] == parts@[k as int]@);
        }
        k += 1;
    }
    true
}

} // verus!
