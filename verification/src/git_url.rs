//! Repository-name extraction from a git URL.
//!
//! A scheme URL (`https://host/user/repo.git`) names its repository after
//! the last `/`; an SSH-style URL (`git@host:user/repo.git`) after the last
//! `/` of what follows the last `:`.  A trailing `.git` is dropped.  A
//! string with neither `://` nor `:`, or an empty remainder, yields none.

use vstd::prelude::*;

verus! {

/// Whether `://` occurs in `v`.
pub open spec fn has_scheme(v: Seq<char>) -> bool {
    exists|i: int|
        0 <= i && i + 2 < v.len() && #[trigger] v[i] == ':' && v[i + 1] == '/' && v[i + 2] == '/'
}

/// Whether `c` occurs in `v`.
pub open spec fn has_char(v: Seq<char>, c: char) -> bool {
    exists|i: int| 0 <= i < v.len() && v[i] == c
}

/// Index of the last occurrence of `c` in `v`, or `-1` if none occurs.
pub open spec fn rlast(v: Seq<char>, c: char) -> int
    decreases v.len(),
{
    if v.len() == 0 {
        -1
    } else if v[v.len() - 1] == c {
        v.len() - 1
    } else {
        rlast(v.drop_last(), c)
    }
}

pub proof fn lemma_rlast(v: Seq<char>, c: char)
    ensures
        -1 <= rlast(v, c) < v.len(),
        rlast(v, c) >= 0 ==> v[rlast(v, c)] == c,
        forall|j: int| rlast(v, c) < j < v.len() ==> v[j] != c,
    decreases v.len(),
{
    if v.len() == 0 {
    } else if v[v.len() - 1] == c {
    } else {
        lemma_rlast(v.drop_last(), c);
        assert forall|j: int| rlast(v, c) < j < v.len() implies v[j] != c by {
            if j < v.len() - 1 {
                assert(v.drop_last()[j] != c);
            }
        }
    }
}

pub proof fn lemma_rlast_is(v: Seq<char>, c: char, m: int)
    requires
        -1 <= m < v.len(),
        m >= 0 ==> v[m] == c,
        forall|j: int| m < j < v.len() ==> v[j] != c,
    ensures
        rlast(v, c) == m,
    decreases v.len(),
{
    if v.len() == 0 {
    } else if v[v.len() - 1] == c {
        assert(m == v.len() - 1);
    } else {
        assert(m < v.len() - 1);
        lemma_rlast_is(v.drop_last(), c, m);
    }
}

/// Whether `p` ends with the four characters `.git`.
pub open spec fn ends_with_git(p: Seq<char>) -> bool {
    p.len() >= 4 && p[p.len() - 4] == '.' && p[p.len() - 3] == 'g' && p[p.len() - 2] == 'i' && p[
        p.len() - 1
    ] == 't'
}

/// The name taken from `v` starting at `start`: the rest of `v`, a
/// trailing `.git` dropped; none if that leaves nothing.
pub open spec fn name_from(v: Seq<char>, start: int) -> Option<Seq<char>> {
    let path = v.skip(start);
    let name = if ends_with_git(path) {
        path.take(path.len() - 4)
    } else {
        path
    };
    if name.len() == 0 {
        None
    } else {
        Some(name)
    }
}

/// The repository name of a git URL, if one can be read off.
pub open spec fn spec_repo_name(v: Seq<char>) -> Option<Seq<char>> {
    if has_scheme(v) {
        name_from(v, rlast(v, '/') + 1)
    } else if has_char(v, ':') {
        let lc = rlast(v, ':');
        name_from(v, lc + 1 + rlast(v.skip(lc + 1), '/') + 1)
    } else {
        None
    }
}

/// Whether `://` occurs in `url`.
fn scan_scheme(url: &str) -> (r: bool)
    ensures
        r == has_scheme(url@),
{
    let n = url.unicode_len();
    if n < 3 {
        return false;
    }
    let mut i: usize = 0;
    while i + 2 < n
        invariant
            i + 2 <= n,
            n == url@.len(),
            forall|k: int|
                0 <= k < i ==> !(#[trigger] url@[k] == ':' && url@[k + 1] == '/' && url@[k + 2]
                    == '/'),
        decreases n - i,
    {
        if url.get_char(i) == ':' && url.get_char(i + 1) == '/' && url.get_char(i + 2) == '/' {
            return true;
        }
        i += 1;
    }
    false
}

/// Index just past the last occurrence of `c` at or after `from`, or
/// `from` itself if none occurs there.
fn rscan_char(url: &str, from: usize, c: char) -> (j: usize)
    requires
        from <= url@.len(),
    ensures
        j - from == rlast(url@.skip(from as int), c) + 1,
        from <= j <= url@.len(),
{
    let n = url.unicode_len();
    let mut j = n;
    while j > from
        invariant
            from <= j <= n,
            n == url@.len(),
            forall|k: int| j <= k < n ==> url@[k] != c,
        decreases j,
    {
        if url.get_char(j - 1) == c {
            proof {
                let v = url@.skip(from as int);
                assert forall|k: int| j - from - 1 < k < v.len() implies v[k] != c by {
                    assert(v[k] == url@[k + from]);
                }
                lemma_rlast_is(v, c, j - from - 1);
            }
            return j;
        }
        j -= 1;
    }
    proof {
        let v = url@.skip(from as int);
        assert forall|k: int| -1 < k < v.len() implies v[k] != c by {
            assert(v[k] == url@[k + from]);
        }
        lemma_rlast_is(v, c, -1);
    }
    from
}

/// Extracts the repository name from a git URL: the last path segment of a
/// scheme URL, or the last segment after the final `:` of an SSH-style
/// URL, with a trailing `.git` dropped.  `None` when the string has
/// neither form or the segment is empty.
pub fn repo_name_from_url(url: &str) -> (r: Option<String>)
    ensures
        match r {
            Some(s) => spec_repo_name(url@) == Some(s@),
            None => spec_repo_name(url@) is None,
        },
{
    let n = url.unicode_len();
    let start: usize;
    if scan_scheme(url) {
        proof {
            assert(url@.skip(0) =~= url@);
        }
        start = rscan_char(url, 0, '/');
    } else {
        proof {
            assert(url@.skip(0) =~= url@);
            lemma_rlast(url@, ':');
        }
        let lc_end = rscan_char(url, 0, ':');
        if lc_end == 0 {
            proof {
                assert(!has_char(url@, ':')) by {
                    if has_char(url@, ':') {
                        let i = choose|i: int| 0 <= i < url@.len() && url@[i] == ':';
                        assert(rlast(url@, ':') >= i) by {
                            if rlast(url@, ':') < i {
                                assert(url@[i] != ':');
                            }
                        }
                    }
                }
            }
            return None;
        }
        proof {
            lemma_rlast(url@.skip(lc_end as int), '/');
            assert(has_char(url@, ':')) by {
                assert(url@[lc_end - 1] == ':');
            }
        }
        start = rscan_char(url, lc_end, '/');
    }
    // Drop a trailing `.git` from the remainder.
    let mut end = n;
    if n - start >= 4 && url.get_char(n - 4) == '.' && url.get_char(n - 3) == 'g' && url.get_char(
        n - 2,
    ) == 'i' && url.get_char(n - 1) == 't' {
        end = n - 4;
    }
    proof {
        let path = url@.skip(start as int);
        assert(forall|k: int| 0 <= k < path.len() ==> path[k] == url@[k + start]);
        assert(ends_with_git(path) == (n - start >= 4 && url@[n - 4] == '.' && url@[n - 3] == 'g'
            && url@[n - 2] == 'i' && url@[n - 1] == 't'));
    }
    if start >= end {
        return None;
    }
    let name = url.substring_char(start, end);
    proof {
        let path = url@.skip(start as int);
        if ends_with_git(path) {
            assert(path.take(path.len() - 4) =~= url@.subrange(start as int, end as int));
        } else {
            assert(path =~= url@.subrange(start as int, end as int));
        }
    }
    Some(name.to_owned())
}

} // verus!
