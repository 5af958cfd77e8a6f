//! Nested chapters: the book-style grouping of files by directory.
//!
//! A chapter corresponds to one directory.  It holds the file names that
//! live directly in that directory and one child chapter per subdirectory,
//! kept sorted by name so that generated output is deterministic.

use vstd::prelude::*;
use crate::bytes::{SLASH, split_bytes, split_byte, vecs_view, slice_dup};

verus! {

/// One named child chapter.
pub struct ChildEntry {
    pub name: Vec<u8>,
    pub chapter: Chapter,
}

/// A chapter: files directly at this level, and children for
/// subdirectories, sorted by name.
pub struct Chapter {
    /// File names directly in this chapter's directory.
    pub files: Vec<Vec<u8>>,
    /// Child chapters, sorted strictly by name.
    pub children: Vec<ChildEntry>,
}

/// Spec-level image of a chapter.
pub ghost struct ChapterModel {
    pub files: Seq<Seq<u8>>,
    pub children: Seq<(Seq<u8>, ChapterModel)>,
}

pub open spec fn chapter_model(c: Chapter) -> ChapterModel
    decreases c,
{
    ChapterModel { files: vecs_view(c.files@), children: children_model(c.children@) }
}

pub open spec fn children_model(cs: Seq<ChildEntry>) -> Seq<(Seq<u8>, ChapterModel)>
    decreases cs,
{
    if cs.len() == 0 {
        Seq::<(Seq<u8>, ChapterModel)>::empty()
    } else {
        seq![(cs[0].name@, chapter_model(cs[0].chapter))] + children_model(cs.skip(1))
    }
}

pub proof fn lemma_children_model(cs: Seq<ChildEntry>)
    ensures
        children_model(cs).len() == cs.len(),
        forall|k: int| 0 <= k < cs.len() ==> children_model(cs)[k] == (
            cs[k].name@,
            chapter_model(cs[k].chapter),
        ),
    decreases cs,
{
    if cs.len() == 0 {
    } else {
        lemma_children_model(cs.skip(1));
        assert forall|k: int| 0 <= k < cs.len() implies children_model(cs)[k] == (
            cs[k].name@,
            chapter_model(cs[k].chapter),
        ) by {
            if k > 0 {
                assert(children_model(cs.skip(1))[k - 1] == (
                    cs.skip(1)[k - 1].name@,
                    chapter_model(cs.skip(1)[k - 1].chapter),
                ));
            }
        }
    }
}

/// The empty chapter.
pub open spec fn empty_chapter() -> ChapterModel {
    ChapterModel {
        files: Seq::<Seq<u8>>::empty(),
        children: Seq::<(Seq<u8>, ChapterModel)>::empty(),
    }
}

/// Strict byte-wise lexicographic order on names.
pub open spec fn lex_less(a: Seq<u8>, b: Seq<u8>) -> bool
    decreases a.len(),
{
    if b.len() == 0 {
        false
    } else if a.len() == 0 {
        true
    } else if a[0] < b[0] {
        true
    } else if a[0] > b[0] {
        false
    } else {
        lex_less(a.skip(1), b.skip(1))
    }
}

/// Two distinct names are ordered one way or the other.
pub proof fn lemma_lex_less_total(a: Seq<u8>, b: Seq<u8>)
    requires
        a != b,
    ensures
        lex_less(a, b) || lex_less(b, a),
    decreases a.len(),
{
    if b.len() == 0 {
        assert(a.len() != 0) by {
            if a.len() == 0 {
                assert(a =~= b);
            }
        }
    } else if a.len() == 0 {
    } else if a[0] < b[0] {
    } else if a[0] > b[0] {
    } else {
        assert(a.skip(1) != b.skip(1)) by {
            if a.skip(1) == b.skip(1) {
                assert(a.len() == b.len()) by {
                    assert(a.skip(1).len() == a.len() - 1);
                    assert(b.skip(1).len() == b.len() - 1);
                }
                assert forall|i: int| 0 <= i < a.len() implies a[i] == b[i] by {
                    if i > 0 {
                        assert(a[i] == a.skip(1)[i - 1]);
                        assert(b[i] == b.skip(1)[i - 1]);
                    }
                }
                assert(a =~= b);
            }
        }
        lemma_lex_less_total(a.skip(1), b.skip(1));
    }
}

/// The order on names is transitive.
pub proof fn lemma_lex_less_trans(a: Seq<u8>, b: Seq<u8>, c: Seq<u8>)
    requires
        lex_less(a, b),
        lex_less(b, c),
    ensures
        lex_less(a, c),
    decreases a.len(),
{
    assert(b.len() > 0);
    assert(c.len() > 0);
    if a.len() == 0 {
    } else {
        if a[0] == b[0] && b[0] == c[0] {
            lemma_lex_less_trans(a.skip(1), b.skip(1), c.skip(1));
        }
    }
}

/// Index of the first child named `name`, or `cs.len()` if none is.
pub open spec fn find_child(cs: Seq<(Seq<u8>, ChapterModel)>, name: Seq<u8>) -> int
    decreases cs.len(),
{
    if cs.len() == 0 {
        0
    } else if cs[0].0 == name {
        0
    } else {
        1 + find_child(cs.skip(1), name)
    }
}

pub proof fn lemma_find_child(cs: Seq<(Seq<u8>, ChapterModel)>, name: Seq<u8>)
    ensures
        0 <= find_child(cs, name) <= cs.len(),
        forall|k: int| 0 <= k < find_child(cs, name) ==> cs[k].0 != name,
        find_child(cs, name) < cs.len() ==> cs[find_child(cs, name)].0 == name,
    decreases cs.len(),
{
    if cs.len() == 0 {
    } else if cs[0].0 == name {
    } else {
        lemma_find_child(cs.skip(1), name);
        assert forall|k: int| 0 <= k < find_child(cs, name) implies cs[k].0 != name by {
            if k > 0 {
                assert(cs.skip(1)[k - 1].0 != name);
            }
        }
    }
}

pub proof fn lemma_find_child_is(cs: Seq<(Seq<u8>, ChapterModel)>, name: Seq<u8>, m: int)
    requires
        0 <= m <= cs.len(),
        forall|k: int| 0 <= k < m ==> cs[k].0 != name,
        m < cs.len() ==> cs[m].0 == name,
    ensures
        find_child(cs, name) == m,
    decreases cs.len(),
{
    if cs.len() == 0 {
    } else if cs[0].0 == name {
        assert(m == 0);
    } else {
        assert(m >= 1);
        lemma_find_child_is(cs.skip(1), name, m - 1);
    }
}

/// Where a new child named `name` is inserted: after the leading run of
/// children whose names order below it.
pub open spec fn ins_pos(cs: Seq<(Seq<u8>, ChapterModel)>, name: Seq<u8>) -> int
    decreases cs.len(),
{
    if cs.len() == 0 {
        0
    } else if lex_less(cs[0].0, name) {
        1 + ins_pos(cs.skip(1), name)
    } else {
        0
    }
}

pub proof fn lemma_ins_pos_is(cs: Seq<(Seq<u8>, ChapterModel)>, name: Seq<u8>, m: int)
    requires
        0 <= m <= cs.len(),
        forall|k: int| 0 <= k < m ==> lex_less(#[trigger] cs[k].0, name),
        m < cs.len() ==> !lex_less(cs[m].0, name),
    ensures
        ins_pos(cs, name) == m,
    decreases cs.len(),
{
    if cs.len() == 0 {
    } else if lex_less(cs[0].0, name) {
        assert(m >= 1) by {
            if m == 0 {
                assert(!lex_less(cs[0].0, name));
            }
        }
        lemma_ins_pos_is(cs.skip(1), name, m - 1);
    } else {
        assert(m == 0);
    }
}

pub proof fn lemma_ins_pos(cs: Seq<(Seq<u8>, ChapterModel)>, name: Seq<u8>)
    ensures
        0 <= ins_pos(cs, name) <= cs.len(),
        forall|k: int| 0 <= k < ins_pos(cs, name) ==> lex_less(#[trigger] cs[k].0, name),
        ins_pos(cs, name) < cs.len() ==> !lex_less(cs[ins_pos(cs, name)].0, name),
    decreases cs.len(),
{
    if cs.len() == 0 {
    } else if lex_less(cs[0].0, name) {
        lemma_ins_pos(cs.skip(1), name);
        assert forall|k: int| 0 <= k < ins_pos(cs, name) implies lex_less(
            #[trigger] cs[k].0,
            name,
        ) by {
            if k > 0 {
                assert(lex_less(cs.skip(1)[k - 1].0, name));
            }
        }
    } else {
    }
}

/// Children strictly ordered by name.
pub open spec fn children_sorted(cs: Seq<(Seq<u8>, ChapterModel)>) -> bool {
    forall|i: int, j: int|
        0 <= i < j < cs.len() ==> lex_less(#[trigger] cs[i].0, #[trigger] cs[j].0)
}

/// The chapter invariant: at every level the children are strictly sorted
/// by name — so names are unique and rendering order is deterministic.
pub open spec fn chapter_wf(m: ChapterModel) -> bool
    decreases m,
{
    children_sorted(m.children) && forall|k: int|
        0 <= k < m.children.len() ==> chapter_wf(#[trigger] m.children[k].1)
}

/// Inserting a path preserves the chapter invariant.
pub proof fn lemma_insert_wf(m: ChapterModel, comps: Seq<Seq<u8>>, idx: int)
    requires
        chapter_wf(m),
    ensures
        chapter_wf(spec_insert(m, comps, idx)),
    decreases comps.len() - idx,
{
    if idx >= comps.len() - 1 {
    } else {
        let d = comps[idx];
        let j = find_child(m.children, d);
        lemma_find_child(m.children, d);
        if j < m.children.len() {
            assert(chapter_wf(m.children[j].1));
            lemma_insert_wf(m.children[j].1, comps, idx + 1);
            let cs2 = m.children.update(j, (d, spec_insert(m.children[j].1, comps, idx + 1)));
            assert(m.children[j].0 == d);
            assert(children_sorted(cs2)) by {
                assert(forall|k: int| 0 <= k < cs2.len() ==> cs2[k].0 == m.children[k].0);
            }
            assert forall|k: int| 0 <= k < cs2.len() implies chapter_wf(#[trigger] cs2[k].1) by {
                if k != j {
                    assert(cs2[k].1 == m.children[k].1);
                }
            }
        } else {
            assert(chapter_wf(empty_chapter()));
            lemma_insert_wf(empty_chapter(), comps, idx + 1);
            let p = ins_pos(m.children, d);
            lemma_ins_pos(m.children, d);
            let cs2 = m.children.insert(p, (d, spec_insert(empty_chapter(), comps, idx + 1)));
            // Everything past the insertion point orders strictly above `d`.
            assert forall|k: int| p <= k < m.children.len() implies lex_less(
                d,
                #[trigger] m.children[k].0,
            ) by {
                assert(m.children[k].0 != d);
                lemma_lex_less_total(d, m.children[k].0);
                if lex_less(m.children[k].0, d) {
                    if k > p {
                        assert(lex_less(m.children[p].0, m.children[k].0));
                        lemma_lex_less_trans(m.children[p].0, m.children[k].0, d);
                    }
                    assert(lex_less(m.children[p].0, d));
                    assert(false);
                }
            }
            assert(children_sorted(cs2)) by {
                assert forall|i: int, j2: int| 0 <= i < j2 < cs2.len() implies lex_less(
                    #[trigger] cs2[i].0,
                    #[trigger] cs2[j2].0,
                ) by {
                    if i < p && j2 < p {
                        assert(cs2[i].0 == m.children[i].0 && cs2[j2].0 == m.children[j2].0);
                    } else if i < p && j2 == p {
                        assert(cs2[i].0 == m.children[i].0 && cs2[j2].0 == d);
                    } else if i < p && j2 > p {
                        assert(cs2[i].0 == m.children[i].0 && cs2[j2].0 == m.children[j2 - 1].0);
                    } else if i == p {
                        assert(cs2[i].0 == d && cs2[j2].0 == m.children[j2 - 1].0);
                    } else {
                        assert(cs2[i].0 == m.children[i - 1].0 && cs2[j2].0 == m.children[j2
                            - 1].0);
                    }
                }
            }
            assert forall|k: int| 0 <= k < cs2.len() implies chapter_wf(#[trigger] cs2[k].1) by {
                if k < p {
                    assert(cs2[k].1 == m.children[k].1);
                } else if k > p {
                    assert(cs2[k].1 == m.children[k - 1].1);
                }
            }
        }
    }
}

/// Inserting the path whose components from `idx` on are `comps[idx..]`:
/// the last component becomes a file of the chapter reached by descending
/// through one child per directory component, creating missing children at
/// their sorted position.
pub open spec fn spec_insert(m: ChapterModel, comps: Seq<Seq<u8>>, idx: int) -> ChapterModel
    decreases comps.len() - idx,
{
    if idx >= comps.len() - 1 {
        ChapterModel { files: m.files.push(comps[idx]), children: m.children }
    } else {
        let d = comps[idx];
        let j = find_child(m.children, d);
        if j < m.children.len() {
            ChapterModel {
                files: m.files,
                children: m.children.update(
                    j,
                    (d, spec_insert(m.children[j].1, comps, idx + 1)),
                ),
            }
        } else {
            ChapterModel {
                files: m.files,
                children: m.children.insert(
                    ins_pos(m.children, d),
                    (d, spec_insert(empty_chapter(), comps, idx + 1)),
                ),
            }
        }
    }
}

/// Whether a chapter holds any file, directly or in a descendant.
pub open spec fn spec_has_content(m: ChapterModel) -> bool
    decreases m,
{
    m.files.len() > 0 || exists|k: int|
        0 <= k < m.children.len() && spec_has_content(#[trigger] m.children[k].1)
}

/// Whether `a` orders strictly below `b`, byte-wise lexicographically.
pub fn lex_less_bytes(a: &[u8], b: &[u8]) -> (r: bool)
    ensures
        r == lex_less(a@, b@),
{
    let an = a.len();
    let bn = b.len();
    let mut k: usize = 0;
    proof {
        assert(a@.skip(0) =~= a@);
        assert(b@.skip(0) =~= b@);
    }
    loop
        invariant
            k <= an,
            k <= bn,
            an == a@.len(),
            bn == b@.len(),
            lex_less(a@, b@) == lex_less(a@.skip(k as int), b@.skip(k as int)),
        decreases an - k,
    {
        if k == bn {
            return false;
        }
        if k == an {
            return true;
        }
        if a[k] < b[k] {
            return true;
        }
        if a[k] > b[k] {
            return false;
        }
        proof {
            assert(a@.skip(k as int).skip(1) =~= a@.skip(k as int + 1));
            assert(b@.skip(k as int).skip(1) =~= b@.skip(k as int + 1));
        }
        k += 1;
    }
}

/// Index of the first child of `children` named `name`, or the length.
fn find_child_idx(children: &Vec<ChildEntry>, name: &[u8]) -> (j: usize)
    ensures
        j <= children@.len(),
        j as int == find_child(children_model(children@), name@),
{
    proof {
        lemma_children_model(children@);
    }
    let ghost cs = children_model(children@);
    let n = children.len();
    let mut j: usize = 0;
    while j < n
        invariant
            j <= n,
            n == children@.len(),
            cs == children_model(children@),
            cs.len() == n,
            forall|k: int| 0 <= k < n ==> cs[k] == (
                children@[k].name@,
                chapter_model(children@[k].chapter),
            ),
            forall|k: int| 0 <= k < j ==> cs[k].0 != name@,
        decreases n - j,
    {
        if crate::bytes::bytes_eq(children[j].name.as_slice(), name) {
            proof {
                lemma_find_child_is(cs, name@, j as int);
            }
            return j;
        }
        j += 1;
    }
    proof {
        lemma_find_child_is(cs, name@, n as int);
    }
    j
}

/// The sorted insertion position for a child named `name`.
fn find_ins_pos(children: &Vec<ChildEntry>, name: &[u8]) -> (p: usize)
    ensures
        p <= children@.len(),
        p as int == ins_pos(children_model(children@), name@),
{
    proof {
        lemma_children_model(children@);
    }
    let ghost cs = children_model(children@);
    let n = children.len();
    let mut p: usize = 0;
    while p < n
        invariant
            p <= n,
            n == children@.len(),
            cs == children_model(children@),
            cs.len() == n,
            forall|k: int| 0 <= k < n ==> cs[k] == (
                children@[k].name@,
                chapter_model(children@[k].chapter),
            ),
            forall|k: int| 0 <= k < p ==> lex_less(#[trigger] cs[k].0, name@),
        decreases n - p,
    {
        if !lex_less_bytes(children[p].name.as_slice(), name) {
            proof {
                lemma_ins_pos_is(cs, name@, p as int);
            }
            return p;
        }
        p += 1;
    }
    proof {
        lemma_ins_pos_is(cs, name@, n as int);
    }
    p
}

impl Chapter {
    /// The empty chapter.
    pub fn new() -> (c: Chapter)
        ensures
            chapter_model(c) == empty_chapter(),
            chapter_wf(chapter_model(c)),
    {
        let c = Chapter { files: Vec::new(), children: Vec::new() };
        proof {
            assert(vecs_view(c.files@) =~= Seq::<Seq<u8>>::empty());
            assert(children_model(c.children@) =~= Seq::<(Seq<u8>, ChapterModel)>::empty());
        }
        c
    }

    /// Inserts a relative path: its last `/`-separated component becomes a
    /// file of the chapter reached through one child per leading component.
    pub fn insert(&mut self, rel_path: &[u8])
        ensures
            chapter_model(*final(self)) == spec_insert(
                chapter_model(*old(self)),
                split_bytes(rel_path@, SLASH),
                0,
            ),
            chapter_wf(chapter_model(*old(self))) ==> chapter_wf(chapter_model(*final(self))),
    {
        let comps = split_byte(rel_path, SLASH);
        self.insert_at(&comps, 0);
        proof {
            if chapter_wf(chapter_model(*old(self))) {
                lemma_insert_wf(chapter_model(*old(self)), split_bytes(rel_path@, SLASH), 0);
            }
        }
    }

    fn insert_at(&mut self, comps: &Vec<Vec<u8>>, idx: usize)
        requires
            idx < comps@.len(),
        ensures
            chapter_model(*final(self)) == spec_insert(
                chapter_model(*old(self)),
                vecs_view(comps@),
                idx as int,
            ),
        decreases comps@.len() - idx,
    {
        let ghost m0 = chapter_model(*old(self));
        let n_comps = comps.len();
        if idx == n_comps - 1 {
            let f = slice_dup(comps[idx].as_slice());
            self.files.push(f);
            proof {
                assert(vecs_view(self.files@) =~= m0.files.push(vecs_view(comps@)[idx as int]));
            }
        } else {
            let name = comps[idx].as_slice();
            let n = self.children.len();
            let ghost cs = children_model(self.children@);
            proof {
                lemma_children_model(self.children@);
                lemma_find_child(cs, name@);
            }
            let j = find_child_idx(&self.children, name);
            if j < n {
                let mut entry = self.children.remove(j);
                let ghost ename = entry.name@;
                proof {
                    assert(ename == name@);
                }
                entry.chapter.insert_at(comps, idx + 1);
                let ghost new_child_model = chapter_model(entry.chapter);
                self.children.insert(j, entry);
                proof {
                    lemma_children_model(self.children@);
                    assert(children_model(self.children@) =~= cs.update(
                        j as int,
                        (name@, new_child_model),
                    ));
                    assert(vecs_view(self.files@) == m0.files);
                }
            } else {
                let p = find_ins_pos(&self.children, name);
                let mut child = Chapter::new();
                child.insert_at(comps, idx + 1);
                let ghost new_child_model = chapter_model(child);
                let entry = ChildEntry { name: slice_dup(name), chapter: child };
                self.children.insert(p, entry);
                proof {
                    lemma_children_model(self.children@);
                    assert(children_model(self.children@) =~= cs.insert(
                        p as int,
                        (name@, new_child_model),
                    ));
                    assert(vecs_view(self.files@) == m0.files);
                }
            }
        }
    }

    /// The child chapter named `name`, if there is one.
    pub fn child<'a>(&'a self, name: &[u8]) -> (r: Option<&'a Chapter>)
        ensures
            ({
                let cs = children_model(self.children@);
                let j = find_child(cs, name@);
                match r {
                    Some(c) => j < cs.len() && chapter_model(*c) == cs[j].1 && cs[j].0 == name@,
                    None => j == cs.len(),
                }
            }),
    {
        proof {
            lemma_children_model(self.children@);
            lemma_find_child(children_model(self.children@), name@);
        }
        let j = find_child_idx(&self.children, name);
        if j < self.children.len() {
            Some(&self.children[j].chapter)
        } else {
            None
        }
    }

    /// Whether any file lies in this chapter or a descendant of it.
    pub fn has_content(&self) -> (b: bool)
        ensures
            b == spec_has_content(chapter_model(*self)),
        decreases *self,
    {
        if self.files.len() > 0 {
            return true;
        }
        let ghost m = chapter_model(*self);
        proof {
            lemma_children_model(self.children@);
        }
        let n = self.children.len();
        let mut k: usize = 0;
        while k < n
            invariant
                k <= n,
                n == self.children@.len(),
                m == chapter_model(*self),
                m.children.len() == n,
                forall|i: int| 0 <= i < n ==> m.children[i] == (
                    self.children@[i].name@,
                    chapter_model(self.children@[i].chapter),
                ),
                forall|i: int| 0 <= i < k ==> !spec_has_content(#[trigger] m.children[i].1),
            decreases n - k,
        {
            let sub = &self.children[k];
            proof {
                assert(decreases_to!(*self => self.children));
                assert(decreases_to!(self.children => self.children@[k as int]));
                assert(decreases_to!(self.children@[k as int] => self.children@[k as int].chapter));
            }
            if sub.chapter.has_content() {
                proof {
                    assert(m.children[k as int].1 == chapter_model(self.children@[k as int].chapter));
                    assert(spec_has_content(m.children[k as int].1));
                }
                return true;
            }
            k += 1;
        }
        proof {
            assert(m.files.len() == 0);
        }
        false
    }
}

} // verus!
