//! Book-style output: a summary page and per-chapter pages.
//!
//! The writer collects relative paths into nested [`Chapter`]s, renders the
//! summary page that links every chapter with content, and renders a
//! chapter page from the records of the files in that chapter.  Writing the
//! rendered bytes to disk is the caller's affair.

use vstd::prelude::*;
use crate::bytes::{NL, SLASH, lit, lit_vec, split_bytes, vecs_view, slice_dup};
use crate::chapter::{Chapter, ChildEntry, ChapterModel, chapter_model, children_model,
    lemma_children_model, empty_chapter, spec_insert, spec_has_content};
use crate::record::{FileRecord, records_view};
use crate::encode::{sections_of, encodable_all, encode_record, lemma_sections_snoc};

verus! {

/// Generates book-style output from collected files.
pub struct MdbookWriter {
    /// Root chapter holding the collected file structure.
    pub root: Chapter,
    /// Root of the tree the files were enumerated from.
    pub project_root: Vec<u8>,
    /// Directory the rendered pages are destined for.
    pub output_dir: Vec<u8>,
}

/// The `.md` link target of a chapter: its parent's path and its name.
pub open spec fn path_join(parent: Seq<u8>, name: Seq<u8>) -> Seq<u8> {
    if parent.len() == 0 {
        name
    } else {
        parent + seq![SLASH] + name
    }
}

/// The summary lines for `cs` and all their descendants, in order: each
/// child with content yields one indented link line, then its own
/// children's lines one indent step deeper.  Children without content are
/// skipped.
pub open spec fn spec_entries(
    cs: Seq<(Seq<u8>, ChapterModel)>,
    parent: Seq<u8>,
    indent: Seq<u8>,
) -> Seq<u8>
    decreases cs,
{
    if cs.len() == 0 {
        Seq::<u8>::empty()
    } else {
        let name = cs[0].0;
        let ch = cs[0].1;
        let head = if spec_has_content(ch) {
            indent + lit("- [") + name + lit("](./") + path_join(parent, name) + lit(".md)\n")
                + spec_entries(ch.children, path_join(parent, name), indent + lit("  "))
        } else {
            Seq::<u8>::empty()
        };
        head + spec_entries(cs.skip(1), parent, indent)
    }
}

/// The whole summary page: the title, an introduction link when files lie
/// at the root, then the chapter lines.
pub open spec fn spec_summary(m: ChapterModel) -> Seq<u8> {
    lit("# Summary\n\n") + (if m.files.len() > 0 {
        lit("- [Introduction](./introduction.md)\n")
    } else {
        Seq::<u8>::empty()
    }) + spec_entries(m.children, Seq::<u8>::empty(), Seq::<u8>::empty())
}

/// Adding paths one by one, from `idx` on.
pub open spec fn spec_add_files(m: ChapterModel, paths: Seq<Seq<u8>>, idx: int) -> ChapterModel
    decreases paths.len() - idx,
{
    if idx < 0 || idx >= paths.len() {
        m
    } else {
        spec_add_files(spec_insert(m, split_bytes(paths[idx], SLASH), 0), paths, idx + 1)
    }
}

/// A chapter page: its title heading, then one section per file record, in
/// order, in the same section format the container uses.
pub open spec fn spec_chapter_content(title: Seq<u8>, rs: Seq<crate::record::RecordModel>) -> Seq<
    u8,
> {
    lit("# ") + title + seq![NL, NL] + sections_of(rs)
}

impl MdbookWriter {
    /// A writer with an empty chapter tree.
    pub fn new(project_root: Vec<u8>, output_dir: Vec<u8>) -> (w: MdbookWriter)
        ensures
            chapter_model(w.root) == empty_chapter(),
            w.project_root == project_root,
            w.output_dir == output_dir,
    {
        MdbookWriter { root: Chapter::new(), project_root, output_dir }
    }

    /// Adds files to the chapter structure, one relative path at a time.
    pub fn add_files(&mut self, rel_paths: &Vec<Vec<u8>>)
        ensures
            chapter_model(final (self).root) == spec_add_files(
                chapter_model(old(self).root),
                vecs_view(rel_paths@),
                0,
            ),
            final (self).project_root == old(self).project_root,
            final (self).output_dir == old(self).output_dir,
    {
        let ghost paths = vecs_view(rel_paths@);
        let ghost m0 = chapter_model(old(self).root);
        let n = rel_paths.len();
        let mut i: usize = 0;
        while i < n
            invariant
                i <= n,
                n == rel_paths@.len(),
                paths == vecs_view(rel_paths@),
                spec_add_files(m0, paths, 0) == spec_add_files(
                    chapter_model(self.root),
                    paths,
                    i as int,
                ),
                self.project_root == old(self).project_root,
                self.output_dir == old(self).output_dir,
            decreases n - i,
        {
            self.root.insert(rel_paths[i].as_slice());
            i += 1;
        }
    }

    /// Renders the summary page for the collected structure.
    pub fn generate_summary(&self) -> (out: Vec<u8>)
        ensures
            out@ == spec_summary(chapter_model(self.root)),
    {
        proof {
            reveal_strlit("# Summary\n\n");
            assert("# Summary\n\n".is_ascii());
            reveal_strlit("- [Introduction](./introduction.md)\n");
            assert("- [Introduction](./introduction.md)\n".is_ascii());
        }
        let mut out = lit_vec("# Summary\n\n");
        if self.root.files.len() > 0 {
            let intro = lit_vec("- [Introduction](./introduction.md)\n");
            out.extend_from_slice(intro.as_slice());
        }
        let parent: Vec<u8> = Vec::new();
        let indent: Vec<u8> = Vec::new();
        self.append_summary_entries(&mut out, &self.root.children, &parent, &indent);
        proof {
            assert(out@ =~= spec_summary(chapter_model(self.root)));
        }
        out
    }

    /// Appends the summary lines for `children` to `summary`: one link line
    /// per child with content, indented by `indent`, each followed by its
    /// own children's lines one step deeper.
    #[verifier::loop_isolation(false)]
    pub fn append_summary_entries(
        &self,
        summary: &mut Vec<u8>,
        children: &Vec<ChildEntry>,
        parent: &Vec<u8>,
        indent: &Vec<u8>,
    )
        ensures
            final (summary)@ == old(summary)@ + spec_entries(
                children_model(children@),
                parent@,
                indent@,
            ),
        decreases children@,
    {
        proof {
            reveal_strlit("- [");
            assert("- [".is_ascii());
            reveal_strlit("](./");
            assert("](./".is_ascii());
            reveal_strlit(".md)\n");
            assert(".md)\n".is_ascii());
            reveal_strlit("  ");
            assert("  ".is_ascii());
            lemma_children_model(children@);
        }
        let ghost cs = children_model(children@);
        let ghost base = summary@;
        let n = children.len();
        let mut k: usize = 0;
        proof {
            assert(cs.skip(0) =~= cs);
        }
        while k < n
            invariant
                k <= n,
                n == children@.len(),
                cs == children_model(children@),
                cs.len() == n,
                forall|i: int| 0 <= i < n ==> cs[i] == (
                    children@[i].name@,
                    chapter_model(children@[i].chapter),
                ),
                base + spec_entries(cs, parent@, indent@) == summary@ + spec_entries(
                    cs.skip(k as int),
                    parent@,
                    indent@,
                ),
            decreases n - k,
        {
            let sub = &children[k];
            let ghost pre = summary@;
            proof {
                assert(cs.skip(k as int)[0] == cs[k as int]);
                assert(cs.skip(k as int).skip(1) =~= cs.skip(k as int + 1));
            }
            if sub.chapter.has_content() {
                let mut cpath: Vec<u8>;
                if parent.len() == 0 {
                    cpath = slice_dup(sub.name.as_slice());
                } else {
                    cpath = slice_dup(parent.as_slice());
                    cpath.push(SLASH);
                    cpath.extend_from_slice(sub.name.as_slice());
                }
                proof {
                    assert(cpath@ =~= path_join(parent@, sub.name@));
                }
                summary.extend_from_slice(indent.as_slice());
                let l1 = lit_vec("- [");
                summary.extend_from_slice(l1.as_slice());
                summary.extend_from_slice(sub.name.as_slice());
                let l2 = lit_vec("](./");
                summary.extend_from_slice(l2.as_slice());
                summary.extend_from_slice(cpath.as_slice());
                let l3 = lit_vec(".md)\n");
                summary.extend_from_slice(l3.as_slice());
                let mut deeper = slice_dup(indent.as_slice());
                let sp = lit_vec("  ");
                deeper.extend_from_slice(sp.as_slice());
                let ghost before_rec = summary@;
                proof {
                    assert(deeper@ == indent@ + lit("  "));
                    assert(before_rec =~= pre + (indent@ + lit("- [") + sub.name@ + lit("](./")
                        + path_join(parent@, sub.name@) + lit(".md)\n")));
                    assert(chapter_model(sub.chapter).children == children_model(
                        sub.chapter.children@,
                    ));
                    assert(decreases_to!(children@ => children@[k as int]));
                    assert(decreases_to!(children@[k as int] => children@[k as int].chapter));
                    assert(decreases_to!(
                        children@[k as int].chapter => children@[k as int].chapter.children));
                    assert(decreases_to!(
                        children@[k as int].chapter.children
                            => children@[k as int].chapter.children@));
                }
                self.append_summary_entries(summary, &sub.chapter.children, &cpath, &deeper);
                proof {
                    assert(summary@ == before_rec + spec_entries(
                        chapter_model(sub.chapter).children,
                        path_join(parent@, sub.name@),
                        indent@ + lit("  "),
                    ));
                    assert(summary@ =~= pre + (indent@ + lit("- [") + sub.name@ + lit("](./")
                        + path_join(parent@, sub.name@) + lit(".md)\n") + spec_entries(
                        chapter_model(sub.chapter).children,
                        path_join(parent@, sub.name@),
                        indent@ + lit("  "),
                    )));
                    assert(spec_entries(cs.skip(k as int), parent@, indent@) == (indent@ + lit(
                        "- [",
                    ) + sub.name@ + lit("](./") + path_join(parent@, sub.name@) + lit(".md)\n")
                        + spec_entries(
                        chapter_model(sub.chapter).children,
                        path_join(parent@, sub.name@),
                        indent@ + lit("  "),
                    )) + spec_entries(cs.skip(k as int + 1), parent@, indent@));
                    assert(base + spec_entries(cs, parent@, indent@) == summary@ + spec_entries(
                        cs.skip(k as int + 1),
                        parent@,
                        indent@,
                    ));
                }
            } else {
                proof {
                    assert(spec_entries(cs.skip(k as int), parent@, indent@) == Seq::<u8>::empty()
                        + spec_entries(cs.skip(k as int + 1), parent@, indent@));
                    assert(Seq::<u8>::empty() + spec_entries(cs.skip(k as int + 1), parent@, indent@)
                        =~= spec_entries(cs.skip(k as int + 1), parent@, indent@));
                }
            }
            k += 1;
        }
        proof {
            assert(cs.skip(n as int) =~= Seq::<(Seq<u8>, ChapterModel)>::empty());
            assert(spec_entries(cs.skip(n as int), parent@, indent@) == Seq::<u8>::empty());
            assert(summary@ + Seq::<u8>::empty() =~= summary@);
            assert(base + spec_entries(cs, parent@, indent@) =~= summary@);
        }
    }
}

/// Renders one chapter page: the title heading, then each record's section
/// in the container's section format.
pub fn generate_chapter_content(title: &[u8], records: &Vec<FileRecord>) -> (out: Vec<u8>)
    requires
        encodable_all(records@),
    ensures
        out@ == spec_chapter_content(title@, records_view(records@)),
{
    proof {
        reveal_strlit("# ");
        assert("# ".is_ascii());
    }
    let ghost models = records_view(records@);
    let mut out = lit_vec("# ");
    out.extend_from_slice(title);
    out.push(NL);
    out.push(NL);
    let ghost head = lit("# ") + title@ + seq![NL, NL];
    proof {
        assert(models.take(0) =~= Seq::<crate::record::RecordModel>::empty());
        assert(out@ =~= head + sections_of(models.take(0)));
    }
    let n = records.len();
    let mut i: usize = 0;
    while i < n
        invariant
            i <= n,
            n == records@.len(),
            models == records_view(records@),
            encodable_all(records@),
            head == lit("# ") + title@ + seq![NL, NL],
            out@ == head + sections_of(models.take(i as int)),
        decreases n - i,
    {
        let sec = encode_record(&records[i]);
        proof {
            assert(models[i as int] == records@[i as int]@);
            lemma_sections_snoc(models, i as int);
        }
        out.extend_from_slice(sec.as_slice());
        i += 1;
    }
    proof {
        assert(models.take(n as int) =~= models);
    }
    out
}

} // verus!
