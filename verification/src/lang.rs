//! The dialect tag attached to a fence, derived from the file name.
//!
//! The tag is a cosmetic syntax hint.  A few well-known extensionless names
//! are matched first, case-insensitively; then the file extension,
//! case-insensitively.  An unknown name or extension yields the empty tag.

use vstd::prelude::*;
use crate::bytes::{SLASH, lit, lit_vec, rfind_byte, lemma_rfind_byte, rfind_byte_in, copy_range,
    bytes_eq};
use crate::record::wf_tag;

verus! {

/// The extension separator byte (`.`).
pub const DOT: u8 = 46;

/// `b` with an ASCII upper-case letter folded to lower case.
pub open spec fn to_lower(b: u8) -> u8 {
    if 65 <= b && b <= 90 {
        (b + 32) as u8
    } else {
        b
    }
}

/// `s` with every ASCII upper-case letter folded to lower case.
pub open spec fn lower_seq(s: Seq<u8>) -> Seq<u8> {
    s.map_values(|b: u8| to_lower(b))
}

/// The file name of `p`: everything after the last path separator.
pub open spec fn file_name_of(p: Seq<u8>) -> Seq<u8> {
    p.skip(rfind_byte(p, SLASH) + 1)
}

/// The tag for a lower-cased file extension.
pub open spec fn ext_tag(e: Seq<u8>) -> Seq<u8> {
    if e == lit("rs") {
        lit("rust")
    } else if e == lit("js") {
        lit("javascript")
    } else if e == lit("jsx") {
        lit("jsx")
    } else if e == lit("ts") {
        lit("typescript")
    } else if e == lit("tsx") {
        lit("tsx")
    } else if e == lit("py") {
        lit("python")
    } else if e == lit("java") {
        lit("java")
    } else if e == lit("c") {
        lit("c")
    } else if e == lit("cpp") {
        lit("cpp")
    } else if e == lit("h") {
        lit("c")
    } else if e == lit("html") {
        lit("html")
    } else if e == lit("css") {
        lit("css")
    } else if e == lit("md") {
        lit("markdown")
    } else if e == lit("json") {
        lit("json")
    } else if e == lit("toml") {
        lit("toml")
    } else if e == lit("yaml") {
        lit("yaml")
    } else if e == lit("yml") {
        lit("yaml")
    } else if e == lit("xml") {
        lit("xml")
    } else {
        Seq::<u8>::empty()
    }
}

/// The tag for a path: special file names first, then the extension.
///
/// The extension is the part of the file name after its last `.`, provided
/// that dot is not the name's first byte (a dotfile has no extension).
pub open spec fn spec_tag_for(p: Seq<u8>) -> Seq<u8> {
    let name = lower_seq(file_name_of(p));
    if name == lit("makefile") {
        lit("makefile")
    } else if name == lit("dockerfile") {
        lit("dockerfile")
    } else if name == lit(".env") {
        lit("dotenv")
    } else {
        let d = rfind_byte(name, DOT);
        if d > 0 {
            ext_tag(name.skip(d + 1))
        } else {
            Seq::<u8>::empty()
        }
    }
}

/// Every tag the tagger can produce fits on an opening fence line.
pub proof fn lemma_tag_wf(p: Seq<u8>)
    ensures
        wf_tag(spec_tag_for(p)),
{
    reveal_strlit("makefile");
    reveal_strlit("dockerfile");
    reveal_strlit("dotenv");
    reveal_strlit("rust");
    reveal_strlit("javascript");
    reveal_strlit("jsx");
    reveal_strlit("typescript");
    reveal_strlit("tsx");
    reveal_strlit("python");
    reveal_strlit("java");
    reveal_strlit("c");
    reveal_strlit("cpp");
    reveal_strlit("html");
    reveal_strlit("css");
    reveal_strlit("markdown");
    reveal_strlit("json");
    reveal_strlit("toml");
    reveal_strlit("yaml");
    reveal_strlit("xml");
    assert(wf_tag(lit("makefile")));
    assert(wf_tag(lit("dockerfile")));
    assert(wf_tag(lit("dotenv")));
    assert(wf_tag(lit("rust")));
    assert(wf_tag(lit("javascript")));
    assert(wf_tag(lit("jsx")));
    assert(wf_tag(lit("typescript")));
    assert(wf_tag(lit("tsx")));
    assert(wf_tag(lit("python")));
    assert(wf_tag(lit("java")));
    assert(wf_tag(lit("c")));
    assert(wf_tag(lit("cpp")));
    assert(wf_tag(lit("html")));
    assert(wf_tag(lit("css")));
    assert(wf_tag(lit("markdown")));
    assert(wf_tag(lit("json")));
    assert(wf_tag(lit("toml")));
    assert(wf_tag(lit("yaml")));
    assert(wf_tag(lit("xml")));
    assert(wf_tag(Seq::<u8>::empty()));
}

/// `s` with ASCII letters folded to lower case.
fn to_lower_vec(s: &[u8]) -> (v: Vec<u8>)
    ensures
        v@ == lower_seq(s@),
{
    let n = s.len();
    let mut v: Vec<u8> = Vec::new();
    let mut k: usize = 0;
    while k < n
        invariant
            k <= n,
            n == s@.len(),
            v@.len() == k,
            forall|i: int| 0 <= i < k ==> v@[i] == to_lower(s@[i]),
        decreases n - k,
    {
        let b = s[k];
        if 65 <= b && b <= 90 {
            v.push(b + 32);
        } else {
            v.push(b);
        }
        k += 1;
    }
    proof {
        assert(v@ =~= lower_seq(s@));
    }
    v
}

/// Whether `s` equals the bytes of the ASCII literal `l`.
fn eq_lit(s: &[u8], l: &str) -> (r: bool)
    requires
        l.is_ascii(),
    ensures
        r == (s@ == lit(l)),
{
    let lv = lit_vec(l);
    bytes_eq(s, lv.as_slice())
}

/// Maps a file path to its dialect tag; unknown names and extensions map to
/// the empty tag.  Total: every path produces a (possibly empty) tag.
pub fn get_language_tag(path: &[u8]) -> (t: Vec<u8>)
    ensures
        t@ == spec_tag_for(path@),
        wf_tag(t@),
{
    proof {
        reveal_strlit("makefile");
        reveal_strlit("dockerfile");
        reveal_strlit(".env");
        reveal_strlit("dotenv");
        reveal_strlit("rs");
        reveal_strlit("rust");
        reveal_strlit("js");
        reveal_strlit("javascript");
        reveal_strlit("jsx");
        reveal_strlit("ts");
        reveal_strlit("typescript");
        reveal_strlit("tsx");
        reveal_strlit("py");
        reveal_strlit("python");
        reveal_strlit("java");
        reveal_strlit("c");
        reveal_strlit("cpp");
        reveal_strlit("h");
        reveal_strlit("html");
        reveal_strlit("css");
        reveal_strlit("md");
        reveal_strlit("markdown");
        reveal_strlit("json");
        reveal_strlit("toml");
        reveal_strlit("yaml");
        reveal_strlit("yml");
        reveal_strlit("xml");
        assert("makefile".is_ascii());
        assert("dockerfile".is_ascii());
        assert(".env".is_ascii());
        assert("dotenv".is_ascii());
        assert("rs".is_ascii());
        assert("rust".is_ascii());
        assert("js".is_ascii());
        assert("javascript".is_ascii());
        assert("jsx".is_ascii());
        assert("ts".is_ascii());
        assert("typescript".is_ascii());
        assert("tsx".is_ascii());
        assert("py".is_ascii());
        assert("python".is_ascii());
        assert("java".is_ascii());
        assert("c".is_ascii());
        assert("cpp".is_ascii());
        assert("h".is_ascii());
        assert("html".is_ascii());
        assert("css".is_ascii());
        assert("md".is_ascii());
        assert("markdown".is_ascii());
        assert("json".is_ascii());
        assert("toml".is_ascii());
        assert("yaml".is_ascii());
        assert("yml".is_ascii());
        assert("xml".is_ascii());
        lemma_rfind_byte(path@, SLASH);
        lemma_tag_wf(path@);
    }
    let start = rfind_byte_in(path, SLASH);
    let raw_name = copy_range(path, start, path.len());
    let name = to_lower_vec(raw_name.as_slice());
    proof {
        assert(raw_name@ =~= file_name_of(path@));
    }
    let ns = name.as_slice();
    if eq_lit(ns, "makefile") {
        return lit_vec("makefile");
    }
    if eq_lit(ns, "dockerfile") {
        return lit_vec("dockerfile");
    }
    if eq_lit(ns, ".env") {
        return lit_vec("dotenv");
    }
    proof {
        lemma_rfind_byte(name@, DOT);
    }
    let d = rfind_byte_in(ns, DOT);
    if d <= 1 {
        return Vec::new();
    }
    let e = copy_range(ns, d, name.len());
    proof {
        assert(e@ =~= name@.skip(rfind_byte(name@, DOT) + 1));
    }
    let es = e.as_slice();
    if eq_lit(es, "rs") {
        lit_vec("rust")
    } else if eq_lit(es, "js") {
        lit_vec("javascript")
    } else if eq_lit(es, "jsx") {
        lit_vec("jsx")
    } else if eq_lit(es, "ts") {
        lit_vec("typescript")
    } else if eq_lit(es, "tsx") {
        lit_vec("tsx")
    } else if eq_lit(es, "py") {
        lit_vec("python")
    } else if eq_lit(es, "java") {
        lit_vec("java")
    } else if eq_lit(es, "c") {
        lit_vec("c")
    } else if eq_lit(es, "cpp") {
        lit_vec("cpp")
    } else if eq_lit(es, "h") {
        lit_vec("c")
    } else if eq_lit(es, "html") {
        lit_vec("html")
    } else if eq_lit(es, "css") {
        lit_vec("css")
    } else if eq_lit(es, "md") {
        lit_vec("markdown")
    } else if eq_lit(es, "json") {
        lit_vec("json")
    } else if eq_lit(es, "toml") {
        lit_vec("toml")
    } else if eq_lit(es, "yaml") {
        lit_vec("yaml")
    } else if eq_lit(es, "yml") {
        lit_vec("yaml")
    } else if eq_lit(es, "xml") {
        lit_vec("xml")
    } else {
        Vec::new()
    }
}

} // verus!
