//! Documentation references and the browser state for viewing them.
//!
//! Entities may point at documentation through their annotations: a
//! `backstage.io/techdocs-ref` annotation names a TechDocs source,
//! and an annotation for architecture decision records names an ADR
//! directory. The functions here turn annotation pairs into candidate
//! paths and then into references, while the probing of the file
//! system for which candidates exist stays with the caller: the
//! answers are handed in as plain booleans.

use vstd::prelude::*;

use crate::text::contains_seq;
use crate::text::find_last_char;
use crate::text::has_char;
use crate::text::last_index_of;
use crate::text::lemma_last_index_is;
use crate::text::lemma_lex_refl;
use crate::text::lemma_lex_total;
use crate::text::lemma_lex_trans;
use crate::text::lex_leq;
use crate::text::str_contains;
use crate::text::str_lex_leq;
use crate::text::str_eq_str;
use crate::tree::strs_view;

verus! {

/// The sort of a documentation reference.
#[derive(Debug, Clone, Copy, PartialEq, Eq, Structural)]
pub enum DocsRefType {
    TechDocs,
    Adr,
}

/// The display label of a documentation sort.
pub open spec fn docs_label_spec(t: DocsRefType) -> Seq<char> {
    match t {
        DocsRefType::TechDocs => "TechDocs"@,
        DocsRefType::Adr => "ADR"@,
    }
}

impl DocsRefType {
    /// The display label of this sort.
    pub fn label(&self) -> (r: &'static str)
        ensures
            r@ == docs_label_spec(*self),
    {
        match self {
            DocsRefType::TechDocs => "TechDocs",
            DocsRefType::Adr => "ADR",
        }
    }
}

/// A documentation reference: its sort and the directory or file it
/// points at.
#[derive(Debug, Clone)]
pub struct DocsRef {
    pub ref_type: DocsRefType,
    pub path: String,
}

/// One markdown documentation file.
#[derive(Debug, Clone)]
pub struct DocFile {
    pub path: String,
    pub name: String,
    pub relative_path: String,
}

/// A file opened for reading, split into lines.
#[derive(Debug, Clone)]
pub struct DocContent {
    pub file: DocFile,
    pub lines: Vec<String>,
}

/// Browser state over one documentation reference: the file list, a
/// selection, and an optional opened file with its scroll position.
#[derive(Debug)]
pub struct DocsBrowser {
    pub docs_ref: DocsRef,
    pub files: Vec<DocFile>,
    pub selected_index: usize,
    pub viewing_content: Option<DocContent>,
    pub scroll_offset: usize,
}

impl DocsBrowser {
    /// A browser over a reference and the files discovered under it,
    /// starting at the top of the list.
    pub fn new(docs_ref: DocsRef, files: Vec<DocFile>) -> (r: DocsBrowser)
        ensures
            r.docs_ref == docs_ref,
            r.files == files,
            r.selected_index == 0,
            r.viewing_content is None,
            r.scroll_offset == 0,
    {
        DocsBrowser { docs_ref, files, selected_index: 0, viewing_content: None, scroll_offset: 0 }
    }

    /// One step up: scroll when a file is open, else move the
    /// selection, stopping at the top either way.
    pub fn move_up(&mut self)
        ensures
            final(self).docs_ref == old(self).docs_ref,
            final(self).files == old(self).files,
            final(self).viewing_content == old(self).viewing_content,
            old(self).viewing_content is Some ==> {
                &&& final(self).selected_index == old(self).selected_index
                &&& final(self).scroll_offset == (if old(self).scroll_offset > 0 {
                    old(self).scroll_offset - 1
                } else {
                    0int
                })
            },
            old(self).viewing_content is None ==> {
                &&& final(self).scroll_offset == old(self).scroll_offset
                &&& final(self).selected_index == (if old(self).selected_index > 0 {
                    old(self).selected_index - 1
                } else {
                    0int
                })
            },
    {
        if self.viewing_content.is_some() {
            if self.scroll_offset > 0 {
                self.scroll_offset = self.scroll_offset - 1;
            }
        } else {
            if self.selected_index > 0 {
                self.selected_index = self.selected_index - 1;
            }
        }
    }

    /// One step down: scroll when a file is open, bounded so that a
    /// window of `visible_height` lines never runs past the end, else
    /// move the selection, stopping at the last file.
    pub fn move_down(&mut self, visible_height: usize)
        ensures
            final(self).docs_ref == old(self).docs_ref,
            final(self).files == old(self).files,
            final(self).viewing_content == old(self).viewing_content,
            old(self).viewing_content matches Some(c) ==> {
                &&& final(self).selected_index == old(self).selected_index
                &&& final(self).scroll_offset == (if old(self).scroll_offset
                    < saturating_sub_spec(c.lines@.len() as int, visible_height as int) {
                    old(self).scroll_offset + 1
                } else {
                    old(self).scroll_offset as int
                })
            },
            old(self).viewing_content is None ==> {
                &&& final(self).scroll_offset == old(self).scroll_offset
                &&& final(self).selected_index == (if old(self).selected_index + 1
                    < old(self).files@.len() {
                    old(self).selected_index + 1
                } else {
                    old(self).selected_index as int
                })
            },
    {
        match &self.viewing_content {
            Some(content) => {
                let max_scroll = saturating_sub(content.lines.len(), visible_height);
                if self.scroll_offset < max_scroll {
                    self.scroll_offset = self.scroll_offset + 1;
                }
            },
            None => {
                let last = saturating_sub(self.files.len(), 1);
                if self.selected_index < last {
                    self.selected_index = self.selected_index + 1;
                }
            },
        }
    }

    /// Scroll one page up, stopping at the top; selection untouched.
    pub fn page_up(&mut self, page_size: usize)
        ensures
            final(self).docs_ref == old(self).docs_ref,
            final(self).files == old(self).files,
            final(self).viewing_content == old(self).viewing_content,
            final(self).selected_index == old(self).selected_index,
            final(self).scroll_offset == (if old(self).viewing_content is Some {
                saturating_sub_spec(old(self).scroll_offset as int, page_size as int)
            } else {
                old(self).scroll_offset as int
            }),
    {
        if self.viewing_content.is_some() {
            self.scroll_offset = saturating_sub(self.scroll_offset, page_size);
        }
    }

    /// Scroll one page down, stopping where a window of
    /// `visible_height` lines reaches the end; selection untouched.
    pub fn page_down(&mut self, visible_height: usize, page_size: usize)
        requires
            old(self).scroll_offset + page_size <= usize::MAX,
        ensures
            final(self).docs_ref == old(self).docs_ref,
            final(self).files == old(self).files,
            final(self).viewing_content == old(self).viewing_content,
            final(self).selected_index == old(self).selected_index,
            final(self).scroll_offset == (match old(self).viewing_content {
                Some(c) => min_spec(
                    old(self).scroll_offset + page_size,
                    saturating_sub_spec(c.lines@.len() as int, visible_height as int),
                ),
                None => old(self).scroll_offset as int,
            }),
    {
        match &self.viewing_content {
            Some(content) => {
                let max_scroll = saturating_sub(content.lines.len(), visible_height);
                let stepped = self.scroll_offset + page_size;
                self.scroll_offset = if stepped < max_scroll {
                    stepped
                } else {
                    max_scroll
                };
            },
            None => {},
        }
    }

    /// Show the selected file with the given lines, from the top;
    /// nothing changes when a file is already open or nothing is
    /// selected.
    pub fn open_content(&mut self, lines: Vec<String>)
        ensures
            final(self).docs_ref == old(self).docs_ref,
            final(self).files == old(self).files,
            final(self).selected_index == old(self).selected_index,
            old(self).viewing_content is Some ==> *final(self) == *old(self),
            old(self).viewing_content is None && old(self).selected_index < old(
                self,
            ).files@.len() ==> {
                &&& final(self).viewing_content matches Some(c) && c.file == old(
                    self,
                ).files@[old(self).selected_index as int] && c.lines == lines
                &&& final(self).scroll_offset == 0
            },
            old(self).viewing_content is None && old(self).selected_index >= old(
                self,
            ).files@.len() ==> *final(self) == *old(self),
    {
        if self.viewing_content.is_some() {
            return ;
        }
        if self.selected_index < self.files.len() {
            let file = self.files[self.selected_index].clone_file();
            self.viewing_content = Some(DocContent { file, lines });
            self.scroll_offset = 0;
        }
    }

    /// Close the open file and reset the scroll position.
    pub fn close_content(&mut self)
        ensures
            final(self).docs_ref == old(self).docs_ref,
            final(self).files == old(self).files,
            final(self).selected_index == old(self).selected_index,
            final(self).viewing_content is None,
            final(self).scroll_offset == 0,
    {
        self.viewing_content = None;
        self.scroll_offset = 0;
    }

    /// Whether a file is open.
    pub fn is_viewing_content(&self) -> (r: bool)
        ensures
            r == (self.viewing_content is Some),
    {
        self.viewing_content.is_some()
    }
}

impl DocFile {
    /// A copy of this file entry, equal to it.
    pub fn clone_file(&self) -> (r: DocFile)
        ensures
            r == *self,
    {
        DocFile {
            path: self.path.clone(),
            name: self.name.clone(),
            relative_path: self.relative_path.clone(),
        }
    }
}

/// Subtraction on sizes that stops at zero.
pub open spec fn saturating_sub_spec(a: int, b: int) -> int {
    if a >= b {
        a - b
    } else {
        0
    }
}

/// The smaller of two sizes.
pub open spec fn min_spec(a: int, b: int) -> int {
    if a <= b {
        a
    } else {
        b
    }
}

/// Subtraction on sizes that stops at zero.
fn saturating_sub(a: usize, b: usize) -> (r: usize)
    ensures
        r == saturating_sub_spec(a as int, b as int),
{
    if a >= b {
        a - b
    } else {
        0
    }
}

/// Whether a path is absolute: it starts at the root.
pub open spec fn is_absolute_spec(p: Seq<char>) -> bool {
    p.len() > 0 && p[0] == '/'
}

/// What resolving `p` against `base` yields: `p` itself when it is
/// absolute or the base is empty, else the two joined with a
/// separator.
pub open spec fn resolve_spec(p: Seq<char>, base: Seq<char>) -> Seq<char> {
    if is_absolute_spec(p) || base.len() == 0 {
        p
    } else {
        base + seq!['/'] + p
    }
}

/// Resolve a path against a base directory.
pub fn resolve_relative_path(path_str: &str, base_dir: &str) -> (r: String)
    ensures
        r@ == resolve_spec(path_str@, base_dir@),
{
    let n = path_str.unicode_len();
    let absolute = n > 0 && path_str.get_char(0) == '/';
    if absolute || base_dir.unicode_len() == 0 {
        String::from_str(path_str)
    } else {
        let mut s = String::from_str(base_dir);
        s.append("/");
        s.append(path_str);
        proof {
            reveal_strlit("/");
            assert("/"@ =~= seq!['/']);
        }
        s
    }
}


/// Where the file name of a path starts: right after the last
/// separator, or at the start.
pub open spec fn file_name_start(p: Seq<char>) -> int {
    if has_char(p, '/') {
        last_index_of(p, '/') + 1
    } else {
        0
    }
}

/// The extension of a path: what follows the last dot of its file
/// name, provided that dot is not the name's first character.
pub open spec fn extension_of(p: Seq<char>) -> Option<Seq<char>> {
    let name = p.skip(file_name_start(p));
    if has_char(name, '.') && last_index_of(name, '.') > 0 {
        Some(name.skip(last_index_of(name, '.') + 1))
    } else {
        None
    }
}

/// Whether a path names a markdown file: its extension is `md` or
/// `markdown`.
pub open spec fn is_markdown_spec(p: Seq<char>) -> bool {
    extension_of(p) == Some("md"@) || extension_of(p) == Some("markdown"@)
}

/// Whether a path names a markdown file.
pub fn is_markdown_file(path: &str) -> (r: bool)
    ensures
        r == is_markdown_spec(path@),
{
    let n = path.unicode_len();
    let ns: usize = match find_last_char(path, '/') {
        Some(l) => {
            proof {
                lemma_last_index_is(path@, '/', l as int);
            }
            l + 1
        },
        None => 0,
    };
    let name = path.substring_char(ns, n);
    proof {
        assert(name@ =~= path@.skip(file_name_start(path@)));
    }
    match find_last_char(name, '.') {
        Some(d) => {
            proof {
                lemma_last_index_is(name@, '.', d as int);
            }
            if d > 0 {
                let ext = name.substring_char(d + 1, name.unicode_len());
                proof {
                    assert(ext@ =~= name@.skip(last_index_of(name@, '.') + 1));
                }
                str_eq_str(ext, "md") || str_eq_str(ext, "markdown")
            } else {
                false
            }
        },
        None => false,
    }
}

/// Whether `p` is a prefix of `s`.
pub open spec fn starts_with_spec(s: Seq<char>, p: Seq<char>) -> bool {
    s.len() >= p.len() && s.take(p.len() as int) == p
}

/// The TechDocs annotation key.
pub open spec fn techdocs_key() -> Seq<char> {
    "backstage.io/techdocs-ref"@
}

/// Whether an annotation key names an ADR location.
pub open spec fn is_adr_key(k: Seq<char>) -> bool {
    k == "backstage.io/adr-location"@ || contains_seq(k, "adr"@)
}

/// The candidate paths of a TechDocs annotation value: the `dir:`
/// remainder resolved, when that prefix is present, then the whole
/// value resolved.
pub open spec fn tech_cands(v: Seq<char>, src: Seq<char>) -> Seq<Seq<char>> {
    if starts_with_spec(v, "dir:"@) {
        seq![resolve_spec(v.skip("dir:"@.len() as int), src), resolve_spec(v, src)]
    } else {
        seq![resolve_spec(v, src)]
    }
}

/// The candidate paths of one annotation, in probing order.
pub open spec fn ann_cands(k: Seq<char>, v: Seq<char>, src: Seq<char>) -> Seq<Seq<char>> {
    (if k == techdocs_key() {
        tech_cands(v, src)
    } else {
        Seq::empty()
    }) + (if is_adr_key(k) {
        seq![resolve_spec(v, src)]
    } else {
        Seq::empty()
    })
}

/// The candidate paths of the first `n` annotations, in order.
pub open spec fn cands_prefix(anns: Seq<(String, String)>, src: Seq<char>, n: int) -> Seq<
    Seq<char>,
>
    decreases n,
{
    if n <= 0 {
        Seq::empty()
    } else {
        cands_prefix(anns, src, n - 1) + ann_cands(anns[n - 1].0@, anns[n - 1].1@, src)
    }
}

/// Every candidate path that the annotations name, in the order the
/// caller should probe them.
pub open spec fn docs_candidates(anns: Seq<(String, String)>, src: Seq<char>) -> Seq<Seq<char>> {
    cands_prefix(anns, src, anns.len() as int)
}

/// The answer recorded for candidate `i`: absent answers count as
/// not existing.
pub open spec fn ans(answers: Seq<bool>, i: int) -> bool {
    0 <= i < answers.len() && answers[i]
}

/// The model of one documentation reference.
pub struct DocsRefV {
    pub ref_type: DocsRefType,
    pub path: Seq<char>,
}

/// The references one annotation yields, given the existence answers
/// aligned so that this annotation's candidates start at `off`: a
/// TechDocs reference for the first existing candidate, and an ADR
/// reference for an existing ADR path.
pub open spec fn ann_refs(
    k: Seq<char>,
    v: Seq<char>,
    src: Seq<char>,
    answers: Seq<bool>,
    off: int,
) -> Seq<DocsRefV> {
    let tc = (if k == techdocs_key() {
        tech_cands(v, src)
    } else {
        Seq::empty()
    });
    let tech = (if k == techdocs_key() {
        if ans(answers, off) {
            seq![DocsRefV { ref_type: DocsRefType::TechDocs, path: tc[0] }]
        } else if tc.len() > 1 && ans(answers, off + 1) {
            seq![DocsRefV { ref_type: DocsRefType::TechDocs, path: tc[1] }]
        } else {
            Seq::empty()
        }
    } else {
        Seq::empty()
    });
    let adr = (if is_adr_key(k) && ans(answers, off + tc.len()) {
        seq![DocsRefV { ref_type: DocsRefType::Adr, path: resolve_spec(v, src) }]
    } else {
        Seq::empty()
    });
    tech + adr
}

/// The references of the first `n` annotations, with the answers
/// aligned to the candidate order.
pub open spec fn refs_prefix(
    anns: Seq<(String, String)>,
    src: Seq<char>,
    answers: Seq<bool>,
    n: int,
) -> Seq<DocsRefV>
    decreases n,
{
    if n <= 0 {
        Seq::empty()
    } else {
        refs_prefix(anns, src, answers, n - 1) + ann_refs(
            anns[n - 1].0@,
            anns[n - 1].1@,
            src,
            answers,
            cands_prefix(anns, src, n - 1).len() as int,
        )
    }
}

/// The references all annotations yield under the given answers.
pub open spec fn docs_refs_spec(
    anns: Seq<(String, String)>,
    src: Seq<char>,
    answers: Seq<bool>,
) -> Seq<DocsRefV> {
    refs_prefix(anns, src, answers, anns.len() as int)
}

/// A reference list realizes its model.
pub open spec fn refs_match(rs: Seq<DocsRef>, ms: Seq<DocsRefV>) -> bool {
    &&& rs.len() == ms.len()
    &&& forall|i: int|
        0 <= i < ms.len() ==> (#[trigger] rs[i]).ref_type == ms[i].ref_type && rs[i].path@
            == ms[i].path
}

/// Whether `s` starts with the `dir:` marker.
fn starts_with_dir(s: &str) -> (r: bool)
    ensures
        r == starts_with_spec(s@, "dir:"@),
{
    let n = s.unicode_len();
    proof {
        reveal_strlit("dir:");
    }
    if n < 4 {
        return false;
    }
    let head = s.substring_char(0, 4);
    proof {
        assert(head@ =~= s@.take(4));
        assert("dir:"@.len() == 4);
    }
    str_eq_str(head, "dir:")
}

/// The candidate documentation paths of the annotations, resolved
/// against the source directory, in the order to probe them for
/// existence.
#[verifier::loop_isolation(false)]
pub fn docs_ref_candidates(annotations: &Vec<(String, String)>, source_dir: &str) -> (r: Vec<
    String,
>)
    ensures
        strs_view(r@) == docs_candidates(annotations@, source_dir@),
{
    let n = annotations.len();
    let mut out: Vec<String> = Vec::new();
    let mut i: usize = 0;
    proof {
        assert(strs_view(out@) =~= cands_prefix(annotations@, source_dir@, 0));
    }
    while i < n
        invariant
            0 <= i <= n,
            strs_view(out@) == cands_prefix(annotations@, source_dir@, i as int),
        decreases n - i,
    {
        let k = annotations[i].0.as_str();
        let v = annotations[i].1.as_str();
        if str_eq_str(k, "backstage.io/techdocs-ref") {
            if starts_with_dir(v) {
                let m = v.unicode_len();
                proof {
                    reveal_strlit("dir:");
                    assert(v@.len() >= 4);
                }
                let rest = v.substring_char(4, m);
                proof {
                    assert(rest@ =~= v@.skip(4));
                }
                let ghost p0 = out@;
                out.push(resolve_relative_path(rest, source_dir));
                proof {
                    assert(strs_view(out@) =~= strs_view(p0).push(
                        resolve_spec(v@.skip(4), source_dir@),
                    ));
                }
            }
            let ghost p1 = out@;
            out.push(resolve_relative_path(v, source_dir));
            proof {
                assert(strs_view(out@) =~= strs_view(p1).push(resolve_spec(v@, source_dir@)));
            }
        }
        let adr = str_eq_str(k, "backstage.io/adr-location") || str_contains(k, "adr");
        if adr {
            let ghost p2 = out@;
            out.push(resolve_relative_path(v, source_dir));
            proof {
                assert(strs_view(out@) =~= strs_view(p2).push(resolve_spec(v@, source_dir@)));
            }
        }
        proof {
            let kv = annotations@[i as int];
            assert(strs_view(out@) =~= cands_prefix(annotations@, source_dir@, i as int)
                + ann_cands(kv.0@, kv.1@, source_dir@));
        }
        i = i + 1;
    }
    out
}

/// Turn the annotations into documentation references, given one
/// existence answer per candidate path, in candidate order: each
/// TechDocs annotation yields a reference for its first existing
/// candidate, and each ADR annotation yields a reference when its
/// path exists. Missing answers count as not existing.
#[verifier::loop_isolation(false)]
pub fn parse_docs_refs(
    annotations: &Vec<(String, String)>,
    source_dir: &str,
    exists: &Vec<bool>,
) -> (r: Vec<DocsRef>)
    requires
        annotations@.len() * 3 + 3 <= usize::MAX,
    ensures
        refs_match(r@, docs_refs_spec(annotations@, source_dir@, exists@)),
{
    let n = annotations.len();
    let mut out: Vec<DocsRef> = Vec::new();
    let mut off: usize = 0;
    let mut i: usize = 0;
    while i < n
        invariant
            0 <= i <= n,
            off as int == cands_prefix(annotations@, source_dir@, i as int).len(),
            off <= 3 * i,
            refs_match(out@, refs_prefix(annotations@, source_dir@, exists@, i as int)),
        decreases n - i,
    {
        let k = annotations[i].0.as_str();
        let v = annotations[i].1.as_str();
        let ghost kv = annotations@[i as int];
        let ghost base_off = off as int;
        let mut local: usize = 0;
        if str_eq_str(k, "backstage.io/techdocs-ref") {
            if starts_with_dir(v) {
                local = 2;
                let hit_dir = off < exists.len() && exists[off];
                let hit_plain = off + 1 < exists.len() && exists[off + 1];
                if hit_dir {
                    let m = v.unicode_len();
                    proof {
                        reveal_strlit("dir:");
                        assert(v@.len() >= 4);
                    }
                    let rest = v.substring_char(4, m);
                    proof {
                        assert(rest@ =~= v@.skip(4));
                    }
                    let ghost p0 = out@;
                    out.push(
                        DocsRef {
                            ref_type: DocsRefType::TechDocs,
                            path: resolve_relative_path(rest, source_dir),
                        },
                    );
                } else if hit_plain {
                    let ghost p0 = out@;
                    out.push(
                        DocsRef {
                            ref_type: DocsRefType::TechDocs,
                            path: resolve_relative_path(v, source_dir),
                        },
                    );
                }
            } else {
                local = 1;
                if off < exists.len() && exists[off] {
                    out.push(
                        DocsRef {
                            ref_type: DocsRefType::TechDocs,
                            path: resolve_relative_path(v, source_dir),
                        },
                    );
                }
            }
        }
        let adr = str_eq_str(k, "backstage.io/adr-location") || str_contains(k, "adr");
        if adr {
            let a_off = off + local;
            if a_off < exists.len() && exists[a_off] {
                out.push(
                    DocsRef {
                        ref_type: DocsRefType::Adr,
                        path: resolve_relative_path(v, source_dir),
                    },
                );
            }
            local = local + 1;
        }
        proof {
            let prev_refs = refs_prefix(annotations@, source_dir@, exists@, i as int);
            let a_refs = ann_refs(kv.0@, kv.1@, source_dir@, exists@, base_off);
            assert(refs_match(out@, prev_refs + a_refs));
            assert(cands_prefix(annotations@, source_dir@, i + 1) =~= cands_prefix(
                annotations@,
                source_dir@,
                i as int,
            ) + ann_cands(kv.0@, kv.1@, source_dir@));
        }
        off = off + local;
        i = i + 1;
    }
    out
}



/// A file list in non-decreasing order of relative path.
pub open spec fn files_sorted(fs: Seq<DocFile>) -> bool {
    forall|i: int, j: int|
        0 <= i < j < fs.len() ==> lex_leq(
            (#[trigger] fs[i]).relative_path@,
            (#[trigger] fs[j]).relative_path@,
        )
}

/// Sort a file list by relative path, for a stable listing: the
/// result holds exactly the given files, in non-decreasing
/// lexicographic order.
#[verifier::loop_isolation(false)]
pub fn sort_doc_files(files: Vec<DocFile>) -> (r: Vec<DocFile>)
    ensures
        r@.to_multiset() == files@.to_multiset(),
        r@.len() == files@.len(),
        files_sorted(r@),
{
    broadcast use vstd::seq_lib::group_to_multiset_ensures;

    let mut rem = files;
    let mut out: Vec<DocFile> = Vec::new();
    proof {
        assert(out@.to_multiset().add(rem@.to_multiset()) =~= files@.to_multiset());
    }
    while rem.len() > 0
        invariant
            out@.to_multiset().add(rem@.to_multiset()) == files@.to_multiset(),
            out@.len() + rem@.len() == files@.len(),
            files_sorted(out@),
            forall|i: int, j: int|
                0 <= i < out@.len() && 0 <= j < rem@.len() ==> lex_leq(
                    (#[trigger] out@[i]).relative_path@,
                    (#[trigger] rem@[j]).relative_path@,
                ),
        decreases rem@.len(),
    {
        let n = rem.len();
        let mut m: usize = 0;
        let mut k: usize = 1;
        proof {
            lemma_lex_refl(rem@[0].relative_path@, 0);
        }
        while k < n
            invariant
                0 <= m < k <= n,
                forall|j: int|
                    0 <= j < k ==> lex_leq(
                        rem@[m as int].relative_path@,
                        (#[trigger] rem@[j]).relative_path@,
                    ),
            decreases n - k,
        {
            if !str_lex_leq(rem[m].relative_path.as_str(), rem[k].relative_path.as_str()) {
                proof {
                    lemma_lex_total(rem@[m as int].relative_path@, rem@[k as int].relative_path@, 0);
                    lemma_lex_refl(rem@[k as int].relative_path@, 0);
                    assert forall|j: int| 0 <= j < k + 1 implies lex_leq(
                        rem@[k as int].relative_path@,
                        (#[trigger] rem@[j]).relative_path@,
                    ) by {
                        if j < k {
                            lemma_lex_trans(
                                rem@[k as int].relative_path@,
                                rem@[m as int].relative_path@,
                                rem@[j].relative_path@,
                                0,
                            );
                        }
                    }
                }
                m = k;
            }
            k = k + 1;
        }
        let ghost rem0 = rem@;
        let ghost out0 = out@;
        let f = rem.remove(m);
        proof {
            assert(rem0.to_multiset().contains(f));
        }
        out.push(f);
        proof {
            assert(out@.to_multiset() =~= out0.to_multiset().insert(f));
            assert(rem@.to_multiset() =~= rem0.to_multiset().remove(f));
            assert(out@.to_multiset().add(rem@.to_multiset()) =~= out0.to_multiset().add(
                rem0.to_multiset(),
            ));
            assert forall|i: int, j: int|
                0 <= i < j < out@.len() implies lex_leq(
                (#[trigger] out@[i]).relative_path@,
                (#[trigger] out@[j]).relative_path@,
            ) by {
                if j == out@.len() - 1 {
                    assert(out@[i] == out0[i]);
                    assert(out@[j] == rem0[m as int]);
                }
            }
            assert forall|i: int, j: int|
                0 <= i < out@.len() && 0 <= j < rem@.len() implies lex_leq(
                (#[trigger] out@[i]).relative_path@,
                (#[trigger] rem@[j]).relative_path@,
            ) by {
                let jo = if j < m { j } else { j + 1 };
                assert(rem@[j] == rem0[jo]);
                if i < out@.len() - 1 {
                    assert(out@[i] == out0[i]);
                } else {
                    assert(out@[i] == rem0[m as int]);
                    lemma_lex_total(rem0[m as int].relative_path@, rem0[jo].relative_path@, 0);
                }
            }
        }
    }
    out
}


} // verus!
