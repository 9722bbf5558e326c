use bsv::docs::docs_ref_candidates;
use bsv::docs::is_markdown_file;
use bsv::docs::parse_docs_refs;
use bsv::docs::resolve_relative_path;
use bsv::docs::sort_doc_files;
use bsv::docs::DocFile;
use bsv::docs::DocsBrowser;
use bsv::docs::DocsRef;
use bsv::docs::DocsRefType;

fn doc_file(name: &str) -> DocFile {
    DocFile {
        path: format!("/docs/{}", name),
        name: name.to_string(),
        relative_path: name.to_string(),
    }
}

fn browser_with(names: &[&str]) -> DocsBrowser {
    DocsBrowser::new(
        DocsRef {
            ref_type: DocsRefType::TechDocs,
            path: "/docs".to_string(),
        },
        names.iter().map(|n| doc_file(n)).collect(),
    )
}

#[test]
fn test_docs_ref_type_label() {
    assert_eq!(DocsRefType::TechDocs.label(), "TechDocs");
    assert_eq!(DocsRefType::Adr.label(), "ADR");
}

#[test]
fn test_browser_selection_moves() {
    let mut b = browser_with(&["a.md", "b.md", "c.md"]);
    assert_eq!(b.selected_index, 0);
    b.move_up();
    assert_eq!(b.selected_index, 0);
    b.move_down(10);
    b.move_down(10);
    assert_eq!(b.selected_index, 2);
    // Stops at the last file.
    b.move_down(10);
    assert_eq!(b.selected_index, 2);
    b.move_up();
    assert_eq!(b.selected_index, 1);
}

#[test]
fn test_browser_content_scrolling() {
    let mut b = browser_with(&["a.md"]);
    assert!(!b.is_viewing_content());
    let lines: Vec<String> = (0..20).map(|i| format!("line {}", i)).collect();
    b.open_content(lines);
    assert!(b.is_viewing_content());
    assert_eq!(b.scroll_offset, 0);

    // Scroll within the window bound: 20 lines, 5 visible.
    for _ in 0..30 {
        b.move_down(5);
    }
    assert_eq!(b.scroll_offset, 15);
    b.page_up(4);
    assert_eq!(b.scroll_offset, 11);
    b.page_down(5, 100);
    assert_eq!(b.scroll_offset, 15);
    b.move_up();
    assert_eq!(b.scroll_offset, 14);

    b.close_content();
    assert!(!b.is_viewing_content());
    assert_eq!(b.scroll_offset, 0);

    // Opening with no file selected does nothing.
    let mut empty = browser_with(&[]);
    empty.open_content(vec!["x".to_string()]);
    assert!(!empty.is_viewing_content());
}

#[test]
fn test_is_markdown_file() {
    assert!(is_markdown_file("README.md"));
    assert!(is_markdown_file("docs/guide.markdown"));
    assert!(is_markdown_file("/abs/path/to/notes.md"));
    assert!(!is_markdown_file("main.rs"));
    assert!(!is_markdown_file("Makefile"));
    // A leading dot alone is not an extension.
    assert!(!is_markdown_file(".md"));
    assert!(!is_markdown_file("dir/.md"));
    assert!(is_markdown_file("notes.tar.md"));
}

#[test]
fn test_resolve_relative_path() {
    assert_eq!(resolve_relative_path("docs", "/base"), "/base/docs");
    assert_eq!(resolve_relative_path("/abs", "/base"), "/abs");
    assert_eq!(resolve_relative_path("docs", ""), "docs");
    assert_eq!(resolve_relative_path("./docs", "base/dir"), "base/dir/./docs");
}

#[test]
fn test_docs_candidates_and_refs() {
    let annotations = vec![
        (
            "backstage.io/techdocs-ref".to_string(),
            "dir:./docs".to_string(),
        ),
        ("backstage.io/adr-location".to_string(), "adrs".to_string()),
        ("unrelated".to_string(), "value".to_string()),
    ];
    let cands = docs_ref_candidates(&annotations, "/repo");
    assert_eq!(
        cands,
        vec![
            "/repo/./docs".to_string(),
            "/repo/dir:./docs".to_string(),
            "/repo/adrs".to_string(),
        ]
    );

    // The dir: candidate exists: one TechDocs ref plus the ADR ref.
    let refs = parse_docs_refs(&annotations, "/repo", &vec![true, true, true]);
    assert_eq!(refs.len(), 2);
    assert_eq!(refs[0].ref_type, DocsRefType::TechDocs);
    assert_eq!(refs[0].path, "/repo/./docs");
    assert_eq!(refs[1].ref_type, DocsRefType::Adr);
    assert_eq!(refs[1].path, "/repo/adrs");

    // Only the plain fallback exists.
    let refs = parse_docs_refs(&annotations, "/repo", &vec![false, true, false]);
    assert_eq!(refs.len(), 1);
    assert_eq!(refs[0].ref_type, DocsRefType::TechDocs);
    assert_eq!(refs[0].path, "/repo/dir:./docs");

    // Nothing exists: no references at all.
    let refs = parse_docs_refs(&annotations, "/repo", &vec![false, false, false]);
    assert!(refs.is_empty());

    // Missing answers count as not existing.
    let refs = parse_docs_refs(&annotations, "/repo", &Vec::new());
    assert!(refs.is_empty());
}

#[test]
fn test_adr_key_substring_match() {
    // Any annotation key holding "adr" counts as an ADR location.
    let annotations = vec![("company/adr-index".to_string(), "decisions".to_string())];
    let cands = docs_ref_candidates(&annotations, "");
    assert_eq!(cands, vec!["decisions".to_string()]);
    let refs = parse_docs_refs(&annotations, "", &vec![true]);
    assert_eq!(refs.len(), 1);
    assert_eq!(refs[0].ref_type, DocsRefType::Adr);
}

#[test]
fn test_sort_doc_files_by_relative_path() {
    let files = vec![doc_file("zeta.md"), doc_file("alpha.md"), doc_file("guide/one.md")];
    let sorted = sort_doc_files(files);
    let rels: Vec<&str> = sorted.iter().map(|f| f.relative_path.as_str()).collect();
    assert_eq!(rels, vec!["alpha.md", "guide/one.md", "zeta.md"]);

    // Prefixes come first; duplicates survive.
    let files = vec![doc_file("ab.md"), doc_file("a"), doc_file("ab.md")];
    let sorted = sort_doc_files(files);
    let rels: Vec<&str> = sorted.iter().map(|f| f.relative_path.as_str()).collect();
    assert_eq!(rels, vec!["a", "ab.md", "ab.md"]);
}
