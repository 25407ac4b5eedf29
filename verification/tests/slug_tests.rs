use docs_manager::slug::slugify;

#[test]
fn test_slugify_my_doc_title() {
    assert_eq!(slugify("My Doc!! Title"), "my-doc-title");
}

#[test]
fn test_slugify_trims_and_collapses() {
    assert_eq!(slugify("--hello--"), "hello");
    assert_eq!(slugify("a   b"), "a-b");
    assert_eq!(slugify("!!!"), "");
}

#[test]
fn test_slugify_keeps_alphanumerics_and_hyphens() {
    assert_eq!(slugify("running-notes"), "running-notes");
    assert_eq!(slugify("Agenda 2026"), "agenda-2026");
}

#[test]
fn test_slugify_empty() {
    assert_eq!(slugify(""), "");
}
