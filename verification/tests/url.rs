use portmark::doc_page_url;

#[test]
fn no_page_opens_the_reported_index() {
    let url = doc_page_url("/usr/share/doc/rust/html/index.html", None);
    assert_eq!(url, "file:///usr/share/doc/rust/html/index.html");
}

#[test]
fn relative_page_is_resolved_against_the_base() {
    let url = doc_page_url(
        "/usr/share/doc/rust/html/index.html",
        Some("book/ch04-00-understanding-ownership.html"),
    );
    assert_eq!(url, "file:///usr/share/doc/rust/html/book/ch04-00-understanding-ownership.html");
}

#[test]
fn http_page_is_used_as_given() {
    let url = doc_page_url("/docs/index.html", Some("https://example.org/page.html"));
    assert_eq!(url, "https://example.org/page.html");
}

#[test]
fn file_url_page_is_used_as_given() {
    let url = doc_page_url("/docs/index.html", Some("file:///somewhere/else.html"));
    assert_eq!(url, "file:///somewhere/else.html");
}

#[test]
fn doc_path_without_index_page_is_kept_whole() {
    let url = doc_page_url("/docs/", Some("guide.html"));
    assert_eq!(url, "file:///docs/guide.html");
}

#[test]
fn leading_slashes_of_the_page_are_dropped() {
    let url = doc_page_url("/docs/", Some("///std/vec/struct.Vec.html"));
    assert_eq!(url, "file:///docs/std/vec/struct.Vec.html");
}

#[test]
fn every_trailing_index_page_is_removed() {
    let url = doc_page_url("/d/index.htmlindex.html", Some("a.html"));
    assert_eq!(url, "file:///d/a.html");
}
