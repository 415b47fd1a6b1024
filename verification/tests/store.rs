use portmark::{BookmarkStore, IoError, MemStore, Storage, StoreLocation};

/// A storage whose writes always fail, standing in for a full disk.
struct FailingStore;

impl Storage for FailingStore {
    fn write(&mut self, _path: &str, _value: &str) -> Result<(), IoError> {
        Err(IoError { message: String::from("disk full") })
    }

    fn read(&self, _path: &str) -> Option<String> {
        None
    }
}

fn fresh_store() -> BookmarkStore<MemStore> {
    BookmarkStore::new(MemStore::new())
}

#[test]
fn location_joins_root_and_suffix() {
    let loc = StoreLocation::new("/home/user/project", ".rust_docs_bookmark");
    assert_eq!(loc.as_path(), "/home/user/project/.rust_docs_bookmark");
}

#[test]
fn save_then_load_returns_the_exact_string() {
    let mut store = fresh_store();
    let loc = StoreLocation::new("/home/user/project", ".rust_docs_bookmark");
    let page = "book/ch04-00-understanding-ownership.html";
    assert!(store.save(&loc, page).is_ok());
    assert_eq!(store.load(&loc), Some(String::from(page)));
}

#[test]
fn save_then_load_trims_surrounding_whitespace() {
    let mut store = fresh_store();
    let loc = StoreLocation::new("/p", ".bookmark");
    assert!(store.save(&loc, "  book/ch05-00-structs.html\n").is_ok());
    assert_eq!(store.load(&loc), Some(String::from("book/ch05-00-structs.html")));
}

#[test]
fn load_without_prior_save_is_none() {
    let store = fresh_store();
    let loc = StoreLocation::new("/p", ".bookmark");
    assert_eq!(store.load(&loc), None);
}

#[test]
fn whitespace_only_value_loads_as_none() {
    let mut store = fresh_store();
    let loc = StoreLocation::new("/p", ".bookmark");
    assert!(store.save(&loc, "   ").is_ok());
    assert_eq!(store.load(&loc), None);
}

#[test]
fn saving_again_replaces_the_value() {
    let mut store = fresh_store();
    let loc = StoreLocation::new("/p", ".bookmark");
    assert!(store.save(&loc, "first").is_ok());
    assert!(store.save(&loc, "second").is_ok());
    assert_eq!(store.load(&loc), Some(String::from("second")));
}

#[test]
fn numeric_bookmark_parses_after_load() {
    let mut store = fresh_store();
    let loc = StoreLocation::new("/p", ".gb_ctr_bookmark");
    assert!(store.save(&loc, "42").is_ok());
    assert_eq!(store.load_number(&loc), Some(42));
}

#[test]
fn unparseable_numeric_bookmark_is_none_not_a_crash() {
    let mut store = fresh_store();
    let loc = StoreLocation::new("/p", ".gb_ctr_bookmark");
    assert!(store.save(&loc, "not-a-number").is_ok());
    assert_eq!(store.load_number(&loc), None);
    assert_eq!(store.load(&loc), Some(String::from("not-a-number")));
}

#[test]
fn numeric_bookmark_trims_before_parsing() {
    let mut store = fresh_store();
    let loc = StoreLocation::new("/p", ".gb_ctr_bookmark");
    assert!(store.save(&loc, " 25\n").is_ok());
    assert_eq!(store.load_number(&loc), Some(25));
}

#[test]
fn numeric_bookmark_round_trips_through_the_decimal_writing() {
    let mut store = fresh_store();
    let loc = StoreLocation::new("/p", ".gb_ctr_bookmark");
    assert!(store.save(&loc, &portmark::u32_decimal(25)).is_ok());
    assert_eq!(store.load_number(&loc), Some(25));
}

#[test]
fn distinct_suffixes_never_collide() {
    let mut store = fresh_store();
    let page_loc = StoreLocation::new("/p", ".rust_docs_bookmark");
    let number_loc = StoreLocation::new("/p", ".gb_ctr_bookmark");
    assert!(store.save(&page_loc, "book/ch06-00-enums.html").is_ok());
    assert!(store.save(&number_loc, "7").is_ok());
    assert_eq!(store.load(&page_loc), Some(String::from("book/ch06-00-enums.html")));
    assert_eq!(store.load_number(&number_loc), Some(7));
}

#[test]
fn distinct_roots_keep_their_own_bookmarks() {
    let mut store = fresh_store();
    let a = StoreLocation::new("/project-a", ".bookmark");
    let b = StoreLocation::new("/project-b", ".bookmark");
    assert!(store.save(&a, "alpha").is_ok());
    assert!(store.save(&b, "beta").is_ok());
    assert_eq!(store.load(&a), Some(String::from("alpha")));
    assert_eq!(store.load(&b), Some(String::from("beta")));
}

#[test]
fn a_write_failure_is_surfaced_verbatim() {
    let mut store = BookmarkStore::new(FailingStore);
    let loc = StoreLocation::new("/p", ".bookmark");
    let err = store.save(&loc, "anything").unwrap_err();
    assert_eq!(err.message, "disk full");
    assert_eq!(store.load(&loc), None);
}

#[test]
fn storage_survives_being_taken_back() {
    let mut store = fresh_store();
    let loc = StoreLocation::new("/p", ".bookmark");
    assert!(store.save(&loc, "kept").is_ok());
    let storage = store.into_storage();
    let store_again = BookmarkStore::new(storage);
    assert_eq!(store_again.load(&loc), Some(String::from("kept")));
}
