//! Persistence of a single bookmark string per store location.
//!
//! A [`StoreLocation`] addresses one bookmark's backing storage,
//! derived from a project root and a fixed suffix.  The storage itself
//! is a capability behind the [`Storage`] trait — [`MemStore`] keeps
//! everything in memory — and [`BookmarkStore`] holds the rules: a save
//! writes the value verbatim, a load trims surrounding whitespace and
//! treats absent or trimmed-to-empty content as no bookmark at all.

use vstd::prelude::*;

use crate::text::{parse_u32, parse_u32_spec, trim_spec, trim_str};

verus! {

/// The address a location derives from root and suffix: the root, a
/// separator, and the suffix.
pub open spec fn derived_key(root: Seq<char>, suffix: Seq<char>) -> Seq<char> {
    root + seq!['/'] + suffix
}

/// A deterministic, collision-free address for one bookmark's backing
/// storage, derived from a project root and a store-specific suffix.
pub struct StoreLocation {
    path: String,
}

impl View for StoreLocation {
    type V = Seq<char>;

    closed spec fn view(&self) -> Seq<char> {
        self.path@
    }
}

impl StoreLocation {
    /// Derive the location addressed by `suffix` under `root`.
    pub fn new(root: &str, suffix: &str) -> (r: StoreLocation)
        ensures
            r@ == derived_key(root@, suffix@),
    {
        let mut path = String::from_str(root);
        path.append("/");
        path.append(suffix);
        proof {
            reveal_strlit("/");
            assert("/"@ =~= seq!['/']);
        }
        StoreLocation { path }
    }

    /// The address as a path string.
    pub fn as_path(&self) -> (r: &str)
        ensures
            r@ == self@,
    {
        self.path.as_str()
    }
}

/// Two locations under one root with different suffixes never collide.
pub proof fn lemma_distinct_suffixes_never_collide(
    root: Seq<char>,
    suffix1: Seq<char>,
    suffix2: Seq<char>,
)
    requires
        suffix1 != suffix2,
    ensures
        derived_key(root, suffix1) != derived_key(root, suffix2),
{
    if derived_key(root, suffix1) == derived_key(root, suffix2) {
        let k1 = derived_key(root, suffix1);
        let k2 = derived_key(root, suffix2);
        assert(k1.len() == root.len() + 1 + suffix1.len());
        assert(k2.len() == root.len() + 1 + suffix2.len());
        assert(suffix1.len() == suffix2.len());
        assert(suffix1 =~= suffix2) by {
            assert(forall|i: int| 0 <= i < suffix1.len() ==> #[trigger] suffix1[i] == k1[root.len()
                + 1 + i]);
            assert(forall|i: int| 0 <= i < suffix2.len() ==> #[trigger] suffix2[i] == k2[root.len()
                + 1 + i]);
        }
    }
}

/// A failure of the backing storage while writing, surfaced verbatim.
pub struct IoError {
    /// What the storage reported.
    pub message: String,
}

/// A backing storage addressable by path, holding raw text: the
/// capability a [`BookmarkStore`] writes through and reads from.
pub trait Storage {
    /// The text stored at each path.  The default stands for storages
    /// outside the library, whose contents nothing here reasons about.
    open spec fn contents(&self) -> Map<Seq<char>, Seq<char>> {
        Map::empty()
    }

    /// Overwrite the storage at `path` with `value` in full.  On
    /// success the stored value is exactly `value`; on failure the
    /// storage holds either the old value or the new one in full —
    /// never a torn write.
    fn write(&mut self, path: &str, value: &str) -> (r: Result<(), IoError>)
        ensures
            r is Ok ==> final(self).contents() == old(self).contents().insert(path@, value@),
            final(self).contents() == old(self).contents() || final(self).contents() == old(
                self,
            ).contents().insert(path@, value@),
    ;

    /// Read the text stored at `path`, or nothing when the storage
    /// holds nothing there.
    fn read(&self, path: &str) -> (r: Option<String>)
        ensures
            match r {
                Some(s) => self.contents().contains_key(path@) && s@ == self.contents()[path@],
                None => !self.contents().contains_key(path@),
            },
    ;
}

/// The text stored at `key`, if any.
pub open spec fn stored_at(m: Map<Seq<char>, Seq<char>>, key: Seq<char>) -> Option<Seq<char>> {
    if m.contains_key(key) {
        Some(m[key])
    } else {
        None
    }
}

/// What a load yields from the stored text: nothing when no text is
/// stored or the text trims to empty, the trimmed text otherwise.
pub open spec fn bookmark_view(stored: Option<Seq<char>>) -> Option<Seq<char>> {
    match stored {
        Option::None => None,
        Option::Some(c) => if trim_spec(c).len() == 0 {
            None
        } else {
            Some(trim_spec(c))
        },
    }
}

/// What a numeric load yields: the bookmark parsed as a decimal `u32`,
/// and nothing when there is no bookmark or it does not parse.
pub open spec fn numeric_bookmark_view(stored: Option<Seq<char>>) -> Option<u32> {
    match bookmark_view(stored) {
        Option::None => None,
        Option::Some(t) => parse_u32_spec(t),
    }
}

/// A store of one string-valued bookmark per location, kept in a
/// backing storage.
pub struct BookmarkStore<S: Storage> {
    storage: S,
}

impl<S: Storage> BookmarkStore<S> {
    /// The text stored at each location's address.
    pub closed spec fn contents(&self) -> Map<Seq<char>, Seq<char>> {
        self.storage.contents()
    }

    /// A bookmark store over `storage`.
    pub fn new(storage: S) -> (r: Self)
        ensures
            r.contents() == storage.contents(),
    {
        BookmarkStore { storage }
    }

    /// Give the backing storage back.
    pub fn into_storage(self) -> (r: S)
        ensures
            r.contents() == self.contents(),
    {
        self.storage
    }

    /// Overwrite the bookmark at `location` with `value`, written
    /// exactly as given.  A storage failure is surfaced verbatim, with
    /// the stored value either the old or the new one in full.
    pub fn save(&mut self, location: &StoreLocation, value: &str) -> (r: Result<(), IoError>)
        ensures
            r is Ok ==> final(self).contents() == old(self).contents().insert(
                location@,
                value@,
            ),
            final(self).contents() == old(self).contents() || final(self).contents() == old(
                self,
            ).contents().insert(location@, value@),
    {
        self.storage.write(location.as_path(), value)
    }

    /// Load the bookmark at `location`: nothing when no save ever
    /// happened there or the stored text trims to empty, the stored
    /// text trimmed otherwise.
    pub fn load(&self, location: &StoreLocation) -> (r: Option<String>)
        ensures
            r.deep_view() == bookmark_view(stored_at(self.contents(), location@)),
    {
        match self.storage.read(location.as_path()) {
            Option::None => None,
            Option::Some(content) => {
                let trimmed = trim_str(content.as_str());
                if trimmed.as_str().is_empty() {
                    None
                } else {
                    Some(trimmed)
                }
            },
        }
    }

    /// Load the bookmark at `location` as a decimal number.  Content
    /// that does not parse counts as no bookmark, never as a failure.
    pub fn load_number(&self, location: &StoreLocation) -> (r: Option<u32>)
        ensures
            r == numeric_bookmark_view(stored_at(self.contents(), location@)),
    {
        match self.load(location) {
            Option::None => None,
            Option::Some(text) => parse_u32(text.as_str()),
        }
    }
}

/// The map an entry list holds: a later entry for a key overrides an
/// earlier one.
spec fn entry_map(s: Seq<(String, String)>) -> Map<Seq<char>, Seq<char>>
    decreases s.len(),
{
    if s.len() == 0 {
        Map::empty()
    } else {
        entry_map(s.drop_last()).insert(s.last().0@, s.last().1@)
    }
}

/// The latest entry for a key decides what the list's map holds there.
proof fn lemma_entry_map_found(s: Seq<(String, String)>, i: int)
    requires
        0 <= i < s.len(),
        forall|j: int| i < j < s.len() ==> #[trigger] s[j].0@ != s[i].0@,
    ensures
        entry_map(s).contains_key(s[i].0@),
        entry_map(s)[s[i].0@] == s[i].1@,
    decreases s.len(),
{
    if i < s.len() - 1 {
        let t = s.drop_last();
        assert(forall|j: int| i < j < t.len() ==> #[trigger] t[j].0@ != t[i].0@);
        lemma_entry_map_found(t, i);
    }
}

/// A key no entry carries is not in the list's map.
proof fn lemma_entry_map_absent(s: Seq<(String, String)>, key: Seq<char>)
    requires
        forall|j: int| 0 <= j < s.len() ==> #[trigger] s[j].0@ != key,
    ensures
        !entry_map(s).contains_key(key),
    decreases s.len(),
{
    if s.len() > 0 {
        lemma_entry_map_absent(s.drop_last(), key);
    }
}

/// Replacing the latest entry for a key updates the list's map at that
/// key alone.
proof fn lemma_entry_map_update(s: Seq<(String, String)>, i: int, e: (String, String))
    requires
        0 <= i < s.len(),
        e.0@ == s[i].0@,
        forall|j: int| i < j < s.len() ==> #[trigger] s[j].0@ != s[i].0@,
    ensures
        entry_map(s.update(i, e)) == entry_map(s).insert(e.0@, e.1@),
    decreases s.len(),
{
    let t = s.update(i, e);
    if i == s.len() - 1 {
        assert(t.drop_last() =~= s.drop_last());
        assert(t.last() == e);
        assert(entry_map(s.drop_last()).insert(s[i].0@, s[i].1@).insert(e.0@, e.1@)
            =~= entry_map(s.drop_last()).insert(e.0@, e.1@));
    } else {
        let u = s.drop_last();
        assert(t.drop_last() =~= u.update(i, e));
        assert(forall|j: int| i < j < u.len() ==> #[trigger] u[j].0@ != u[i].0@);
        lemma_entry_map_update(u, i, e);
        assert(t.last() == s.last());
        assert(s.last().0@ != e.0@);
        assert(entry_map(u).insert(e.0@, e.1@).insert(s.last().0@, s.last().1@) =~= entry_map(
            u,
        ).insert(s.last().0@, s.last().1@).insert(e.0@, e.1@));
    }
}

/// An in-memory backing storage: a list of path/text entries, the
/// latest entry for a path deciding what is stored there.
pub struct MemStore {
    entries: Vec<(String, String)>,
}

impl MemStore {
    /// An empty storage: nothing is stored anywhere.
    pub fn new() -> (r: MemStore)
        ensures
            r.contents() == Map::<Seq<char>, Seq<char>>::empty(),
    {
        MemStore { entries: Vec::new() }
    }
}

impl Storage for MemStore {
    closed spec fn contents(&self) -> Map<Seq<char>, Seq<char>> {
        entry_map(self.entries@)
    }

    fn write(&mut self, path: &str, value: &str) -> (r: Result<(), IoError>) {
        let path_string = String::from_str(path);
        let value_string = String::from_str(value);
        let ghost e: (String, String) = (path_string, value_string);
        let n = self.entries.len();
        let mut idx: usize = n;
        while idx > 0
            invariant
                n == self.entries@.len(),
                idx <= n,
                forall|j: int| idx <= j < n ==> #[trigger] self.entries@[j].0@ != path@,
                self.entries@ == old(self).entries@,
                path_string@ == path@,
                value_string@ == value@,
                e == (path_string, value_string),
            decreases idx,
        {
            let k = idx - 1;
            if self.entries[k].0 == path_string {
                self.entries.set(k, (path_string, value_string));
                proof {
                    lemma_entry_map_update(old(self).entries@, k as int, e);
                }
                return Ok(());
            }
            idx = k;
        }
        self.entries.push((path_string, value_string));
        proof {
            assert(self.entries@.drop_last() =~= old(self).entries@);
            assert(self.entries@.last() == e);
        }
        Ok(())
    }

    fn read(&self, path: &str) -> (r: Option<String>) {
        let path_string = String::from_str(path);
        let n = self.entries.len();
        let mut idx: usize = n;
        while idx > 0
            invariant
                n == self.entries@.len(),
                idx <= n,
                forall|j: int| idx <= j < n ==> #[trigger] self.entries@[j].0@ != path@,
                path_string@ == path@,
            decreases idx,
        {
            let k = idx - 1;
            if self.entries[k].0 == path_string {
                proof {
                    lemma_entry_map_found(self.entries@, k as int);
                }
                return Some(self.entries[k].1.clone());
            }
            idx = k;
        }
        proof {
            lemma_entry_map_absent(self.entries@, path@);
        }
        None
    }
}

/// Saving a value that trims to something and loading it back yields
/// exactly the trimmed value.
pub proof fn lemma_save_then_load_round_trip(
    m: Map<Seq<char>, Seq<char>>,
    key: Seq<char>,
    value: Seq<char>,
)
    requires
        trim_spec(value).len() > 0,
    ensures
        bookmark_view(stored_at(m.insert(key, value), key)) == Some(trim_spec(value)),
{
}

/// A location never saved to loads nothing.
pub proof fn lemma_load_without_save(m: Map<Seq<char>, Seq<char>>, key: Seq<char>)
    requires
        !m.contains_key(key),
    ensures
        bookmark_view(stored_at(m, key)) is None,
{
}

/// Saving nothing but whitespace loads nothing: trimmed-to-empty counts
/// as absent.
pub proof fn lemma_whitespace_only_loads_nothing(
    m: Map<Seq<char>, Seq<char>>,
    key: Seq<char>,
    value: Seq<char>,
)
    requires
        forall|k: int| 0 <= k < value.len() ==> crate::text::is_space_char(#[trigger] value[k]),
    ensures
        bookmark_view(stored_at(m.insert(key, value), key)) is None,
{
    crate::text::lemma_trim_all_space_is_empty(value);
}

/// Saving the decimal writing of a number and loading it back as a
/// number yields exactly that number.
pub proof fn lemma_save_number_round_trip(m: Map<Seq<char>, Seq<char>>, key: Seq<char>, v: u32)
    ensures
        numeric_bookmark_view(
            stored_at(m.insert(key, crate::text::decimal_seq(v as nat)), key),
        ) == Some(v),
{
    let s = crate::text::decimal_seq(v as nat);
    crate::text::lemma_decimal_parses_back(v as nat);
    assert(s.len() > 0 && crate::text::all_digits(s));
    crate::text::lemma_digits_survive_trim(s);
}

} // verus!
