//! Building the address a documentation launcher hands to the
//! operating system's URL opener.
//!
//! A saved page is either a full URL already, or a path relative to the
//! root of the installed documentation; the root itself is reported as
//! the path of its index page.

use vstd::prelude::*;

verus! {

/// The scheme a local file address starts with.
pub open spec fn file_scheme() -> Seq<char> {
    seq!['f', 'i', 'l', 'e', ':', '/', '/']
}

/// The prefix marking a page that is already a web address.
pub open spec fn http_prefix() -> Seq<char> {
    seq!['h', 't', 't', 'p']
}

/// The index page name a documentation root path ends with.
pub open spec fn index_page() -> Seq<char> {
    seq!['i', 'n', 'd', 'e', 'x', '.', 'h', 't', 'm', 'l']
}

/// Whether `page` is already a full URL rather than a relative path.
pub open spec fn is_full_url(page: Seq<char>) -> bool {
    http_prefix().is_prefix_of(page) || file_scheme().is_prefix_of(page)
}

/// `s` without its leading slashes.
pub open spec fn drop_leading_slashes(s: Seq<char>) -> Seq<char>
    decreases s.len(),
{
    if s.len() > 0 && s[0] == '/' {
        drop_leading_slashes(s.drop_first())
    } else {
        s
    }
}

/// The documentation base directory: the reported path with every
/// trailing `index.html` removed.
pub open spec fn doc_base(doc_path: Seq<char>) -> Seq<char>
    decreases doc_path.len(),
{
    if index_page().is_suffix_of(doc_path) {
        doc_base(doc_path.take(doc_path.len() - index_page().len()))
    } else {
        doc_path
    }
}

/// The address to open for `page` under the documentation whose index
/// is reported at `doc_path`: no page opens the index itself, a full
/// URL is taken as it is, and a relative path is resolved against the
/// base directory.
pub open spec fn doc_url_spec(doc_path: Seq<char>, page: Option<Seq<char>>) -> Seq<char> {
    match page {
        Option::None => file_scheme() + doc_path,
        Option::Some(p) => if is_full_url(p) {
            p
        } else {
            file_scheme() + doc_base(doc_path) + drop_leading_slashes(p)
        },
    }
}

/// Whether `s` starts with `prefix`.
fn starts_with(s: &str, prefix: &str) -> (r: bool)
    ensures
        r == prefix@.is_prefix_of(s@),
{
    let np = prefix.unicode_len();
    let ns = s.unicode_len();
    if np > ns {
        return false;
    }
    let mut i: usize = 0;
    while i < np
        invariant
            np == prefix@.len(),
            ns == s@.len(),
            np <= ns,
            0 <= i <= np,
            forall|k: int| 0 <= k < i ==> prefix@[k] == s@[k],
        decreases np - i,
    {
        if s.get_char(i) != prefix.get_char(i) {
            proof {
                assert(s@.subrange(0, np as int)[i as int] == s@[i as int]);
            }
            return false;
        }
        i = i + 1;
    }
    proof {
        assert(prefix@ =~= s@.subrange(0, np as int));
    }
    true
}

/// Whether `s` ends with `suffix`.
fn ends_with(s: &str, suffix: &str) -> (r: bool)
    ensures
        r == suffix@.is_suffix_of(s@),
{
    let np = suffix.unicode_len();
    let ns = s.unicode_len();
    if np > ns {
        return false;
    }
    let off = ns - np;
    let mut i: usize = 0;
    while i < np
        invariant
            np == suffix@.len(),
            ns == s@.len(),
            np <= ns,
            off == ns - np,
            0 <= i <= np,
            forall|k: int| 0 <= k < i ==> suffix@[k] == s@[off + k],
        decreases np - i,
    {
        if s.get_char(off + i) != suffix.get_char(i) {
            proof {
                assert(s@.subrange(off as int, ns as int)[i as int] == s@[off + i]);
            }
            return false;
        }
        i = i + 1;
    }
    proof {
        assert(suffix@ =~= s@.subrange(off as int, ns as int));
    }
    true
}

/// Dropping leading slashes is the same as slicing at the first index
/// that holds no slash.
proof fn lemma_drop_leading_slashes_is_subrange(s: Seq<char>, i: int)
    requires
        0 <= i <= s.len(),
        forall|k: int| 0 <= k < i ==> #[trigger] s[k] == '/',
        i == s.len() || s[i] != '/',
    ensures
        drop_leading_slashes(s) == s.subrange(i, s.len() as int),
    decreases i,
{
    if i == 0 {
        assert(s.subrange(0, s.len() as int) =~= s);
    } else {
        let t = s.drop_first();
        assert(forall|k: int| 0 <= k < i - 1 ==> #[trigger] t[k] == '/');
        lemma_drop_leading_slashes_is_subrange(t, i - 1);
        assert(t.subrange(i - 1, t.len() as int) =~= s.subrange(i, s.len() as int));
    }
}

/// Build the address to open for `page` under the documentation whose
/// index is reported at `doc_path`.
#[verifier::loop_isolation(false)]
pub fn doc_page_url(doc_path: &str, page: Option<&str>) -> (r: String)
    ensures
        r@ == doc_url_spec(doc_path@, page.deep_view()),
{
    proof {
        reveal_strlit("file://");
        reveal_strlit("http");
        reveal_strlit("index.html");
        assert("file://"@ =~= file_scheme());
        assert("http"@ =~= http_prefix());
        assert("index.html"@ =~= index_page());
    }
    match page {
        Option::None => {
            let mut url = String::from_str("file://");
            url.append(doc_path);
            url
        },
        Option::Some(p) => {
            if starts_with(p, "http") || starts_with(p, "file://") {
                String::from_str(p)
            } else {
                let mut base: &str = doc_path;
                while ends_with(base, "index.html")
                    invariant
                        doc_base(base@) == doc_base(doc_path@),
                    decreases base@.len(),
                {
                    let cut = base.unicode_len() - "index.html".unicode_len();
                    let shorter = base.substring_char(0, cut);
                    proof {
                        assert(shorter@ =~= base@.take(base@.len() - index_page().len()));
                    }
                    base = shorter;
                }
                let n = p.unicode_len();
                let mut i: usize = 0;
                while i < n && p.get_char(i) == '/'
                    invariant
                        n == p@.len(),
                        0 <= i <= n,
                        forall|k: int| 0 <= k < i ==> #[trigger] p@[k] == '/',
                    decreases n - i,
                {
                    i = i + 1;
                }
                let rest = p.substring_char(i, n);
                proof {
                    lemma_drop_leading_slashes_is_subrange(p@, i as int);
                }
                let mut url = String::from_str("file://");
                url.append(base);
                url.append(rest);
                url
            }
        },
    }
}

} // verus!
