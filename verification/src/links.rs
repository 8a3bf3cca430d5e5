//! Links offered for download: which clipboard text looks like a link, and
//! the file name a link's download is saved under.

use vstd::prelude::*;
use crate::text::{after_last, before_first, lemma_after_last_meaning, lemma_before_first_meaning, split_after_last, split_before_first, starts_with};

verus! {

/// Text that begins with `http://` or `https://`.
pub open spec fn is_http_link(s: Seq<char>) -> bool {
    ||| (s.len() >= 7 && s.subrange(0, 7) == "http://"@)
    ||| (s.len() >= 8 && s.subrange(0, 8) == "https://"@)
}

/// Whether the text begins with `http://` or `https://`.
pub fn looks_like_link(text: &str) -> (r: bool)
    ensures
        r == is_http_link(text@),
{
    proof {
        reveal_strlit("http://");
        reveal_strlit("https://");
    }
    starts_with(text, "http://") || starts_with(text, "https://")
}

/// The clipboard text to pre-fill as a link: kept only when it looks like
/// an HTTP(S) link.
pub fn link_from_clipboard(text: Option<String>) -> (r: Option<String>)
    ensures
        r == (match text {
            Some(t) => if is_http_link(t@) { Some(t) } else { None },
            None => None,
        }),
{
    match text {
        Some(t) => {
            if looks_like_link(t.as_str()) {
                Some(t)
            } else {
                None
            }
        },
        None => None,
    }
}

/// The file name a link is saved under: its last path segment without the
/// query string, or `download` when that is empty.
pub open spec fn link_file_name(link: Seq<char>) -> Seq<char> {
    let name = before_first(after_last(link, '/'), '?');
    if name.len() == 0 { "download"@ } else { name }
}

/// A link's file name is never empty and holds neither `/` nor `?`; a
/// link that holds neither is its own file name, and a link that ends with
/// `/` is saved as `download`.
pub proof fn lemma_link_file_name_meaning(link: Seq<char>)
    ensures
        link_file_name(link).len() > 0,
        forall|i: int| 0 <= i < link_file_name(link).len() ==> #[trigger] link_file_name(link)[i] != '/'
            && link_file_name(link)[i] != '?',
        (link.len() > 0 && forall|i: int| 0 <= i < link.len() ==> #[trigger] link[i] != '/' && link[i] != '?')
            ==> link_file_name(link) == link,
        (link.len() > 0 && link.last() == '/') ==> link_file_name(link) == "download"@,
{
    reveal_strlit("download");
    let seg = after_last(link, '/');
    let name = before_first(seg, '?');
    lemma_after_last_meaning(link, '/');
    lemma_before_first_meaning(seg, '?');
    assert forall|i: int| 0 <= i < name.len() implies name[i] != '/' && name[i] != '?' by {
        assert(name[i] == seg[i]);
    }
    if link.len() > 0 && forall|i: int| 0 <= i < link.len() ==> #[trigger] link[i] != '/' && link[i] != '?' {
        assert(seg.len() == link.len());
        assert(seg =~= link);
        assert(name.len() == seg.len());
        assert(name =~= seg);
    }
    if link.len() > 0 && link.last() == '/' {
        assert(seg.len() == 0);
    }
}

/// Computes `link_file_name`.
pub fn download_file_name(link: &str) -> (name: String)
    ensures
        name@ == link_file_name(link@),
{
    let last = split_after_last(link, '/');
    let name = split_before_first(last, '?');
    if name.unicode_len() == 0 {
        String::from_str("download")
    } else {
        String::from_str(name)
    }
}

} // verus!
