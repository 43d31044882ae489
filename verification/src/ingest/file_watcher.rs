//! The file-watcher entrance to ingest.
use vstd::prelude::*;
use crate::text::{chars_of, find_at, find, has_prefix, starts_with, string_range, lemma_find_from};

verus! {

/// The local path a `file:` URI names. `file:///x` keeps everything after the
/// third slash (a Windows drive path, or a POSIX path without its root);
/// `file://host/path` drops the host and keeps the path from its first `'/'`
/// (nothing when there is none); anything else is already a path.
pub open spec fn local_path_of(uri: Seq<char>) -> Seq<char> {
    if has_prefix(uri, "file:///"@) {
        uri.subrange(8, uri.len() as int)
    } else if has_prefix(uri, "file://"@) {
        let rest = uri.subrange(7, uri.len() as int);
        match find(rest, seq!['/']) {
            Some(i) => rest.subrange(i, rest.len() as int),
            None => Seq::empty(),
        }
    } else {
        uri
    }
}

pub fn strip_file_uri(uri: &str) -> (r: String)
    ensures
        r@ == local_path_of(uri@),
{
    proof {
        reveal_strlit("file:///");
        reveal_strlit("file://");
    }
    let v = chars_of(uri);
    let three = vec!['f', 'i', 'l', 'e', ':', '/', '/', '/'];
    let two = vec!['f', 'i', 'l', 'e', ':', '/', '/'];
    assert(three@ =~= "file:///"@);
    assert(two@ =~= "file://"@);
    if starts_with(v.as_slice(), three.as_slice()) {
        return string_range(v.as_slice(), 8, v.len());
    }
    if starts_with(v.as_slice(), two.as_slice()) {
        let ghost rest = v@.subrange(7, v@.len() as int);
        let rest_v = string_range(v.as_slice(), 7, v.len());
        let rv = chars_of(rest_v.as_str());
        let slash = vec!['/'];
        assert(slash@ =~= seq!['/']);
        let found = find_at(rv.as_slice(), slash.as_slice(), 0);
        proof {
            lemma_find_from(rv@, slash@, 0);
        }
        return match found {
            Some(i) => string_range(rv.as_slice(), i, rv.len()),
            None => String::new(),
        };
    }
    String::from_str(uri)
}

} // verus!
