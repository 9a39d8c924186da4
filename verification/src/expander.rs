//! Turning metric queries into filesystem globs, and filesystem hits into
//! the JSON nodes the query API answers with.
//!
//! The filesystem walking itself (globbing, directory listing) is the
//! unverified shell's; everything here is the string arithmetic around
//! it: dots to path separators and back, stripping the cache root and the
//! file suffix, and laying out one JSON object per hit.

use vstd::prelude::*;

use crate::cache::Cache;

verus! {

/// `s` with every occurrence of `from` replaced by `to`.
pub open spec fn spec_replace(s: Seq<char>, from: char, to: char) -> Seq<char> {
    Seq::new(
        s.len(),
        |i: int|
            if s[i] == from {
                to
            } else {
                s[i]
            },
    )
}

/// Index of the last '/' in `s`, or -1 when there is none.
pub open spec fn spec_last_slash(s: Seq<char>) -> int
    decreases s.len(),
{
    if s.len() == 0 {
        -1
    } else if s.last() == '/' {
        s.len() - 1
    } else {
        spec_last_slash(s.drop_last())
    }
}

proof fn lemma_last_slash_at(s: Seq<char>, i: int)
    requires
        -1 <= i < s.len(),
        i >= 0 ==> s[i] == '/',
        forall|j: int| i < j < s.len() ==> s[j] != '/',
    ensures
        spec_last_slash(s) == i,
    decreases s.len(),
{
    if s.len() > 0 {
        if s.last() == '/' {
            assert(i == s.len() - 1);
        } else {
            assert(i < s.len() - 1);
            lemma_last_slash_at(s.drop_last(), i);
        }
    }
}

/// `s` with every `from` character replaced by the single character of
/// `to_str`.
pub(crate) fn replace_chars(s: &str, from: char, to_str: &str) -> (r: String)
    requires
        to_str@.len() == 1,
    ensures
        r@ == spec_replace(s@, from, to_str@[0]),
{
    let n = s.unicode_len();
    let mut r = String::new();
    let mut i: usize = 0;
    while i < n
        invariant
            0 <= i <= n == s@.len(),
            to_str@.len() == 1,
            r@ =~= spec_replace(s@, from, to_str@[0]).take(i as int),
        decreases n - i,
    {
        let c = s.get_char(i);
        if c == from {
            r.append(to_str);
        } else {
            let piece = s.substring_char(i, i + 1);
            r.append(piece);
        }
        proof {
            assert(r@ =~= spec_replace(s@, from, to_str@[0]).take(i + 1));
        }
        i = i + 1;
    }
    proof {
        assert(spec_replace(s@, from, to_str@[0]).take(n as int) =~= spec_replace(
            s@,
            from,
            to_str@[0],
        ));
    }
    r
}

/// Index just past the last '/' of `s`, or 0 when there is none.
fn after_last_slash(s: &str) -> (r: usize)
    ensures
        r == spec_last_slash(s@) + 1,
        r <= s@.len(),
{
    let n = s.unicode_len();
    let mut i: usize = n;
    while i > 0
        invariant
            0 <= i <= n == s@.len(),
            forall|j: int| i <= j < n ==> s@[j] != '/',
        decreases i,
    {
        if s.get_char(i - 1) == '/' {
            proof {
                lemma_last_slash_at(s@, i - 1);
            }
            return i;
        }
        i = i - 1;
    }
    proof {
        lemma_last_slash_at(s@, -1);
    }
    0
}

/// A query turned into an absolute glob below the cache root: dots become
/// path separators, appended to `base_path` behind one separator.
pub fn dots_to_full_path_glob(query: &String, cache: &Cache) -> (r: String)
    ensures
        r@ == cache.base_path@ + seq!['/'] + spec_replace(query@, '.', '/'),
{
    let mut r = cache.base_path.clone();
    proof {
        reveal_strlit("/");
    }
    r.append("/");
    let replaced = replace_chars(query.as_str(), '.', "/");
    r.append(replaced.as_str());
    proof {
        reveal_strlit("/");
        assert(r@ =~= cache.base_path@ + seq!['/'] + spec_replace(query@, '.', '/'));
    }
    r
}

/// The display name and metric id of a whisper file found below the
/// cache root: the name is the file's own name with its 4-character
/// suffix cut off, the id is the path below the root with separators
/// turned back into dots, likewise without the suffix.
pub fn text_and_file_name(cache_root: &str, path: &str) -> (r: (String, String))
    requires
        cache_root@.len() + 5 <= path@.len(),
        spec_last_slash(path@) + 5 <= path@.len(),
    ensures
        r.0@ == path@.subrange(spec_last_slash(path@) + 1, path@.len() - 4),
        r.1@ == spec_replace(
            path@.subrange(cache_root@.len() as int + 1, path@.len() - 4),
            '/',
            '.',
        ),
{
    let len = path.unicode_len();
    let start = after_last_slash(path);
    let text = String::from_str(path.substring_char(start, len - 4));
    let root_len = cache_root.unicode_len();
    let without_root = path.substring_char(root_len + 1, len - 4);
    proof {
        reveal_strlit(".");
    }
    let metric_name = replace_chars(without_root, '/', ".");
    (text, metric_name)
}

/// The display name and metric id of a directory found below the cache
/// root: the name is the last path component, the id is the path below
/// the root with separators turned into dots.
pub fn text_and_folder_name(cache_root: &str, path: &str) -> (r: (String, String))
    requires
        cache_root@.len() + 1 <= path@.len(),
    ensures
        r.0@ == path@.subrange(spec_last_slash(path@) + 1, path@.len() as int),
        r.1@ == spec_replace(
            path@.subrange(cache_root@.len() as int + 1, path@.len() as int),
            '/',
            '.',
        ),
{
    let len = path.unicode_len();
    let start = after_last_slash(path);
    let text = String::from_str(path.substring_char(start, len));
    let root_len = cache_root.unicode_len();
    let without_root = path.substring_char(root_len + 1, len);
    proof {
        reveal_strlit(".");
    }
    let metric_name = replace_chars(without_root, '/', ".");
    (text, metric_name)
}

/// One hit of a metric query: a whisper file, or a directory that may
/// have children.  Each node carries the cache root it was found under
/// and its full path.
pub enum QueryResultNode {
    WspNode(String, String),
    DirNode(String, String, bool),
}

/// The JSON object for one query hit, with the given name, id, and
/// expandability digit.
pub open spec fn spec_node_json(text: Seq<char>, id: Seq<char>, expandable: Seq<char>) -> Seq<
    char,
> {
    "{\"leaf\": 0, \"context\": {}, \"text\": \""@ + text + "\", \"expandable\": "@ + expandable
        + ", \"id\": \""@ + id + "\", \"allowChildren\": 0}"@
}

impl QueryResultNode {
    /// Lays the node out as one JSON object: a whisper file is a plain
    /// leaf, a directory is expandable (1) when it has children and not
    /// (2) when it is empty.
    pub fn to_json(&self) -> (r: String)
        requires
            self matches QueryResultNode::WspNode(root, path) ==> root@.len() + 5 <= path@.len()
                && spec_last_slash(path@) + 5 <= path@.len(),
            self matches QueryResultNode::DirNode(root, path, _) ==> root@.len() + 1
                <= path@.len(),
        ensures
            self matches QueryResultNode::WspNode(root, path) ==> r@ == spec_node_json(
                path@.subrange(spec_last_slash(path@) + 1, path@.len() - 4),
                spec_replace(path@.subrange(root@.len() as int + 1, path@.len() - 4), '/', '.'),
                "0"@,
            ),
            self matches QueryResultNode::DirNode(root, path, has_children) ==> r@
                == spec_node_json(
                path@.subrange(spec_last_slash(path@) + 1, path@.len() as int),
                spec_replace(path@.subrange(root@.len() as int + 1, path@.len() as int), '/', '.'),
                if *has_children {
                    "1"@
                } else {
                    "2"@
                },
            ),
    {
        match self {
            QueryResultNode::WspNode(cache_root, path) => {
                let pair = text_and_file_name(cache_root.as_str(), path.as_str());
                let mut r = String::from_str("{\"leaf\": 0, \"context\": {}, \"text\": \"");
                r.append(pair.0.as_str());
                r.append("\", \"expandable\": ");
                r.append("0");
                r.append(", \"id\": \"");
                r.append(pair.1.as_str());
                r.append("\", \"allowChildren\": 0}");
                r
            },
            QueryResultNode::DirNode(cache_root, path, has_children) => {
                let pair = text_and_folder_name(cache_root.as_str(), path.as_str());
                let mut r = String::from_str("{\"leaf\": 0, \"context\": {}, \"text\": \"");
                r.append(pair.0.as_str());
                r.append("\", \"expandable\": ");
                if *has_children {
                    r.append("1");
                } else {
                    r.append("2");
                }
                r.append(", \"id\": \"");
                r.append(pair.1.as_str());
                r.append("\", \"allowChildren\": 0}");
                r
            },
        }
    }
}

/// Joins rendered query hits into one JSON array body.
pub fn json_array(items: &Vec<String>) -> (r: String)
    ensures
        r@ == spec_json_array(items@, items@.len() as int) + "]"@,
{
    let mut r = String::from_str("[");
    let mut i: usize = 0;
    let n = items.len();
    proof {
        reveal_strlit("[");
        assert(r@ =~= spec_json_array(items@, 0));
    }
    while i < n
        invariant
            0 <= i <= n == items@.len(),
            r@ == spec_json_array(items@, i as int),
        decreases n - i,
    {
        if i > 0 {
            r.append(",");
        }
        r.append(items[i].as_str());
        proof {
            reveal_strlit(",");
            assert(r@ =~= spec_json_array(items@, i + 1));
        }
        i = i + 1;
    }
    r.append("]");
    proof {
        reveal_strlit("]");
        assert(r@ =~= spec_json_array(items@, n as int) + "]"@);
    }
    r
}

/// The JSON array body of the first `i` rendered hits, comma separated,
/// missing only its closing bracket.
pub open spec fn spec_json_array(items: Seq<String>, i: int) -> Seq<char>
    decreases i,
{
    if i <= 0 {
        "["@
    } else if i == 1 {
        "["@ + items[0]@
    } else {
        spec_json_array(items, i - 1) + ","@ + items[i - 1]@
    }
}

} // verus!
