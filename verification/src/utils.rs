//! Path and query helpers used when routing requests.

use vstd::prelude::*;
use crate::text::{
    chars_of, ends_with, first_index_from, has_prefix, has_suffix, is_last_index,
    last_index_of, lemma_last_index_exists, lemma_split_at_first, lemma_split_at_last,
    lemma_split_none, lemma_split_nonempty, lemma_split_pieces_lack, slice_chars, split_char,
    starts_with,
};

verus! {

/// `s` without a trailing `.html`.
pub open spec fn spec_remove_extension(s: Seq<char>) -> Seq<char> {
    if ends_with(s, ".html"@) {
        s.take(s.len() - ".html"@.len())
    } else {
        s
    }
}

/// A path without its query: the text before the first `?`.
pub open spec fn before_query(s: Seq<char>) -> Seq<char> {
    split_char(s, '?')[0]
}

/// The last component of a path: the text after its last `/`.
pub open spec fn last_component(s: Seq<char>) -> Seq<char> {
    split_char(s, '/').last()
}

/// The extension of a file name: the text after its last `.`; none when the
/// name holds no `.`.
pub open spec fn name_extension(name: Seq<char>) -> Option<Seq<char>> {
    let pieces = split_char(name, '.');
    if pieces.len() < 2 {
        None
    } else {
        Some(pieces.last())
    }
}

/// The extension of the file that a path names: the query is dropped, then
/// the extension is taken from the last component; none when that
/// component holds no `.`.
pub open spec fn spec_file_extension(s: Seq<char>) -> Option<Seq<char>> {
    name_extension(last_component(before_query(s)))
}

/// The query of a path such as `index.php?name=timmy`: the text after its
/// last `?`.
pub open spec fn query_of(s: Seq<char>) -> Seq<char> {
    split_char(s, '?').last()
}

/// A path such as `index.php?name=timmy` split at its last `?` into the
/// path before it and the query after it; none when the path has no `?`,
/// or no `.` before its last `?`.
pub open spec fn spec_split_get_request(s: Seq<char>) -> Option<(Seq<char>, Seq<char>)> {
    let q = query_of(s);
    let p = s.take(s.len() - q.len() - 1);
    if split_char(s, '?').len() >= 2 && p.contains('.') {
        Some((p, q))
    } else {
        None
    }
}

/// `s` without one leading `/`.
pub open spec fn spec_sanatize_path(s: Seq<char>) -> Seq<char> {
    if starts_with(s, "/"@) {
        s.skip(1)
    } else {
        s
    }
}

/// An extension holds neither `.`, `?` nor `/`.
pub proof fn lemma_extension_plain(path: Seq<char>)
    ensures
        spec_file_extension(path) matches Some(e) ==> !e.contains('.') && !e.contains('?')
            && !e.contains('/'),
{
    lemma_split_nonempty(path, '?');
    lemma_split_pieces_lack(path, '?', '?');
    let p = before_query(path);
    let c = split_char(p, '/');
    lemma_split_nonempty(p, '/');
    lemma_split_pieces_lack(p, '/', '/');
    lemma_split_pieces_lack(p, '/', '?');
    let name = last_component(p);
    assert(name == c[c.len() - 1]);
    let pieces = split_char(name, '.');
    if pieces.len() >= 2 {
        lemma_split_pieces_lack(name, '.', '.');
        lemma_split_pieces_lack(name, '.', '?');
        lemma_split_pieces_lack(name, '.', '/');
        assert(pieces.last() == pieces[pieces.len() - 1]);
    }
}

/// A path split into path and query is rebuilt by joining the two with
/// `?`; the query holds no `?` and the path holds a `.`.
pub proof fn lemma_split_get_request_rebuilds(path: Seq<char>)
    ensures
        spec_split_get_request(path) matches Some((p, q)) ==> {
            &&& p + seq!['?'] + q == path
            &&& !q.contains('?')
            &&& p.contains('.')
        },
{
    if spec_split_get_request(path) is Some {
        let (p, q) = spec_split_get_request(path)->0;
        if !path.contains('?') {
            lemma_split_none(path, '?');
        }
        lemma_last_index_exists(path, '?');
        let i = choose|i: int| is_last_index(path, '?', i);
        lemma_split_at_last(path, '?', i);
        assert(p =~= path.take(i));
        assert(p + seq!['?'] + q =~= path);
    }
}

/// The position where the query of `v` starts: its first `?`, or its end.
fn query_start(v: &Vec<char>) -> (r: usize)
    ensures
        r <= v@.len(),
        v@.take(r as int) == before_query(v@),
        r < v@.len() ==> v@[r as int] == '?',
{
    assert(v@.skip(0) =~= v@);
    match first_index_from(v, 0, '?') {
        Some(i) => {
            proof {
                lemma_split_at_first(v@, '?', i as int);
            }
            i
        },
        None => {
            proof {
                lemma_split_none(v@, '?');
                assert(v@.take(v@.len() as int) =~= v@);
            }
            v.len()
        },
    }
}

/// The position where the last component of `v` starts: after its last
/// `/`, or at its start.
fn component_start(v: &Vec<char>) -> (r: usize)
    ensures
        r <= v@.len(),
        v@.skip(r as int) == last_component(v@),
{
    match last_index_of(v, '/') {
        Some(i) => {
            proof {
                lemma_split_at_last(v@, '/', i as int);
            }
            assert(i < v.len());
            i + 1
        },
        None => {
            proof {
                lemma_split_none(v@, '/');
                assert(v@.skip(0) =~= v@);
            }
            0
        },
    }
}

/// Removes a trailing `.html` from a file path.
pub fn remove_extension(file_path: &str) -> (r: &str)
    ensures
        r@ == spec_remove_extension(file_path@),
{
    let v = chars_of(file_path);
    if has_suffix(&v, ".html") {
        proof {
            reveal_strlit(".html");
        }
        file_path.substring_char(0, v.len() - 5)
    } else {
        file_path
    }
}

/// Returns the file extension of a chosen file; `None` when the file has
/// no extension.
pub fn get_file_extention(file_path: &str) -> (r: Option<&str>)
    ensures
        match r {
            Some(e) => spec_file_extension(file_path@) == Some(e@),
            None => spec_file_extension(file_path@) is None,
        },
{
    let v = chars_of(file_path);
    let end = query_start(&v);
    let head = slice_chars(&v, 0, end);
    assert(head@ =~= v@.take(end as int));
    let start = component_start(&head);
    let name = slice_chars(&head, start, end);
    assert(name@ =~= head@.skip(start as int));
    match last_index_of(&name, '.') {
        None => {
            proof {
                lemma_split_none(name@, '.');
            }
            None
        },
        Some(j) => {
            proof {
                lemma_split_at_last(name@, '.', j as int);
                assert(name@.skip(j + 1) =~= v@.subrange(start + j + 1, end as int));
            }
            Some(file_path.substring_char(start + j + 1, end))
        },
    }
}

/// Splits a path such as `index.php?name=timmy` into `("index.php",
/// "name=timmy")`, at the last `?`.
pub fn split_get_request(path: &str) -> (r: Option<(&str, &str)>)
    ensures
        match r {
            Some((p, q)) => spec_split_get_request(path@) == Some((p@, q@)),
            None => spec_split_get_request(path@) is None,
        },
{
    let v = chars_of(path);
    let n = v.len();
    match last_index_of(&v, '?') {
        None => {
            proof {
                lemma_split_none(v@, '?');
            }
            None
        },
        Some(i) => {
            proof {
                lemma_split_at_last(v@, '?', i as int);
                assert(v@.take(n - v@.skip(i + 1).len() - 1) =~= v@.take(i as int));
                assert(v@.skip(i + 1) =~= v@.subrange(i + 1, n as int));
                assert(v@.skip(0) =~= v@);
            }
            let dot = first_index_from(&v, 0, '.');
            let before = match dot {
                Some(j) => j < i,
                None => false,
            };
            proof {
                match dot {
                    Some(j) => {
                        if j < i {
                            assert(v@.take(i as int)[j as int] == '.');
                        } else if v@.take(i as int).contains('.') {
                            let k = choose|k: int| 0 <= k < i && v@.take(i as int)[k] == '.';
                            assert(v@.take(j as int)[k] == '.');
                        }
                    },
                    None => {
                        if v@.take(i as int).contains('.') {
                            let k = choose|k: int| 0 <= k < i && v@.take(i as int)[k] == '.';
                            assert(v@[k] == '.');
                        }
                    },
                }
            }
            if before {
                Some((path.substring_char(0, i), path.substring_char(i + 1, n)))
            } else {
                None
            }
        },
    }
}

/// Removes one leading `/` from a path.
pub fn sanatize_path(file_path: &str) -> (r: &str)
    ensures
        r@ == spec_sanatize_path(file_path@),
{
    let v = chars_of(file_path);
    if has_prefix(&v, "/") {
        proof {
            reveal_strlit("/");
        }
        file_path.substring_char(1, v.len())
    } else {
        file_path
    }
}

} // verus!
