//! Routing a path to a file, and the status line and content type of the
//! answer.

use vstd::prelude::*;
use crate::options::Opts;
use crate::table::{has_key, lemma_find_key, lookup};
use crate::text::{
    chars_of, equals_str, last_index_of, lemma_split_at_last, lemma_split_concat,
    lemma_split_none, lemma_split_nonempty, lemma_split_pieces_lack, split_char, split_on, views,
};

verus! {

/// The file that answers a request, and its status code.
pub struct Response {
    pub file: String,
    pub status: u16,
}

/// The file for `path`: the one that the links bind it to, with status 200,
/// or the not-found page with status 404.
pub open spec fn spec_get_file(links: Seq<(Seq<char>, Seq<char>)>, not_found: Seq<char>, path: Seq<
    char,
>) -> (Seq<char>, u16) {
    match lookup(links, path) {
        Some(f) => (f, 200),
        None => (not_found, 404),
    }
}

/// The HTTP/1.1 status line for a status code; codes without a line of
/// their own get the one for 500.
pub open spec fn spec_status_line(code: u16) -> Seq<char> {
    if code == 200 {
        "HTTP/1.1 200 OK"@
    } else if code == 201 {
        "HTTP/1.1 201 Created"@
    } else if code == 400 {
        "HTTP/1.1 400 Bad Request"@
    } else if code == 404 {
        "HTTP/1.1 404 Not Found"@
    } else {
        "HTTP/1.1 500 Internal Server Error"@
    }
}

/// Whether a path component names something: neither empty nor `.`.
pub open spec fn is_named(p: Seq<char>) -> bool {
    p.len() > 0 && p != seq!['.']
}

/// The last component of `pieces` that names something.
pub open spec fn last_named(pieces: Seq<Seq<char>>) -> Option<Seq<char>>
    decreases pieces.len(),
{
    if pieces.len() == 0 {
        None
    } else if is_named(pieces.last()) {
        Some(pieces.last())
    } else {
        last_named(pieces.drop_last())
    }
}

/// The file name of a path, as std's `Path::file_name` documents it: its
/// last component, unless there is none or it is `..`.
pub open spec fn spec_path_file_name(path: Seq<char>) -> Option<Seq<char>> {
    match last_named(split_char(path, '/')) {
        Some(n) => if n == seq!['.', '.'] {
            None
        } else {
            Some(n)
        },
        None => None,
    }
}

/// The extension of a path, as std's `Path::extension` documents it: the
/// part of the file name after its last `.`; none when the name has no `.`
/// or its only `.` is its first character.
pub open spec fn spec_path_extension(path: Seq<char>) -> Option<Seq<char>> {
    match spec_path_file_name(path) {
        Some(n) => {
            let pieces = split_char(n, '.');
            if pieces.len() < 2 || n.len() == pieces.last().len() + 1 {
                None
            } else {
                Some(pieces.last())
            }
        },
        None => None,
    }
}

/// What `last_named` gives is one of the pieces.
proof fn lemma_last_named_is_piece(pieces: Seq<Seq<char>>)
    ensures
        last_named(pieces) matches Some(n) ==> exists|i: int|
            0 <= i < pieces.len() && #[trigger] pieces[i] == n,
    decreases pieces.len(),
{
    if pieces.len() > 0 {
        if is_named(pieces.last()) {
            assert(pieces[pieces.len() - 1] == pieces.last());
        } else {
            lemma_last_named_is_piece(pieces.drop_last());
            if last_named(pieces) is Some {
                let i = choose|i: int|
                    0 <= i < pieces.drop_last().len() && #[trigger] pieces.drop_last()[i]
                        == last_named(pieces)->0;
                assert(pieces[i] == pieces.drop_last()[i]);
            }
        }
    }
}

/// An extension is the text after the last `.` of the file name: it holds
/// neither `.` nor `/`.
pub proof fn lemma_path_extension_plain(path: Seq<char>)
    ensures
        spec_path_extension(path) matches Some(e) ==> !e.contains('.') && !e.contains('/'),
{
    let pieces = split_char(path, '/');
    lemma_last_named_is_piece(pieces);
    lemma_split_pieces_lack(path, '/', '/');
    if spec_path_extension(path) is Some {
        let n = spec_path_file_name(path)->0;
        let i = choose|i: int| 0 <= i < pieces.len() && #[trigger] pieces[i] == n;
        assert(!n.contains('/'));
        let dots = split_char(n, '.');
        lemma_split_pieces_lack(n, '.', '.');
        lemma_split_pieces_lack(n, '.', '/');
        assert(dots.last() == dots[dots.len() - 1]);
    }
}

/// A file named `n.e` (in any directory `dir`, empty or ending in `/`),
/// where `n` is not empty and `e` holds no `.`, has the extension `e`:
/// `jquery.min.js` has `js`. (`..` alone names no file.)
pub proof fn lemma_path_extension_of_name(dir: Seq<char>, n: Seq<char>, e: Seq<char>)
    requires
        dir.len() == 0 || dir.last() == '/',
        n.len() > 0,
        !n.contains('/'),
        !e.contains('.'),
        !e.contains('/'),
        !(n == seq!['.'] && e.len() == 0),
    ensures
        spec_path_extension(dir + n + seq!['.'] + e) == Some(e),
{
    let name = n + seq!['.'] + e;
    let path = dir + n + seq!['.'] + e;
    assert(!name.contains('/')) by {
        if name.contains('/') {
            let k = choose|k: int| 0 <= k < name.len() && name[k] == '/';
            if k < n.len() {
                assert(n[k] == '/');
            } else if k > n.len() {
                assert(e[k - n.len() - 1] == '/');
            }
        }
    }
    if dir.len() == 0 {
        assert(path =~= name);
        lemma_split_none(name, '/');
    } else {
        let d = dir.drop_last();
        assert(path =~= d + seq!['/'] + name);
        lemma_split_concat(d, '/', name);
        lemma_split_none(name, '/');
    }
    let pieces = split_char(path, '/');
    assert(pieces.last() == name);
    assert(is_named(name)) by {
        assert(name.len() >= 2);
    }
    assert(last_named(pieces) == Some(name));
    assert(name != seq!['.', '.']) by {
        if name == seq!['.', '.'] {
            assert(name.len() == 2);
            assert(n.len() == 1 && e.len() == 0);
            assert(n[0] == name[0]);
            assert(n =~= seq!['.']);
        }
    }
    assert(spec_path_file_name(path) == Some(name));
    lemma_split_concat(n, '.', e);
    lemma_split_none(e, '.');
    lemma_split_nonempty(n, '.');
    let dots = split_char(name, '.');
    assert(dots == split_char(n, '.') + seq![e]);
    assert(dots.last() == e);
    assert(dots.len() >= 2);
    assert(name.len() != e.len() + 1);
}

/// The content type for a file extension, `default` for unknown ones.
pub open spec fn spec_content_type_for(ext: Seq<char>, default: Seq<char>) -> Seq<char> {
    if ext == "html"@ {
        "text/html"@
    } else if ext == "css"@ {
        "text/css"@
    } else if ext == "js"@ {
        "application/javascript"@
    } else if ext == "json"@ {
        "application/json"@
    } else if ext == "png"@ {
        "image/png"@
    } else if ext == "jpg"@ || ext == "jpeg"@ {
        "image/jpeg"@
    } else if ext == "gif"@ {
        "image/gif"@
    } else if ext == "svg"@ {
        "image/svg+xml"@
    } else if ext == "ico"@ {
        "image/x-icon"@
    } else {
        default
    }
}

/// The content type of a file: by its extension, `default` when it has
/// none or an unknown one.
pub open spec fn spec_content_type(file_path: Seq<char>, default: Seq<char>) -> Seq<char> {
    match spec_path_extension(file_path) {
        Some(e) => spec_content_type_for(e, default),
        None => spec_content_type_for(Seq::empty(), default),
    }
}

/// A path bound in the links is answered with its file and status 200;
/// any other with the not-found page and status 404.
pub proof fn lemma_get_file(links: Seq<(Seq<char>, Seq<char>)>, not_found: Seq<char>, path: Seq<
    char,
>)
    ensures
        (spec_get_file(links, not_found, path).1 == 200) == has_key(links, path),
        has_key(links, path) ==> lookup(links, path) == Some(spec_get_file(links, not_found, path).0),
        !has_key(links, path) ==> spec_get_file(links, not_found, path) == (not_found, 404u16),
{
    lemma_find_key(links, path);
}

/// Finds the file for a request path.
pub fn get_file(path: &str, opts: &Opts) -> (r: Response)
    ensures
        (r.file@, r.status) == spec_get_file(opts.links@, opts.not_found@, path@),
{
    match opts.links.get(path) {
        Some(v) => Response { file: v.clone(), status: 200 },
        None => Response { file: opts.not_found.clone(), status: 404 },
    }
}

/// The status line for a status code.
pub fn get_status_line(code: u16) -> (r: &'static str)
    ensures
        r@ == spec_status_line(code),
{
    match code {
        200 => "HTTP/1.1 200 OK",
        201 => "HTTP/1.1 201 Created",
        400 => "HTTP/1.1 400 Bad Request",
        404 => "HTTP/1.1 404 Not Found",
        500 => "HTTP/1.1 500 Internal Server Error",
        _ => "HTTP/1.1 500 Internal Server Error",
    }
}

/// The file name of a path.
pub fn path_file_name(path: &Vec<char>) -> (r: Option<Vec<char>>)
    ensures
        match r {
            Some(n) => spec_path_file_name(path@) == Some(n@),
            None => spec_path_file_name(path@) is None,
        },
{
    let pieces = split_on(path, '/');
    let ghost ps = views(pieces@);
    let mut j: usize = pieces.len();
    assert(ps.take(j as int) =~= ps);
    while j > 0
        invariant
            j <= pieces@.len(),
            ps == views(pieces@),
            ps == split_char(path@, '/'),
            last_named(ps) == last_named(ps.take(j as int)),
        decreases j,
    {
        let p = &pieces[j - 1];
        assert(ps.take(j as int).drop_last() =~= ps.take(j - 1));
        assert(ps.take(j as int).last() == p@);
        let named = p.len() > 0 && !equals_str(p, ".");
        proof {
            reveal_strlit(".");
            assert("."@ =~= seq!['.']);
        }
        if named {
            let dots = equals_str(p, "..");
            proof {
                reveal_strlit("..");
                assert(".."@ =~= seq!['.', '.']);
            }
            if dots {
                return None;
            }
            let mut n: Vec<char> = Vec::new();
            let mut k: usize = 0;
            while k < p.len()
                invariant
                    k <= p@.len(),
                    n@ == p@.take(k as int),
                decreases p.len() - k,
            {
                n.push(p[k]);
                k = k + 1;
                assert(n@ =~= p@.take(k as int));
            }
            assert(p@.take(p@.len() as int) =~= p@);
            return Some(n);
        }
        j = j - 1;
    }
    None
}

/// The extension of a path.
pub fn path_extension(path: &Vec<char>) -> (r: Option<Vec<char>>)
    ensures
        match r {
            Some(e) => spec_path_extension(path@) == Some(e@),
            None => spec_path_extension(path@) is None,
        },
{
    match path_file_name(path) {
        None => None,
        Some(n) => match last_index_of(&n, '.') {
            None => {
                proof {
                    lemma_split_none(n@, '.');
                }
                None
            },
            Some(i) => {
                proof {
                    lemma_split_at_last(n@, '.', i as int);
                }
                if i == 0 {
                    None
                } else {
                    let len = n.len();
                    Some(crate::text::slice_chars(&n, i + 1, len))
                }
            },
        },
    }
}

/// The content type for an extension, `default` for unknown ones.
pub fn content_type_for(ext: &Vec<char>, default: &'static str) -> (r: &'static str)
    ensures
        r@ == spec_content_type_for(ext@, default@),
{
    if equals_str(ext, "html") {
        "text/html"
    } else if equals_str(ext, "css") {
        "text/css"
    } else if equals_str(ext, "js") {
        "application/javascript"
    } else if equals_str(ext, "json") {
        "application/json"
    } else if equals_str(ext, "png") {
        "image/png"
    } else if equals_str(ext, "jpg") || equals_str(ext, "jpeg") {
        "image/jpeg"
    } else if equals_str(ext, "gif") {
        "image/gif"
    } else if equals_str(ext, "svg") {
        "image/svg+xml"
    } else if equals_str(ext, "ico") {
        "image/x-icon"
    } else {
        default
    }
}

/// The content type of a file, by its extension.
pub fn content_type_of(file_path: &str, default: &'static str) -> (r: &'static str)
    ensures
        r@ == spec_content_type(file_path@, default@),
{
    let v = chars_of(file_path);
    match path_extension(&v) {
        Some(e) => content_type_for(&e, default),
        None => content_type_for(&Vec::new(), default),
    }
}

/// The content type of a file; HTML when unknown.
pub fn get_content_type(file_path: &str) -> (r: &'static str)
    ensures
        r@ == spec_content_type(file_path@, "text/html"@),
{
    content_type_of(file_path, "text/html")
}

} // verus!
