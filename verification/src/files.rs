//! The site's routing table, built from the listing of its files.

use vstd::prelude::*;
use crate::table::{keys_distinct, lemma_find_key, lemma_put, lookup, put, Table};
use crate::text::{
    chars_of, contains_chars, contains_text, has_prefix, slice_chars, starts_with, string_of,
};
use crate::utils::{remove_extension, spec_remove_extension};

verus! {

/// The listed paths that begin with `.`, without that `.`.
pub open spec fn spec_dot_stripped(files: Seq<Seq<char>>) -> Seq<Seq<char>>
    decreases files.len(),
{
    if files.len() == 0 {
        Seq::empty()
    } else {
        let r = spec_dot_stripped(files.drop_last());
        if starts_with(files.last(), "."@) {
            r.push(files.last().skip(1))
        } else {
            r
        }
    }
}

/// A listed path without a leading `./`.
pub open spec fn spec_file_name(f: Seq<char>) -> Seq<char> {
    if starts_with(f, "./"@) {
        f.skip(2)
    } else {
        f
    }
}

/// Whether some value of the table contains `f`.
pub open spec fn some_value_contains(links: Seq<(Seq<char>, Seq<char>)>, f: Seq<char>) -> bool {
    exists|j: int| 0 <= j < links.len() && contains_text(#[trigger] links[j].1, f)
}

/// One step of building the table: a file already contained in a bound
/// file is skipped; a file whose name contains the index name is bound to
/// `/`; any other is bound to its path without `.html`.
pub open spec fn spec_link_step(
    links: Seq<(Seq<char>, Seq<char>)>,
    path: Seq<char>,
    file: Seq<char>,
    index: Seq<char>,
) -> Seq<(Seq<char>, Seq<char>)> {
    if some_value_contains(links, file) {
        links
    } else if contains_text(file, index) {
        put(links, "/"@, file)
    } else {
        put(links, spec_remove_extension(path), file)
    }
}

/// The table built from the first `n` pairs of paths and file names.
pub open spec fn spec_links_from(
    paths: Seq<Seq<char>>,
    names: Seq<Seq<char>>,
    n: int,
    index: Seq<char>,
) -> Seq<(Seq<char>, Seq<char>)>
    decreases n,
{
    if n <= 0 {
        Seq::empty()
    } else {
        spec_link_step(
            spec_links_from(paths, names, n - 1, index),
            paths[n - 1],
            names[n - 1],
            index,
        )
    }
}

/// The routing table for a site whose files are listed in `files` (each as
/// `./` followed by its path): paths paired with file names in order, as
/// far as both lists go.
pub open spec fn spec_parse_files(index: Seq<char>, files: Seq<Seq<char>>) -> Seq<
    (Seq<char>, Seq<char>),
> {
    let paths = spec_dot_stripped(files);
    let names = files.map_values(|f: Seq<char>| spec_file_name(f));
    let n = if paths.len() < names.len() {
        paths.len()
    } else {
        names.len()
    };
    spec_links_from(paths, names, n as int, index)
}

/// Every value that binding `v` leaves in a table is `v` or was there.
proof fn lemma_put_values(s: Seq<(Seq<char>, Seq<char>)>, k: Seq<char>, v: Seq<char>)
    ensures
        forall|j: int|
            0 <= j < put(s, k, v).len() ==> (#[trigger] put(s, k, v)[j]).1 == v || exists|i: int|
                0 <= i < s.len() && s[i].1 == put(s, k, v)[j].1,
{
    lemma_find_key(s, k);
    assert forall|j: int| 0 <= j < put(s, k, v).len() implies (#[trigger] put(s, k, v)[j]).1
        == v || exists|i: int| 0 <= i < s.len() && s[i].1 == put(s, k, v)[j].1 by {
        if j < s.len() && put(s, k, v)[j] == s[j] {
            assert(s[j].1 == put(s, k, v)[j].1);
        }
    }
}

/// Every file that the table of the first `n` pairs binds is one of the
/// first `n` file names.
proof fn lemma_links_from_values(
    paths: Seq<Seq<char>>,
    names: Seq<Seq<char>>,
    n: int,
    index: Seq<char>,
)
    requires
        n <= names.len(),
        n <= paths.len(),
    ensures
        forall|j: int|
            0 <= j < spec_links_from(paths, names, n, index).len() ==> exists|t: int|
                0 <= t < n && names[t] == (#[trigger] spec_links_from(paths, names, n, index)[j]).1,
    decreases n,
{
    if n > 0 {
        lemma_links_from_values(paths, names, n - 1, index);
        let prev = spec_links_from(paths, names, n - 1, index);
        let cur = spec_links_from(paths, names, n, index);
        let file = names[n - 1];
        lemma_put_values(prev, "/"@, file);
        lemma_put_values(prev, spec_remove_extension(paths[n - 1]), file);
        assert forall|j: int| 0 <= j < cur.len() implies exists|t: int|
            0 <= t < n && names[t] == (#[trigger] cur[j]).1 by {
            if cur[j].1 == file {
                assert(names[n - 1] == cur[j].1);
            } else {
                let i = choose|i: int| 0 <= i < prev.len() && prev[i].1 == cur[j].1;
                assert(prev[i].1 == (#[trigger] prev[i]).1);
                let t = choose|t: int| 0 <= t < n - 1 && names[t] == (#[trigger] prev[i]).1;
                assert(names[t] == cur[j].1);
            }
        }
    }
}

/// Every file that the routing table binds is one of the listed files,
/// without its leading `./`.
pub proof fn lemma_parse_files_values(index: Seq<char>, files: Seq<Seq<char>>)
    ensures
        forall|j: int|
            0 <= j < spec_parse_files(index, files).len() ==> exists|t: int|
                0 <= t < files.len() && spec_file_name(files[t]) == (
                #[trigger] spec_parse_files(index, files)[j]).1,
{
    let paths = spec_dot_stripped(files);
    let names = files.map_values(|f: Seq<char>| spec_file_name(f));
    let n = if paths.len() < names.len() {
        paths.len()
    } else {
        names.len()
    };
    lemma_links_from_values(paths, names, n as int, index);
    let r = spec_parse_files(index, files);
    assert forall|j: int| 0 <= j < r.len() implies exists|t: int|
        0 <= t < files.len() && spec_file_name(files[t]) == (#[trigger] r[j]).1 by {
        let t = choose|t: int| 0 <= t < n && names[t] == (#[trigger] r[j]).1;
        assert(names[t] == spec_file_name(files[t]));
    }
}

/// The table of the first `n` pairs binds each key once.
proof fn lemma_links_from_distinct(
    paths: Seq<Seq<char>>,
    names: Seq<Seq<char>>,
    n: int,
    index: Seq<char>,
)
    ensures
        keys_distinct(spec_links_from(paths, names, n, index)),
    decreases n,
{
    if n > 0 {
        lemma_links_from_distinct(paths, names, n - 1, index);
        let prev = spec_links_from(paths, names, n - 1, index);
        lemma_put(prev, "/"@, names[n - 1], "/"@);
        lemma_put(prev, spec_remove_extension(paths[n - 1]), names[n - 1], "/"@);
    }
}

/// Each listed file is left out of the table only when a file bound
/// before it contains its name; otherwise it is bound, to `/` when its name
/// contains the index name and else to its path without `.html`, and every
/// other binding stays. A file whose name merely contains a bound name
/// (`blog.html` after `log.html`) is still bound.
pub proof fn lemma_links_bind_uncontained_files(
    paths: Seq<Seq<char>>,
    names: Seq<Seq<char>>,
    n: int,
    index: Seq<char>,
)
    requires
        0 < n <= paths.len(),
        n <= names.len(),
    ensures
        ({
            let before = spec_links_from(paths, names, n - 1, index);
            let after = spec_links_from(paths, names, n, index);
            let file = names[n - 1];
            let key = if contains_text(file, index) {
                "/"@
            } else {
                spec_remove_extension(paths[n - 1])
            };
            &&& (forall|j: int| 0 <= j < before.len() ==> !contains_text(#[trigger] before[j].1, file))
                ==> {
                &&& lookup(after, key) == Some(file)
                &&& forall|other: Seq<char>| other != key ==> #[trigger] lookup(after, other)
                    == lookup(before, other)
            }
            &&& (exists|j: int| 0 <= j < before.len() && contains_text(#[trigger] before[j].1, file))
                ==> after == before
        }),
{
    let before = spec_links_from(paths, names, n - 1, index);
    lemma_links_from_distinct(paths, names, n - 1, index);
    let file = names[n - 1];
    let key = if contains_text(file, index) {
        "/"@
    } else {
        spec_remove_extension(paths[n - 1])
    };
    lemma_put(before, key, file, key);
    assert forall|other: Seq<char>| other != key implies #[trigger] lookup(put(before, key, file), other)
        == lookup(before, other) by {
        lemma_put(before, key, file, other);
    }
}

/// Builds the routing table from the listing of the site's files.
pub fn parse_files(index: String, files_paths: Vec<String>) -> (r: Table<String>)
    ensures
        r@ == spec_parse_files(index@, files_paths@.map_values(|s: String| s@)),
{
    let ghost files = files_paths@.map_values(|s: String| s@);
    let mut paths: Vec<Vec<char>> = Vec::new();
    let mut names: Vec<Vec<char>> = Vec::new();
    let mut i: usize = 0;
    assert(files.take(0) =~= Seq::<Seq<char>>::empty());
    while i < files_paths.len()
        invariant
            i <= files_paths@.len(),
            files == files_paths@.map_values(|s: String| s@),
            paths@.map_values(|p: Vec<char>| p@) == spec_dot_stripped(files.take(i as int)),
            names@.map_values(|p: Vec<char>| p@) == files.take(i as int).map_values(
                |f: Seq<char>| spec_file_name(f),
            ),
        decreases files_paths.len() - i,
    {
        let f = chars_of(files_paths[i].as_str());
        assert(files.take(i + 1).drop_last() =~= files.take(i as int));
        assert(files.take(i + 1).last() == f@);
        let ghost old_paths = paths@;
        let ghost old_names = names@;
        if has_prefix(&f, ".") {
            proof {
                reveal_strlit(".");
            }
            paths.push(slice_chars(&f, 1, f.len()));
            assert(paths@.map_values(|p: Vec<char>| p@) =~= old_paths.map_values(
                |p: Vec<char>| p@,
            ).push(f@.skip(1)));
        }
        let name = if has_prefix(&f, "./") {
            proof {
                reveal_strlit("./");
            }
            slice_chars(&f, 2, f.len())
        } else {
            f
        };
        assert(name@ == spec_file_name(files[i as int]));
        names.push(name);
        assert(names@.map_values(|p: Vec<char>| p@) =~= old_names.map_values(|p: Vec<char>| p@).push(
            spec_file_name(files[i as int]),
        ));
        assert(files.take(i + 1).map_values(|f: Seq<char>| spec_file_name(f)) =~= files.take(
            i as int,
        ).map_values(|f: Seq<char>| spec_file_name(f)).push(spec_file_name(files[i as int])));
        i = i + 1;
    }
    assert(files.take(files_paths@.len() as int) =~= files);
    let ghost pv = paths@.map_values(|p: Vec<char>| p@);
    let ghost nv = names@.map_values(|p: Vec<char>| p@);
    let count = if paths.len() < names.len() {
        paths.len()
    } else {
        names.len()
    };
    let idx = chars_of(index.as_str());
    let mut links: Table<String> = Table::new();
    let mut k: usize = 0;
    while k < count
        invariant
            k <= count,
            count <= paths@.len(),
            count <= names@.len(),
            pv == paths@.map_values(|p: Vec<char>| p@),
            nv == names@.map_values(|p: Vec<char>| p@),
            idx@ == index@,
            links@ == spec_links_from(pv, nv, k as int, index@),
        decreases count - k,
    {
        let name = &names[k];
        let path = &paths[k];
        assert(nv[k as int] == name@);
        assert(pv[k as int] == path@);
        let mut seen = false;
        let mut j: usize = 0;
        let nl = links.len();
        while j < nl
            invariant
                nl == links@.len(),
                j <= nl,
                seen == (exists|t: int| 0 <= t < j && contains_text(#[trigger] links@[t].1, name@)),
            decreases nl - j,
        {
            let value = chars_of(links.value_at(j).as_str());
            if contains_chars(&value, name) {
                seen = true;
            }
            j = j + 1;
        }
        if !seen {
            if contains_chars(name, &idx) {
                links.insert("/", string_of(name));
            } else {
                let p = string_of(path);
                let key = remove_extension(p.as_str());
                links.insert(key, string_of(name));
            }
        }
        k = k + 1;
    }
    links
}

} // verus!
