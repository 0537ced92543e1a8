//! Reading a hosts table: each line an address followed by the names that
//! it serves, `#` starting a comment.

use vstd::prelude::*;
use crate::table::{has_key, put, Table};
use crate::text::{
    chars_of, first_index_from, lemma_split_at_first, lemma_split_none, lines, lines_of,
    slice_chars, split_char, split_whitespace, string_of, views, words,
};

verus! {

/// A line with any comment cut off: the text before its first `#`.
pub open spec fn uncommented(line: Seq<char>) -> Seq<char> {
    split_char(line, '#')[0]
}

/// The lines that hold something once their comments are cut off.
pub open spec fn host_entries(ls: Seq<Seq<char>>) -> Seq<Seq<char>>
    decreases ls.len(),
{
    if ls.len() == 0 {
        Seq::empty()
    } else {
        let r = host_entries(ls.drop_last());
        let u = uncommented(ls.last());
        if u.len() > 0 {
            r.push(u)
        } else {
            r
        }
    }
}

/// Binds each name to `address`, in turn.
pub open spec fn bind_all(
    t: Seq<(Seq<char>, Seq<char>)>,
    names: Seq<Seq<char>>,
    address: Seq<char>,
) -> Seq<(Seq<char>, Seq<char>)>
    decreases names.len(),
{
    if names.len() == 0 {
        t
    } else {
        put(bind_all(t, names.drop_last(), address), names.last(), address)
    }
}

/// The table of names to addresses that the entries give, a later entry
/// for a name replacing an earlier one.
pub open spec fn spec_hosts_table(entries: Seq<Seq<char>>) -> Seq<(Seq<char>, Seq<char>)>
    decreases entries.len(),
{
    if entries.len() == 0 {
        Seq::empty()
    } else {
        let w = words(entries.last());
        bind_all(spec_hosts_table(entries.drop_last()), w.skip(1), w[0])
    }
}

/// Every entry of the text begins with an address.
pub open spec fn hosts_well_formed(text: Seq<char>) -> bool {
    let e = host_entries(lines(text));
    forall|i: int| 0 <= i < e.len() ==> words(#[trigger] e[i]).len() > 0
}

/// The table that a hosts text gives.
pub open spec fn spec_parse_hosts(text: Seq<char>) -> Seq<(Seq<char>, Seq<char>)> {
    spec_hosts_table(host_entries(lines(text)))
}

/// `line` without its comment.
fn uncomment(line: &Vec<char>) -> (r: Vec<char>)
    ensures
        r@ == uncommented(line@),
{
    match first_index_from(line, 0, '#') {
        Some(i) => {
            proof {
                assert(line@.skip(0) =~= line@);
                lemma_split_at_first(line@, '#', i as int);
            }
            slice_chars(line, 0, i)
        },
        None => {
            proof {
                assert(line@.skip(0) =~= line@);
                lemma_split_none(line@, '#');
            }
            slice_chars(line, 0, line.len())
        },
    }
}

/// The entries of a hosts text.
fn entries_of(text: &str) -> (r: Vec<Vec<char>>)
    ensures
        views(r@) == host_entries(lines(text@)),
{
    let v = chars_of(text);
    let ls = lines_of(&v);
    let ghost lv = views(ls@);
    let mut r: Vec<Vec<char>> = Vec::new();
    let mut i: usize = 0;
    assert(lv.take(0) =~= Seq::<Seq<char>>::empty());
    assert(views(r@) =~= Seq::<Seq<char>>::empty());
    while i < ls.len()
        invariant
            i <= ls@.len(),
            lv == views(ls@),
            views(r@) == host_entries(lv.take(i as int)),
        decreases ls.len() - i,
    {
        assert(lv.take(i + 1).drop_last() =~= lv.take(i as int));
        assert(lv.take(i + 1).last() == ls@[i as int]@);
        let u = uncomment(&ls[i]);
        if u.len() > 0 {
            let ghost before = r@;
            r.push(u);
            assert(views(r@) =~= views(before).push(u@));
        }
        i = i + 1;
    }
    assert(lv.take(ls@.len() as int) =~= lv);
    r
}

/// Whether every entry of a hosts text begins with an address.
pub fn is_well_formed(text: &str) -> (r: bool)
    ensures
        r == hosts_well_formed(text@),
{
    let e = entries_of(text);
    let ghost ev = views(e@);
    let mut i: usize = 0;
    while i < e.len()
        invariant
            i <= e@.len(),
            ev == views(e@),
            ev == host_entries(lines(text@)),
            forall|t: int| 0 <= t < i ==> words(#[trigger] ev[t]).len() > 0,
        decreases e.len() - i,
    {
        let w = split_whitespace(&e[i]);
        assert(ev[i as int] == e@[i as int]@);
        if w.len() == 0 {
            return false;
        }
        i = i + 1;
    }
    true
}

/// Reads a hosts text into a table of names to addresses.
pub fn parse(text: &str) -> (r: Table<String>)
    requires
        hosts_well_formed(text@),
    ensures
        r@ == spec_parse_hosts(text@),
{
    let e = entries_of(text);
    let ghost ev = views(e@);
    let mut t: Table<String> = Table::new();
    let mut i: usize = 0;
    assert(ev.take(0) =~= Seq::<Seq<char>>::empty());
    while i < e.len()
        invariant
            i <= e@.len(),
            ev == views(e@),
            ev == host_entries(lines(text@)),
            hosts_well_formed(text@),
            t@ == spec_hosts_table(ev.take(i as int)),
        decreases e.len() - i,
    {
        assert(ev.take(i + 1).drop_last() =~= ev.take(i as int));
        assert(ev.take(i + 1).last() == e@[i as int]@);
        assert(ev[i as int] == e@[i as int]@);
        let w = split_whitespace(&e[i]);
        let ghost wv = views(w@);
        assert(wv.len() > 0);
        assert(wv[0] == w@[0]@);
        let address = string_of(&w[0]);
        let ghost start = t@;
        let mut k: usize = 1;
        assert(wv.skip(1).take(0) =~= Seq::<Seq<char>>::empty());
        while k < w.len()
            invariant
                1 <= k <= w@.len(),
                wv == views(w@),
                address@ == wv[0],
                t@ == bind_all(start, wv.skip(1).take(k - 1), wv[0]),
            decreases w.len() - k,
        {
            assert(wv.skip(1).take(k as int).drop_last() =~= wv.skip(1).take(k - 1));
            assert(wv.skip(1).take(k as int).last() == w@[k as int]@);
            let domain = string_of(&w[k]);
            t.insert(domain.as_str(), address.clone());
            k = k + 1;
        }
        assert(wv.skip(1).take(w@.len() - 1) =~= wv.skip(1));
        i = i + 1;
    }
    assert(ev.take(e@.len() as int) =~= ev);
    t
}

/// Whether the hosts table binds `host`.
pub fn is_taken(host: String, hosts: &Table<String>) -> (r: bool)
    ensures
        r == has_key(hosts@, host@),
{
    hosts.contains_key(host.as_str())
}

} // verus!
