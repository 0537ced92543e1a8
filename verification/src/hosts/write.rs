//! The lines to add to a hosts table for the names that the server answers.

use vstd::prelude::*;
use crate::table::{has_key, keys_distinct, lemma_put, lookup, put, Table};
use crate::text::{
    append_chars, is_ws, lemma_split_concat, lemma_split_none, lines, split_char, strip_cr,
    words, words_state,
};
use super::parse::{
    bind_all, host_entries, hosts_well_formed, spec_hosts_table, spec_parse_hosts, uncommented,
};

verus! {

/// The line `address name` for each binding of `wanted` whose name the
/// hosts table does not bind yet, in order.
pub open spec fn spec_entries_to_add(
    wanted: Seq<(Seq<char>, Seq<char>)>,
    known: Seq<(Seq<char>, Seq<char>)>,
) -> Seq<char>
    decreases wanted.len(),
{
    if wanted.len() == 0 {
        Seq::empty()
    } else {
        let rest = spec_entries_to_add(wanted.drop_last(), known);
        let (name, address) = wanted.last();
        if has_key(known, name) {
            rest
        } else {
            rest + address + seq![' '] + name + seq!['\n']
        }
    }
}

/// The text to append to a hosts table (`known`) so that it binds every
/// name of `wanted` (names to addresses); names it binds already are left.
pub fn entries_to_add(wanted: &Table<String>, known: &Table<String>) -> (r: String)
    ensures
        r@ == spec_entries_to_add(wanted@, known@),
{
    let mut r = String::new();
    let n = wanted.len();
    let mut i: usize = 0;
    assert(wanted@.take(0) =~= Seq::<(Seq<char>, Seq<char>)>::empty());
    while i < n
        invariant
            n == wanted@.len(),
            i <= n,
            r@ == spec_entries_to_add(wanted@.take(i as int), known@),
        decreases n - i,
    {
        assert(wanted@.take(i + 1).drop_last() =~= wanted@.take(i as int));
        assert(wanted@.take(i + 1).last() == wanted@[i as int]);
        let name = wanted.key_at(i);
        let address = wanted.value_at(i);
        let name_text = crate::text::string_of(name);
        if !known.contains_key(name_text.as_str()) {
            r.append(address.as_str());
            crate::text::push_char(&mut r, ' ');
            append_chars(&mut r, name);
            crate::text::push_char(&mut r, '\n');
            assert(r@ =~= spec_entries_to_add(wanted@.take(i + 1), known@));
        }
        i = i + 1;
    }
    assert(wanted@.take(n as int) =~= wanted@);
    r
}

// ---------------------------------------------------------------------------
// Reading back what was added

/// A word of a hosts line: not empty, without whitespace or `#`.
pub open spec fn simple_word(w: Seq<char>) -> bool {
    w.len() > 0 && forall|i: int| 0 <= i < w.len() ==> !is_ws(#[trigger] w[i]) && w[i] != '#'
}

/// The line (without its end) for one binding.
pub open spec fn entry_line(address: Seq<char>, name: Seq<char>) -> Seq<char> {
    address + seq![' '] + name
}

/// The lines that `entries_to_add` writes, without their ends.
pub open spec fn spec_added_lines(
    wanted: Seq<(Seq<char>, Seq<char>)>,
    known: Seq<(Seq<char>, Seq<char>)>,
) -> Seq<Seq<char>>
    decreases wanted.len(),
{
    if wanted.len() == 0 {
        Seq::empty()
    } else {
        let r = spec_added_lines(wanted.drop_last(), known);
        let (name, address) = wanted.last();
        if has_key(known, name) {
            r
        } else {
            r.push(entry_line(address, name))
        }
    }
}

/// Lines, each followed by `\n`.
pub open spec fn join_lines(ls: Seq<Seq<char>>) -> Seq<char>
    decreases ls.len(),
{
    if ls.len() == 0 {
        Seq::empty()
    } else {
        join_lines(ls.drop_last()) + ls.last() + seq!['\n']
    }
}

/// The table that reading further entries into `t` gives.
pub open spec fn hosts_fold(t: Seq<(Seq<char>, Seq<char>)>, entries: Seq<Seq<char>>) -> Seq<
    (Seq<char>, Seq<char>),
>
    decreases entries.len(),
{
    if entries.len() == 0 {
        t
    } else {
        let w = words(entries.last());
        bind_all(hosts_fold(t, entries.drop_last()), w.skip(1), w[0])
    }
}

proof fn lemma_entries_are_joined_lines(
    wanted: Seq<(Seq<char>, Seq<char>)>,
    known: Seq<(Seq<char>, Seq<char>)>,
)
    ensures
        spec_entries_to_add(wanted, known) == join_lines(spec_added_lines(wanted, known)),
    decreases wanted.len(),
{
    if wanted.len() > 0 {
        lemma_entries_are_joined_lines(wanted.drop_last(), known);
        let r = spec_added_lines(wanted.drop_last(), known);
        let (name, address) = wanted.last();
        if !has_key(known, name) {
            assert(r.push(entry_line(address, name)).drop_last() =~= r);
            assert(spec_entries_to_add(wanted, known) =~= join_lines(r) + entry_line(address, name)
                + seq!['\n']);
        }
    }
}

proof fn lemma_split_join(ls: Seq<Seq<char>>, x: Seq<char>)
    requires
        forall|i: int| 0 <= i < ls.len() ==> !(#[trigger] ls[i]).contains('\n'),
        !x.contains('\n'),
    ensures
        split_char(join_lines(ls) + x, '\n') == ls.push(x),
    decreases ls.len(),
{
    if ls.len() == 0 {
        assert(join_lines(ls) + x =~= x);
        lemma_split_none(x, '\n');
        assert(ls.push(x) =~= seq![x]);
    } else {
        let y = ls.last();
        assert(y == ls[ls.len() - 1]);
        lemma_split_join(ls.drop_last(), y);
        assert(join_lines(ls) + x =~= (join_lines(ls.drop_last()) + y) + seq!['\n'] + x);
        lemma_split_concat(join_lines(ls.drop_last()) + y, '\n', x);
        lemma_split_none(x, '\n');
        assert(ls.drop_last().push(y) + seq![x] =~= ls.push(x));
    }
}

/// The lines of a text that ends its last line, followed by more lines.
proof fn lemma_lines_append(t: Seq<char>, ls: Seq<Seq<char>>)
    requires
        t.len() == 0 || t.last() == '\n',
        forall|i: int|
            0 <= i < ls.len() ==> !(#[trigger] ls[i]).contains('\n') && strip_cr(ls[i]) == ls[i],
    ensures
        lines(t + join_lines(ls)) == lines(t) + ls,
{
    lemma_split_join(ls, Seq::empty());
    assert(join_lines(ls) + Seq::<char>::empty() =~= join_lines(ls));
    if t.len() == 0 {
        assert(t + join_lines(ls) =~= join_lines(ls));
        lemma_split_none(t, '\n');
        assert(lines(t) =~= Seq::<Seq<char>>::empty());
        assert(lines(t + join_lines(ls)) =~= ls);
    } else {
        let t2 = t.drop_last();
        assert(t =~= t2 + seq!['\n'] + Seq::<char>::empty());
        assert(t + join_lines(ls) =~= t2 + seq!['\n'] + join_lines(ls));
        lemma_split_concat(t2, '\n', join_lines(ls));
        lemma_split_concat(t2, '\n', Seq::<char>::empty());
        lemma_split_none(Seq::<char>::empty(), '\n');
        let p = split_char(t2, '\n');
        assert(split_char(t, '\n') =~= p.push(Seq::empty()));
        assert(split_char(t + join_lines(ls), '\n') =~= p + ls.push(Seq::empty()));
        assert(lines(t + join_lines(ls)) =~= lines(t) + ls);
    }
}

proof fn lemma_host_entries_concat(x: Seq<Seq<char>>, y: Seq<Seq<char>>)
    ensures
        host_entries(x + y) == host_entries(x) + host_entries(y),
    decreases y.len(),
{
    if y.len() == 0 {
        assert(x + y =~= x);
        assert(host_entries(x) + host_entries(y) =~= host_entries(x));
    } else {
        assert((x + y).drop_last() =~= x + y.drop_last());
        assert((x + y).last() == y.last());
        lemma_host_entries_concat(x, y.drop_last());
        let u = uncommented(y.last());
        if u.len() > 0 {
            assert((host_entries(x) + host_entries(y.drop_last())).push(u) =~= host_entries(x)
                + host_entries(y.drop_last()).push(u));
        }
    }
}

proof fn lemma_host_entries_plain(ls: Seq<Seq<char>>)
    requires
        forall|i: int| 0 <= i < ls.len() ==> (#[trigger] ls[i]).len() > 0 && !ls[i].contains('#'),
    ensures
        host_entries(ls) == ls,
    decreases ls.len(),
{
    if ls.len() > 0 {
        lemma_host_entries_plain(ls.drop_last());
        assert(ls.last() == ls[ls.len() - 1]);
        lemma_split_none(ls.last(), '#');
        assert(ls.drop_last().push(ls.last()) =~= ls);
    }
}

proof fn lemma_hosts_table_concat(x: Seq<Seq<char>>, y: Seq<Seq<char>>)
    ensures
        spec_hosts_table(x + y) == hosts_fold(spec_hosts_table(x), y),
    decreases y.len(),
{
    if y.len() == 0 {
        assert(x + y =~= x);
    } else {
        assert((x + y).drop_last() =~= x + y.drop_last());
        assert((x + y).last() == y.last());
        lemma_hosts_table_concat(x, y.drop_last());
    }
}

proof fn lemma_words_plain(w: Seq<char>)
    requires
        forall|i: int| 0 <= i < w.len() ==> !is_ws(#[trigger] w[i]),
    ensures
        words_state(w) == (Seq::<Seq<char>>::empty(), w),
    decreases w.len(),
{
    if w.len() > 0 {
        lemma_words_plain(w.drop_last());
        assert(w.last() == w[w.len() - 1]);
        assert(w.drop_last().push(w.last()) =~= w);
    } else {
        assert(w =~= Seq::<char>::empty());
    }
}

proof fn lemma_words_extend(p: Seq<char>, ws: Seq<Seq<char>>, w: Seq<char>)
    requires
        words_state(p) == (ws, Seq::<char>::empty()),
        forall|i: int| 0 <= i < w.len() ==> !is_ws(#[trigger] w[i]),
    ensures
        words_state(p + w) == (ws, w),
    decreases w.len(),
{
    if w.len() == 0 {
        assert(p + w =~= p);
        assert(w =~= Seq::<char>::empty());
    } else {
        lemma_words_extend(p, ws, w.drop_last());
        assert((p + w).drop_last() =~= p + w.drop_last());
        assert((p + w).last() == w[w.len() - 1]);
        assert(w.drop_last().push(w.last()) =~= w);
    }
}

/// A line `address name` reads as those two words.
proof fn lemma_entry_line_words(address: Seq<char>, name: Seq<char>)
    requires
        simple_word(address),
        simple_word(name),
    ensures
        words(entry_line(address, name)) == seq![address, name],
{
    lemma_words_plain(address);
    let p = address + seq![' '];
    assert(p.drop_last() =~= address);
    assert(p.last() == ' ');
    assert(words_state(p) == (seq![address], Seq::<char>::empty()));
    lemma_words_extend(p, seq![address], name);
    assert(entry_line(address, name) =~= p + name);
    assert(seq![address].push(name) =~= seq![address, name]);
}

proof fn lemma_bind_all_distinct(
    t: Seq<(Seq<char>, Seq<char>)>,
    names: Seq<Seq<char>>,
    address: Seq<char>,
)
    requires
        keys_distinct(t),
    ensures
        keys_distinct(bind_all(t, names, address)),
        forall|k: Seq<char>| has_key(t, k) ==> #[trigger] has_key(bind_all(t, names, address), k),
    decreases names.len(),
{
    if names.len() > 0 {
        lemma_bind_all_distinct(t, names.drop_last(), address);
        let b = bind_all(t, names.drop_last(), address);
        lemma_put(b, names.last(), address, names.last());
        assert forall|k: Seq<char>| has_key(t, k) implies #[trigger] has_key(
            bind_all(t, names, address),
            k,
        ) by {
            lemma_put(b, names.last(), address, k);
        }
    }
}

proof fn lemma_hosts_table_distinct(entries: Seq<Seq<char>>)
    ensures
        keys_distinct(spec_hosts_table(entries)),
    decreases entries.len(),
{
    if entries.len() > 0 {
        lemma_hosts_table_distinct(entries.drop_last());
        let w = words(entries.last());
        lemma_bind_all_distinct(spec_hosts_table(entries.drop_last()), w.skip(1), w[0]);
    }
}

/// Reading the added lines into the known table binds every wanted name,
/// each new one to its address, and keeps what was known.
proof fn lemma_fold_added(
    wanted: Seq<(Seq<char>, Seq<char>)>,
    known: Seq<(Seq<char>, Seq<char>)>,
)
    requires
        keys_distinct(known),
        keys_distinct(wanted),
        forall|i: int|
            0 <= i < wanted.len() ==> simple_word((#[trigger] wanted[i]).0) && simple_word(
                wanted[i].1,
            ),
    ensures
        ({
            let t = hosts_fold(known, spec_added_lines(wanted, known));
            &&& keys_distinct(t)
            &&& forall|k: Seq<char>| has_key(known, k) ==> #[trigger] has_key(t, k)
            &&& forall|i: int| 0 <= i < wanted.len() ==> has_key(t, (#[trigger] wanted[i]).0)
            &&& forall|i: int|
                0 <= i < wanted.len() && !has_key(known, (#[trigger] wanted[i]).0) ==> lookup(
                    t,
                    wanted[i].0,
                ) == Some(wanted[i].1)
        }),
    decreases wanted.len(),
{
    if wanted.len() > 0 {
        let w2 = wanted.drop_last();
        assert forall|i: int| 0 <= i < w2.len() implies simple_word((#[trigger] w2[i]).0)
            && simple_word(w2[i].1) by {
            assert(w2[i] == wanted[i]);
        }
        assert forall|a: int, b: int| 0 <= a < b < w2.len() implies #[trigger] w2[a].0
            != #[trigger] w2[b].0 by {
            assert(w2[a] == wanted[a]);
            assert(w2[b] == wanted[b]);
        }
        lemma_fold_added(w2, known);
        let prev = hosts_fold(known, spec_added_lines(w2, known));
        let (name, address) = wanted.last();
        assert(wanted.last() == wanted[wanted.len() - 1]);
        if has_key(known, name) {
            let t = hosts_fold(known, spec_added_lines(wanted, known));
            assert(t == prev);
            assert forall|i: int| 0 <= i < wanted.len() implies has_key(
                t,
                (#[trigger] wanted[i]).0,
            ) by {
                if i < wanted.len() - 1 {
                    assert(w2[i] == wanted[i]);
                }
            }
            assert forall|i: int|
                0 <= i < wanted.len() && !has_key(known, (#[trigger] wanted[i]).0) implies lookup(
                t,
                wanted[i].0,
            ) == Some(wanted[i].1) by {
                assert(w2[i] == wanted[i]);
            }
        } else {
            let line = entry_line(address, name);
            let added = spec_added_lines(wanted, known);
            assert(added == spec_added_lines(w2, known).push(line));
            assert(added.drop_last() =~= spec_added_lines(w2, known));
            lemma_entry_line_words(address, name);
            let ws = words(line);
            assert(ws.skip(1) =~= seq![name]);
            assert(seq![name].drop_last() =~= Seq::<Seq<char>>::empty());
            let t = hosts_fold(known, added);
            assert(added.last() == line);
            assert(ws[0] == address);
            assert(bind_all(prev, seq![name], address) == put(
                bind_all(prev, Seq::<Seq<char>>::empty(), address),
                name,
                address,
            ));
            assert(t == bind_all(prev, ws.skip(1), ws[0]));
            assert(t == put(prev, name, address));
            lemma_put(prev, name, address, name);
            assert forall|k: Seq<char>| has_key(known, k) implies #[trigger] has_key(t, k) by {
                lemma_put(prev, name, address, k);
            }
            assert forall|i: int| 0 <= i < wanted.len() implies has_key(
                t,
                (#[trigger] wanted[i]).0,
            ) by {
                lemma_put(prev, name, address, wanted[i].0);
                if i < wanted.len() - 1 {
                    assert(w2[i] == wanted[i]);
                }
            }
            assert forall|i: int|
                0 <= i < wanted.len() && !has_key(known, (#[trigger] wanted[i]).0) implies lookup(
                t,
                wanted[i].0,
            ) == Some(wanted[i].1) by {
                lemma_put(prev, name, address, wanted[i].0);
                if i < wanted.len() - 1 {
                    assert(w2[i] == wanted[i]);
                    assert(wanted[i].0 != wanted[wanted.len() - 1].0);
                }
            }
        }
    }
}

proof fn lemma_added_lines_plain(
    wanted: Seq<(Seq<char>, Seq<char>)>,
    known: Seq<(Seq<char>, Seq<char>)>,
)
    requires
        forall|i: int|
            0 <= i < wanted.len() ==> simple_word((#[trigger] wanted[i]).0) && simple_word(
                wanted[i].1,
            ),
    ensures
        forall|i: int|
            0 <= i < spec_added_lines(wanted, known).len() ==> {
                let l = #[trigger] spec_added_lines(wanted, known)[i];
                &&& l.len() > 0
                &&& !l.contains('\n')
                &&& !l.contains('#')
                &&& strip_cr(l) == l
                &&& words(l).len() > 0
            },
    decreases wanted.len(),
{
    if wanted.len() > 0 {
        let w2 = wanted.drop_last();
        assert forall|i: int| 0 <= i < w2.len() implies simple_word((#[trigger] w2[i]).0)
            && simple_word(w2[i].1) by {
            assert(w2[i] == wanted[i]);
        }
        lemma_added_lines_plain(w2, known);
        let (name, address) = wanted.last();
        assert(wanted.last() == wanted[wanted.len() - 1]);
        if !has_key(known, name) {
            let l = entry_line(address, name);
            lemma_entry_line_words(address, name);
            assert forall|k: int| 0 <= k < l.len() implies !is_ws(#[trigger] l[k]) || l[k] == ' '
                by {
                if k < address.len() {
                    assert(l[k] == address[k]);
                } else if k > address.len() {
                    assert(l[k] == name[k - address.len() - 1]);
                }
            }
            assert(!l.contains('\n')) by {
                if l.contains('\n') {
                    let k = choose|k: int| 0 <= k < l.len() && l[k] == '\n';
                    assert(!is_ws(l[k]) || l[k] == ' ');
                }
            }
            assert(!l.contains('#')) by {
                if l.contains('#') {
                    let k = choose|k: int| 0 <= k < l.len() && l[k] == '#';
                    if k < address.len() {
                        assert(l[k] == address[k]);
                    } else if k > address.len() {
                        assert(l[k] == name[k - address.len() - 1]);
                    }
                }
            }
            assert(l.last() == name.last());
            assert(name.last() == name[name.len() - 1]);
            assert(strip_cr(l) == l);
            let r = spec_added_lines(w2, known);
            let all = spec_added_lines(wanted, known);
            assert(all == r.push(l));
            assert forall|i: int| 0 <= i < all.len() implies {
                let m = #[trigger] all[i];
                &&& m.len() > 0
                &&& !m.contains('\n')
                &&& !m.contains('#')
                &&& strip_cr(m) == m
                &&& words(m).len() > 0
            } by {
                if i < r.len() {
                    assert(all[i] == r[i]);
                } else {
                    assert(all[i] == l);
                }
            }
        }
    }
}

/// Appending the lines that `entries_to_add` gives to a hosts text whose
/// last line is ended, then reading the text again, binds every wanted name:
/// each name it did not bind before to its wanted address, with the other
/// bindings kept. Names and addresses are single words without `#`.
pub proof fn lemma_added_entries_read_back(
    text: Seq<char>,
    wanted: Seq<(Seq<char>, Seq<char>)>,
)
    requires
        text.len() == 0 || text.last() == '\n',
        hosts_well_formed(text),
        keys_distinct(wanted),
        forall|i: int|
            0 <= i < wanted.len() ==> simple_word((#[trigger] wanted[i]).0) && simple_word(
                wanted[i].1,
            ),
    ensures
        ({
            let known = spec_parse_hosts(text);
            let after = text + spec_entries_to_add(wanted, known);
            &&& hosts_well_formed(after)
            &&& forall|k: Seq<char>| has_key(known, k) ==> #[trigger] has_key(
                spec_parse_hosts(after),
                k,
            )
            &&& forall|i: int|
                0 <= i < wanted.len() ==> has_key(spec_parse_hosts(after), (#[trigger] wanted[i]).0)
            &&& forall|i: int|
                0 <= i < wanted.len() && !has_key(known, (#[trigger] wanted[i]).0) ==> lookup(
                    spec_parse_hosts(after),
                    wanted[i].0,
                ) == Some(wanted[i].1)
        }),
{
    let known = spec_parse_hosts(text);
    let added = spec_added_lines(wanted, known);
    lemma_entries_are_joined_lines(wanted, known);
    lemma_added_lines_plain(wanted, known);
    let after = text + spec_entries_to_add(wanted, known);
    lemma_lines_append(text, added);
    assert(lines(after) == lines(text) + added);
    lemma_host_entries_concat(lines(text), added);
    lemma_host_entries_plain(added);
    let e = host_entries(lines(after));
    assert(e == host_entries(lines(text)) + added);
    assert forall|i: int| 0 <= i < e.len() implies words(#[trigger] e[i]).len() > 0 by {
        if i < host_entries(lines(text)).len() {
            assert(e[i] == host_entries(lines(text))[i]);
        } else {
            assert(e[i] == added[i - host_entries(lines(text)).len()]);
        }
    }
    lemma_hosts_table_concat(host_entries(lines(text)), added);
    lemma_hosts_table_distinct(host_entries(lines(text)));
    lemma_fold_added(wanted, known);
}

} // verus!
