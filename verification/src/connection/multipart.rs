//! `multipart/form-data` bodies: the parts between boundary lines, each with
//! its name, an optional file name, and its bytes.

use vstd::prelude::*;
use vstd::utf8::{decode_utf8, encode_utf8, encode_utf8_decode_utf8, valid_utf8};
use crate::text::{
    chars_of, lines, lines_of, split_char, split_on, starts_with, string_of, trim,
    trim_chars, views,
};

verus! {

/// What a part is.
pub enum Type {
    /// An uploaded file, with its file name.
    File(String),
    /// A plain form value.
    Value,
}

/// One part of a multipart body.
pub struct Data {
    pub _type: Type,
    pub name: String,
    pub content: Vec<u8>,
}

/// A part's file name (when it is a file), its name and its bytes.
pub type DataView = (Option<Seq<char>>, Seq<char>, Seq<u8>);

pub open spec fn data_view(d: Data) -> DataView {
    (
        match d._type {
            Type::File(f) => Some(f@),
            Type::Value => None,
        },
        d.name@,
        d.content@,
    )
}

pub open spec fn opt_view(o: Option<String>) -> Option<Seq<char>> {
    match o {
        Some(f) => Some(f@),
        None => None,
    }
}

pub open spec fn data_views(s: Seq<Data>) -> Seq<DataView> {
    s.map_values(|d: Data| data_view(d))
}

// ---------------------------------------------------------------------------
// Bytes

pub open spec fn crlf() -> Seq<u8> {
    seq![13u8, 10u8]
}

pub open spec fn blank_line() -> Seq<u8> {
    seq![13u8, 10u8, 13u8, 10u8]
}

/// Whether `needle` occurs in `hay` at position `i`.
pub open spec fn bytes_at(hay: Seq<u8>, i: int, needle: Seq<u8>) -> bool {
    0 <= i && i + needle.len() <= hay.len() && hay.subrange(i, i + needle.len()) == needle
}

/// The first position from `i` on where `needle` occurs in `hay`.
pub open spec fn find_from(hay: Seq<u8>, needle: Seq<u8>, i: int) -> Option<int>
    decreases hay.len() + 1 - i,
{
    if i < 0 || i + needle.len() > hay.len() {
        None
    } else if bytes_at(hay, i, needle) {
        Some(i)
    } else {
        find_from(hay, needle, i + 1)
    }
}

pub proof fn lemma_find_from(hay: Seq<u8>, needle: Seq<u8>, i: int)
    requires
        0 <= i,
    ensures
        match find_from(hay, needle, i) {
            Some(j) => i <= j && bytes_at(hay, j, needle) && forall|k: int|
                i <= k < j ==> !#[trigger] bytes_at(hay, k, needle),
            None => forall|k: int| i <= k ==> !#[trigger] bytes_at(hay, k, needle),
        },
    decreases hay.len() + 1 - i,
{
    if i + needle.len() > hay.len() {
    } else if bytes_at(hay, i, needle) {
    } else {
        lemma_find_from(hay, needle, i + 1);
    }
}

/// The first position from `from` on where `needle` occurs in `hay`.
pub fn find_bytes(hay: &[u8], needle: &[u8], from: usize) -> (r: Option<usize>)
    ensures
        match r {
            Some(j) => find_from(hay@, needle@, from as int) == Some(j as int),
            None => find_from(hay@, needle@, from as int) is None,
        },
{
    let n = hay.len();
    let m = needle.len();
    let mut i: usize = from;
    loop
        invariant
            n == hay@.len(),
            m == needle@.len(),
            from <= i,
            find_from(hay@, needle@, from as int) == find_from(hay@, needle@, i as int),
        decreases n + 1 - i,
    {
        if i > n || m > n - i {
            return None;
        }
        let mut k: usize = 0;
        let mut same = true;
        while k < m
            invariant
                n == hay@.len(),
                m == needle@.len(),
                i + m <= n,
                k <= m,
                same == (forall|t: int| 0 <= t < k ==> hay@[i + t] == needle@[t]),
            decreases m - k,
        {
            if hay[i + k] != needle[k] {
                same = false;
            }
            k = k + 1;
        }
        if same {
            assert(hay@.subrange(i as int, i + m) =~= needle@);
            return Some(i);
        }
        assert(hay@.subrange(i as int, i + m) != needle@) by {
            let t = choose|t: int| 0 <= t < m && hay@[i + t] != needle@[t];
            assert(hay@.subrange(i as int, i + m)[t] == hay@[i + t]);
        }
        i = i + 1;
    }
}

/// A copy of `s[lo..hi]`.
fn copy_bytes(s: &[u8], lo: usize, hi: usize) -> (r: Vec<u8>)
    requires
        lo <= hi <= s@.len(),
    ensures
        r@ == s@.subrange(lo as int, hi as int),
{
    let mut r: Vec<u8> = Vec::new();
    let mut i: usize = lo;
    while i < hi
        invariant
            lo <= i <= hi <= s@.len(),
            r@ == s@.subrange(lo as int, i as int),
        decreases hi - i,
    {
        r.push(s[i]);
        i = i + 1;
        assert(r@ =~= s@.subrange(lo as int, i as int));
    }
    r
}

// ---------------------------------------------------------------------------
// Text conversions of std

/// std's `String::from_utf8_lossy`: `bytes` decoded, with each invalid
/// sequence replaced by U+FFFD.
pub uninterp spec fn utf8_lossy(bytes: Seq<u8>) -> Seq<char>;

/// std's `String::from_utf8_lossy`. The result is `utf8_lossy` of the bytes;
/// valid UTF-8 is decoded unchanged, as the documentation states. What it
/// gives for invalid sequences is not stated.
#[verifier::external_body]
pub(crate) fn lossy_text(bytes: &[u8]) -> (r: String)
    ensures
        r@ == utf8_lossy(bytes@),
        valid_utf8(bytes@) ==> r@ == decode_utf8(bytes@),
{
    String::from_utf8_lossy(bytes).into_owned()
}

/// std's `str::from_utf8`: the text that `bytes` hold when they are valid
/// UTF-8 (that text's bytes being `bytes` themselves), nothing otherwise.
#[verifier::external_body]
fn utf8_str(bytes: &[u8]) -> (r: Option<&str>)
    ensures
        r is Some <==> valid_utf8(bytes@),
        r matches Some(s) ==> encode_utf8(s@) == bytes@,
{
    std::str::from_utf8(bytes).ok()
}

// ---------------------------------------------------------------------------
// Text of the part headers

/// `s` without any number of leading copies of `p` (std's
/// `str::trim_start_matches` with a text pattern).
pub open spec fn strip_all(s: Seq<char>, p: Seq<char>) -> Seq<char>
    decreases s.len(),
{
    if p.len() > 0 && starts_with(s, p) {
        strip_all(s.skip(p.len() as int), p)
    } else {
        s
    }
}

pub open spec fn strip_char_start(s: Seq<char>, c: char) -> Seq<char>
    decreases s.len(),
{
    if s.len() > 0 && s[0] == c {
        strip_char_start(s.drop_first(), c)
    } else {
        s
    }
}

pub open spec fn strip_char_end(s: Seq<char>, c: char) -> Seq<char>
    decreases s.len(),
{
    if s.len() > 0 && s.last() == c {
        strip_char_end(s.drop_last(), c)
    } else {
        s
    }
}

/// `s` without leading and trailing `"` (std's `str::trim_matches('"')`).
pub open spec fn trim_quotes(s: Seq<char>) -> Seq<char> {
    strip_char_end(strip_char_start(s, '"'), '"')
}

/// The name and file name read so far.
pub type Names = (Seq<char>, Option<Seq<char>>);

/// One `;`-separated item of a `Content-Disposition` line: `name=` sets the
/// name, `filename=` the file name, both with their quotes removed.
pub open spec fn item_step(st: Names, item: Seq<char>) -> Names {
    let t = trim(item);
    if starts_with(t, "name="@) {
        (trim_quotes(strip_all(t, "name="@)), st.1)
    } else if starts_with(t, "filename="@) {
        (st.0, Some(trim_quotes(strip_all(t, "filename="@))))
    } else {
        st
    }
}

pub open spec fn items_fold(st: Names, items: Seq<Seq<char>>) -> Names
    decreases items.len(),
{
    if items.len() == 0 {
        st
    } else {
        item_step(items_fold(st, items.drop_last()), items.last())
    }
}

/// One header line: only `Content-Disposition` lines matter.
pub open spec fn line_step(st: Names, line: Seq<char>) -> Names {
    if starts_with(line, "Content-Disposition"@) {
        items_fold(st, split_char(line, ';'))
    } else {
        st
    }
}

pub open spec fn lines_fold(st: Names, ls: Seq<Seq<char>>) -> Names
    decreases ls.len(),
{
    if ls.len() == 0 {
        st
    } else {
        line_step(lines_fold(st, ls.drop_last()), ls.last())
    }
}

/// The name and file name that the headers of a part give; a later item
/// overrides an earlier one.
pub open spec fn spec_disposition(headers: Seq<char>) -> Names {
    lines_fold((Seq::empty(), None), lines(headers))
}

// ---------------------------------------------------------------------------
// Parts

/// One part, the bytes between two boundaries: after an optional leading
/// CRLF, headers up to the first blank line, then the bytes. A part without
/// a blank line, or whose headers are not UTF-8, is skipped.
pub open spec fn spec_part(part: Seq<u8>) -> Option<DataView> {
    let p = if part.len() >= 2 && part.take(2) == crlf() {
        part.skip(2)
    } else {
        part
    };
    match find_from(p, blank_line(), 0) {
        None => None,
        Some(pos) => {
            let headers = p.take(pos);
            if !valid_utf8(headers) {
                None
            } else {
                let (name, file) = spec_disposition(decode_utf8(headers));
                Some((file, name, p.skip(pos + 4)))
            }
        },
    }
}

/// The parts from position `start` on: from each boundary to the next (or
/// to the end).
pub open spec fn spec_parts_from(content: Seq<u8>, b: Seq<u8>, start: int) -> Seq<DataView>
    decreases content.len() - start,
{
    if b.len() == 0 || start < 0 || start > content.len() {
        Seq::empty()
    } else {
        match find_from(content, b, start) {
            None => Seq::empty(),
            Some(idx) => {
                proof {
                    lemma_find_from(content, b, start);
                }
                let begin = idx + b.len();
                let next = match find_from(content, b, begin) {
                    Some(j) => j,
                    None => content.len() as int,
                };
                proof {
                    lemma_find_from(content, b, begin);
                }
                let rest = spec_parts_from(content, b, next);
                match spec_part(content.subrange(begin, next)) {
                    Some(d) => seq![d] + rest,
                    None => rest,
                }
            },
        }
    }
}

/// The first line of a body: the bytes before its first `\n`.
pub open spec fn spec_first_line(content: Seq<u8>) -> Seq<u8> {
    match find_from(content, seq![10u8], 0) {
        Some(i) => content.take(i),
        None => content,
    }
}

/// The boundary of a body: its first line, which must begin with `--`,
/// read as text and trimmed, all its leading `--` replaced by one.
pub open spec fn spec_boundary(content: Seq<u8>) -> Option<Seq<u8>> {
    let line = spec_first_line(content);
    if line.len() >= 2 && line.take(2) == seq![45u8, 45u8] {
        Some(encode_utf8("--"@ + strip_all(trim(utf8_lossy(line)), "--"@)))
    } else {
        None
    }
}

/// The parts of a multipart body; none when it does not begin with a
/// boundary line.
pub open spec fn spec_parse(content: Seq<u8>) -> Seq<DataView> {
    match spec_boundary(content) {
        Some(b) => spec_parts_from(content, b, 0),
        None => Seq::empty(),
    }
}

/// A part's headers end at its first blank line: for a part made of
/// headers (not beginning with CR, holding no blank line of their own, and
/// valid UTF-8), a blank line, and a body, the part's bytes are exactly the
/// body, whatever it holds (further blank lines included), and its names
/// are those that the headers give.
pub proof fn lemma_part_splits_at_first_blank_line(headers: Seq<u8>, body: Seq<u8>)
    requires
        headers.len() > 0,
        headers[0] != 13u8,
        valid_utf8(headers),
        forall|k: int|
            0 <= k < headers.len() ==> !#[trigger] bytes_at(
                headers + blank_line() + body,
                k,
                blank_line(),
            ),
    ensures
        spec_part(headers + blank_line() + body) matches Some(d) && d.2 == body && (d.1, d.0)
            == spec_disposition(decode_utf8(headers)),
{
    let part = headers + blank_line() + body;
    let h = headers.len() as int;
    assert(part[0] == headers[0]);
    if part.len() >= 2 && part.take(2) == crlf() {
        assert(part.take(2)[0] == part[0]);
    }
    assert(part.subrange(h, h + 4) =~= blank_line());
    assert(bytes_at(part, h, blank_line()));
    lemma_find_from(part, blank_line(), 0);
    let pos = find_from(part, blank_line(), 0)->0;
    assert(pos == h);
    assert(part.take(h) =~= headers);
    assert(part.skip(h + 4) =~= body);
}

/// The bytes of a part lie in the part: `part[lo..hi]` for some bounds.
proof fn lemma_part_bytes(part: Seq<u8>)
    ensures
        spec_part(part) matches Some(d) ==> exists|lo: int, hi: int|
            0 <= lo <= hi <= part.len() && part.subrange(lo, hi) == d.2,
{
    let p = if part.len() >= 2 && part.take(2) == crlf() {
        part.skip(2)
    } else {
        part
    };
    let off: int = if part.len() >= 2 && part.take(2) == crlf() {
        2
    } else {
        0
    };
    lemma_find_from(p, blank_line(), 0);
    if spec_part(part) is Some {
        let pos = find_from(p, blank_line(), 0)->0;
        assert(part.subrange(off + pos + 4, part.len() as int) =~= p.skip(pos + 4));
    }
}

/// The bytes of each part from `start` on lie in the body.
proof fn lemma_parts_from_bytes(content: Seq<u8>, b: Seq<u8>, start: int)
    ensures
        forall|i: int|
            0 <= i < spec_parts_from(content, b, start).len() ==> exists|lo: int, hi: int|
                0 <= lo <= hi <= content.len() && content.subrange(lo, hi) == (
                #[trigger] spec_parts_from(content, b, start)[i]).2,
    decreases content.len() - start,
{
    if b.len() == 0 || start < 0 || start > content.len() {
    } else {
        lemma_find_from(content, b, start);
        match find_from(content, b, start) {
            None => {},
            Some(idx) => {
                let begin = idx + b.len();
                lemma_find_from(content, b, begin);
                let next = match find_from(content, b, begin) {
                    Some(j) => j,
                    None => content.len() as int,
                };
                lemma_parts_from_bytes(content, b, next);
                let part = content.subrange(begin, next);
                lemma_part_bytes(part);
                let rest = spec_parts_from(content, b, next);
                let all = spec_parts_from(content, b, start);
                assert forall|i: int| 0 <= i < all.len() implies exists|lo: int, hi: int|
                    0 <= lo <= hi <= content.len() && content.subrange(lo, hi) == (
                    #[trigger] all[i]).2 by {
                    match spec_part(part) {
                        Some(d) => {
                            if i == 0 {
                                let (lo, hi) = choose|lo: int, hi: int|
                                    0 <= lo <= hi <= part.len() && part.subrange(lo, hi) == d.2;
                                assert(content.subrange(begin + lo, begin + hi) =~= part.subrange(
                                    lo,
                                    hi,
                                ));
                            } else {
                                assert(all[i] == rest[i - 1]);
                            }
                        },
                        None => {
                            assert(all[i] == rest[i]);
                        },
                    }
                }
            },
        }
    }
}

/// The bytes of every part are bytes of the body, taken unchanged.
pub proof fn lemma_parse_parts_are_slices(content: Seq<u8>)
    ensures
        forall|i: int|
            0 <= i < spec_parse(content).len() ==> exists|lo: int, hi: int|
                0 <= lo <= hi <= content.len() && content.subrange(lo, hi) == (
                #[trigger] spec_parse(content)[i]).2,
{
    match spec_boundary(content) {
        Some(b) => lemma_parts_from_bytes(content, b, 0),
        None => {},
    }
}

// ---------------------------------------------------------------------------
// Executable parts

/// `v` without any number of leading copies of `p`.
fn strip_all_of(v: &Vec<char>, p: &str) -> (r: Vec<char>)
    ensures
        r@ == strip_all(v@, p@),
{
    let m = p.unicode_len();
    let n = v.len();
    let mut i: usize = 0;
    assert(v@.skip(0) =~= v@);
    while m > 0 && i <= n && crate::text::matches_at(v, i, p)
        invariant
            m == p@.len(),
            n == v@.len(),
            i <= n,
            strip_all(v@, p@) == strip_all(v@.skip(i as int), p@),
        decreases n - i,
    {
        assert(v@.skip(i as int).skip(m as int) =~= v@.skip(i + m));
        i = i + m;
    }
    crate::text::slice_chars(v, i, n)
}

/// `v` without leading and trailing `"`.
fn trim_quotes_of(v: &Vec<char>) -> (r: Vec<char>)
    ensures
        r@ == trim_quotes(v@),
{
    let n = v.len();
    let mut i: usize = 0;
    assert(v@.skip(0) =~= v@);
    while i < n && v[i] == '"'
        invariant
            n == v@.len(),
            i <= n,
            strip_char_start(v@, '"') == strip_char_start(v@.skip(i as int), '"'),
        decreases n - i,
    {
        assert(v@.skip(i as int).drop_first() =~= v@.skip(i + 1));
        i = i + 1;
    }
    let mut j: usize = n;
    assert(v@.subrange(i as int, n as int) =~= v@.skip(i as int));
    while j > i && v[j - 1] == '"'
        invariant
            n == v@.len(),
            i <= j <= n,
            strip_char_start(v@, '"') == v@.skip(i as int),
            strip_char_end(v@.skip(i as int), '"') == strip_char_end(
                v@.subrange(i as int, j as int),
                '"',
            ),
        decreases j,
    {
        assert(v@.subrange(i as int, j as int).drop_last() =~= v@.subrange(i as int, j - 1));
        j = j - 1;
    }
    crate::text::slice_chars(v, i, j)
}

/// The name and file name that the headers of a part give.
fn disposition(headers: &Vec<char>) -> (r: (String, Option<String>))
    ensures
        (r.0@, opt_view(r.1)) == spec_disposition(headers@),
{
    let ls = lines_of(headers);
    let ghost lv = views(ls@);
    let mut name = String::new();
    let mut file: Option<String> = None;
    let mut i: usize = 0;
    assert(lv.take(0) =~= Seq::<Seq<char>>::empty());
    while i < ls.len()
        invariant
            i <= ls@.len(),
            lv == views(ls@),
            lv == lines(headers@),
            (name@, opt_view(file)) == lines_fold((Seq::empty(), None), lv.take(i as int)),
        decreases ls.len() - i,
    {
        let line = &ls[i];
        assert(lv.take(i + 1).drop_last() =~= lv.take(i as int));
        assert(lv.take(i + 1).last() == line@);
        if crate::text::has_prefix(line, "Content-Disposition") {
            let items = split_on(line, ';');
            let ghost iv = views(items@);
            let ghost st0: Names = (name@, opt_view(file));
            let mut k: usize = 0;
            assert(iv.take(0) =~= Seq::<Seq<char>>::empty());
            while k < items.len()
                invariant
                    k <= items@.len(),
                    iv == views(items@),
                    (name@, opt_view(file)) == items_fold(st0, iv.take(k as int)),
                decreases items.len() - k,
            {
                assert(iv.take(k + 1).drop_last() =~= iv.take(k as int));
                assert(iv.take(k + 1).last() == items@[k as int]@);
                let t = trim_chars(&items[k]);
                if crate::text::has_prefix(&t, "name=") {
                    name = string_of(&trim_quotes_of(&strip_all_of(&t, "name=")));
                } else if crate::text::has_prefix(&t, "filename=") {
                    file = Some(string_of(&trim_quotes_of(&strip_all_of(&t, "filename="))));
                }
                k = k + 1;
            }
            assert(iv.take(items@.len() as int) =~= iv);
        }
        i = i + 1;
    }
    assert(lv.take(ls@.len() as int) =~= lv);
    (name, file)
}

/// Reads one part: the bytes between two boundaries.
fn parse_part(part: &[u8]) -> (r: Option<Data>)
    ensures
        match r {
            Some(d) => spec_part(part@) == Some(data_view(d)),
            None => spec_part(part@) is None,
        },
{
    let n = part.len();
    let start: usize = if n >= 2 && part[0] == 13u8 && part[1] == 10u8 {
        2
    } else {
        0
    };
    proof {
        if n >= 2 {
            assert(part@.take(2) == crlf() <==> (part@[0] == 13u8 && part@[1] == 10u8)) by {
                if part@[0] == 13u8 && part@[1] == 10u8 {
                    assert(part@.take(2) =~= crlf());
                }
                if part@.take(2) == crlf() {
                    assert(part@.take(2)[0] == part@[0]);
                    assert(part@.take(2)[1] == part@[1]);
                }
            }
        }
    }
    let p = copy_bytes(part, start, n);
    assert(p@ =~= (if part@.len() >= 2 && part@.take(2) == crlf() {
        part@.skip(2)
    } else {
        part@
    }));
    let blank: Vec<u8> = vec![13u8, 10u8, 13u8, 10u8];
    assert(blank@ =~= blank_line());
    let pos = match find_bytes(p.as_slice(), blank.as_slice(), 0) {
        Some(x) => x,
        None => return None,
    };
    proof {
        lemma_find_from(p@, blank_line(), 0);
    }
    let headers = &p.as_slice()[0..pos];
    assert(headers@ =~= p@.take(pos as int));
    let text = match utf8_str(headers) {
        Some(t) => t,
        None => return None,
    };
    proof {
        encode_utf8_decode_utf8(text@);
    }
    let hs = chars_of(text);
    let (name, file) = disposition(&hs);
    let body = copy_bytes(p.as_slice(), pos + 4, p.len());
    assert(body@ =~= p@.skip(pos + 4));
    let t = match file {
        Some(f) => Type::File(f),
        None => Type::Value,
    };
    Some(Data { _type: t, name, content: body })
}

/// The boundary of a body, when its first line begins with `--`.
fn boundary_of(content: &[u8]) -> (r: Option<Vec<u8>>)
    ensures
        match r {
            Some(b) => spec_boundary(content@) == Some(b@),
            None => spec_boundary(content@) is None,
        },
{
    let nl: Vec<u8> = vec![10u8];
    let end = match find_bytes(content, nl.as_slice(), 0) {
        Some(i) => i,
        None => content.len(),
    };
    proof {
        lemma_find_from(content@, seq![10u8], 0);
        assert(nl@ =~= seq![10u8]);
        if find_from(content@, seq![10u8], 0) is None {
            assert(content@.take(content@.len() as int) =~= content@);
        }
    }
    let line = &content[0..end];
    assert(line@ =~= spec_first_line(content@));
    if !(end >= 2 && line[0] == 45u8 && line[1] == 45u8) {
        proof {
            if line@.len() >= 2 && line@.take(2) == seq![45u8, 45u8] {
                assert(line@.take(2)[0] == line@[0]);
                assert(line@.take(2)[1] == line@[1]);
            }
        }
        return None;
    }
    assert(line@.take(2) =~= seq![45u8, 45u8]);
    let text = lossy_text(line);
    let tv = chars_of(text.as_str());
    let t = trim_chars(&tv);
    let rest = strip_all_of(&t, "--");
    let mut b = String::from_str("--");
    crate::text::append_chars(&mut b, &rest);
    Some(b.as_str().as_bytes_vec())
}

/// Reads the parts of a multipart body, in order. A body that does not
/// begin with a boundary line has none.
pub fn parse(content: &[u8]) -> (results: Vec<Data>)
    ensures
        data_views(results@) == spec_parse(content@),
{
    let mut results: Vec<Data> = Vec::new();
    let b = match boundary_of(content) {
        Some(b) => b,
        None => {
            assert(data_views(results@) =~= Seq::<DataView>::empty());
            return results;
        },
    };
    let n = content.len();
    let m = b.len();
    proof {
        reveal_strlit("--");
        assert(b@.len() > 0) by {
            let chars = "--"@ + strip_all(
                trim(utf8_lossy(spec_first_line(content@))),
                "--"@,
            );
            assert(chars.len() > 0);
            assert(chars[0] == '-');
            lemma_encode_nonempty(chars);
        }
    }
    let mut start: usize = 0;
    assert(data_views(results@) =~= Seq::<DataView>::empty());
    loop
        invariant
            n == content@.len(),
            m == b@.len(),
            m > 0,
            start <= n,
            spec_parse(content@) == data_views(results@) + spec_parts_from(
                content@,
                b@,
                start as int,
            ),
        decreases n - start,
    {
        let idx = match find_bytes(content, b.as_slice(), start) {
            Some(i) => i,
            None => {
                assert(spec_parts_from(content@, b@, start as int) =~= Seq::<DataView>::empty());
                assert(data_views(results@) + Seq::<DataView>::empty() =~= data_views(results@));
                return results;
            },
        };
        proof {
            lemma_find_from(content@, b@, start as int);
        }
        let begin = idx + m;
        let next = match find_bytes(content, b.as_slice(), begin) {
            Some(j) => j,
            None => n,
        };
        proof {
            lemma_find_from(content@, b@, begin as int);
        }
        let piece = &content[begin..next];
        let ghost rest = spec_parts_from(content@, b@, next as int);
        let ghost before = data_views(results@);
        match parse_part(piece) {
            Some(d) => {
                results.push(d);
                assert(data_views(results@) =~= before.push(data_view(d)));
                assert(before + (seq![data_view(d)] + rest) =~= before.push(data_view(d))
                    + rest);
            },
            None => {},
        }
        start = next;
    }
}

/// The UTF-8 encoding of a non-empty text is not empty.
proof fn lemma_encode_nonempty(chars: Seq<char>)
    requires
        chars.len() > 0,
    ensures
        encode_utf8(chars).len() > 0,
{
    vstd::utf8::encode_utf8_decode_utf8(chars);
    if encode_utf8(chars).len() == 0 {
        assert(encode_utf8(chars) =~= Seq::<u8>::empty());
        assert(decode_utf8(Seq::<u8>::empty()).len() == 0);
    }
}

} // verus!
