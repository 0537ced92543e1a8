//! IPv4 socket addresses written as `a.b.c.d:port`.

use vstd::prelude::*;
use crate::text::{
    all_digits, chars_of, decimal, lemma_decimal, lemma_parse_decimal, lemma_split_concat,
    lemma_split_none, parse_decimal, parse_unsigned, push_char, push_decimal, split_char,
    split_on, views,
};

verus! {

pub const BAD_FORMAT: &'static str = "bad format must be formated like 255.255.255.255:8989";

pub const BAD_VALUE: &'static str = "all values must be formated has u8.u8.u8.u8.u32";

/// An IPv4 address with a port.
#[derive(Debug, Clone, Copy, PartialEq, Eq, Structural)]
pub struct IPv4 {
    a: u8,
    b: u8,
    c: u8,
    d: u8,
    port: u32,
}

impl View for IPv4 {
    /// The four octets, then the port.
    type V = (u8, u8, u8, u8, u32);

    closed spec fn view(&self) -> Self::V {
        (self.a, self.b, self.c, self.d, self.port)
    }
}

/// What `IPv4::from` gives for the text `s`: exactly one `:`, exactly three
/// `.` before it; a first octet that does not read as a `u8` is a format
/// error, any other octet or a port that does not read as its type is a
/// value error.
pub open spec fn spec_ipv4_from(s: Seq<char>) -> Result<(u8, u8, u8, u8, u32), Seq<char>> {
    let full = split_char(s, ':');
    if full.len() != 2 {
        Err(BAD_FORMAT@)
    } else {
        let addr = split_char(full[0], '.');
        if addr.len() != 4 {
            Err(BAD_FORMAT@)
        } else if parse_unsigned(addr[0], 255) is None {
            Err(BAD_FORMAT@)
        } else if parse_unsigned(addr[1], 255) is None || parse_unsigned(addr[2], 255) is None
            || parse_unsigned(addr[3], 255) is None || parse_unsigned(full[1], u32::MAX as int) is None {
            Err(BAD_VALUE@)
        } else {
            Ok(
                (
                    parse_unsigned(addr[0], 255)->0 as u8,
                    parse_unsigned(addr[1], 255)->0 as u8,
                    parse_unsigned(addr[2], 255)->0 as u8,
                    parse_unsigned(addr[3], 255)->0 as u8,
                    parse_unsigned(full[1], u32::MAX as int)->0 as u32,
                ),
            )
        }
    }
}

/// `a.b.c.d` in decimal.
pub open spec fn spec_addr_text(v: (u8, u8, u8, u8, u32)) -> Seq<char> {
    decimal(v.0 as nat) + seq!['.'] + decimal(v.1 as nat) + seq!['.'] + decimal(v.2 as nat)
        + seq!['.'] + decimal(v.3 as nat)
}

/// `a.b.c.d:port` in decimal.
pub open spec fn spec_full_text(v: (u8, u8, u8, u8, u32)) -> Seq<char> {
    spec_addr_text(v) + seq![':'] + decimal(v.4 as nat)
}

impl IPv4 {
    /// Reads an address written as `a.b.c.d:port`.
    pub fn from(s: &str) -> (r: Result<Self, &'static str>)
        ensures
            match r {
                Ok(ip) => spec_ipv4_from(s@) == Ok::<_, Seq<char>>(ip@),
                Err(e) => spec_ipv4_from(s@) == Err::<(u8, u8, u8, u8, u32), _>(e@),
            },
    {
        let v = chars_of(s);
        let full = split_on(&v, ':');
        if full.len() != 2 {
            return Err(BAD_FORMAT);
        }
        assert(views(full@)[0] == full@[0]@);
        assert(views(full@)[1] == full@[1]@);
        let addr = split_on(&full[0], '.');
        if addr.len() != 4 {
            return Err(BAD_FORMAT);
        }
        assert(views(addr@)[0] == addr@[0]@);
        assert(views(addr@)[1] == addr@[1]@);
        assert(views(addr@)[2] == addr@[2]@);
        assert(views(addr@)[3] == addr@[3]@);
        let a = match parse_decimal(&addr[0], 255) {
            Some(x) => x,
            None => return Err(BAD_FORMAT),
        };
        let b = match parse_decimal(&addr[1], 255) {
            Some(x) => x,
            None => return Err(BAD_VALUE),
        };
        let c = match parse_decimal(&addr[2], 255) {
            Some(x) => x,
            None => return Err(BAD_VALUE),
        };
        let d = match parse_decimal(&addr[3], 255) {
            Some(x) => x,
            None => return Err(BAD_VALUE),
        };
        let port = match parse_decimal(&full[1], 0xffff_ffff) {
            Some(x) => x,
            None => return Err(BAD_VALUE),
        };
        Ok(IPv4 { a: a as u8, b: b as u8, c: c as u8, d: d as u8, port: port as u32 })
    }

    /// The address part, `a.b.c.d`.
    pub fn addr(&self) -> (r: String)
        ensures
            r@ == spec_addr_text(self@),
    {
        let mut r = String::new();
        push_decimal(&mut r, self.a as u64);
        push_char(&mut r, '.');
        push_decimal(&mut r, self.b as u64);
        push_char(&mut r, '.');
        push_decimal(&mut r, self.c as u64);
        push_char(&mut r, '.');
        push_decimal(&mut r, self.d as u64);
        assert(r@ =~= spec_addr_text(self@));
        r
    }

    /// The port, in decimal.
    pub fn port(&self) -> (r: String)
        ensures
            r@ == decimal(self@.4 as nat),
    {
        let mut r = String::new();
        push_decimal(&mut r, self.port as u64);
        assert(r@ =~= decimal(self@.4 as nat));
        r
    }

    /// The whole address, `a.b.c.d:port`.
    pub fn full(&self) -> (r: String)
        ensures
            r@ == spec_full_text(self@),
    {
        let mut r = self.addr();
        push_char(&mut r, ':');
        let p = self.port();
        let pv = chars_of(p.as_str());
        crate::text::append_chars(&mut r, &pv);
        r
    }
}

proof fn lemma_decimal_lacks(n: nat, c: char)
    requires
        !('0' <= c <= '9'),
    ensures
        !decimal(n).contains(c),
{
    lemma_decimal(n);
    if decimal(n).contains(c) {
        let k = choose|k: int| 0 <= k < decimal(n).len() && decimal(n)[k] == c;
        assert(all_digits(decimal(n)));
    }
}

proof fn lemma_split_decimal(n: nat, c: char)
    requires
        !('0' <= c <= '9'),
    ensures
        split_char(decimal(n), c) == seq![decimal(n)],
{
    lemma_decimal_lacks(n, c);
    lemma_split_none(decimal(n), c);
}

/// Reading back the text of an address gives the same address: `from`
/// undoes `full`.
pub proof fn lemma_from_full(v: (u8, u8, u8, u8, u32))
    ensures
        spec_ipv4_from(spec_full_text(v)) == Ok::<_, Seq<char>>(v),
{
    let d0 = decimal(v.0 as nat);
    let d1 = decimal(v.1 as nat);
    let d2 = decimal(v.2 as nat);
    let d3 = decimal(v.3 as nat);
    let dp = decimal(v.4 as nat);
    let addr = spec_addr_text(v);
    // No ':' in the address part.
    lemma_split_decimal(v.0 as nat, ':');
    lemma_split_decimal(v.1 as nat, ':');
    lemma_split_decimal(v.2 as nat, ':');
    lemma_split_decimal(v.3 as nat, ':');
    lemma_split_decimal(v.4 as nat, ':');
    lemma_split_decimal(v.0 as nat, '.');
    lemma_split_decimal(v.1 as nat, '.');
    lemma_split_decimal(v.2 as nat, '.');
    lemma_split_decimal(v.3 as nat, '.');
    lemma_decimal_lacks(v.0 as nat, ':');
    lemma_decimal_lacks(v.1 as nat, ':');
    lemma_decimal_lacks(v.2 as nat, ':');
    lemma_decimal_lacks(v.3 as nat, ':');
    assert(!addr.contains(':')) by {
        if addr.contains(':') {
            let k = choose|k: int| 0 <= k < addr.len() && addr[k] == ':';
            if k < d0.len() {
                assert(d0[k] == ':');
            } else if k == d0.len() {
            } else if k < d0.len() + 1 + d1.len() {
                assert(d1[k - d0.len() - 1] == ':');
            } else if k == d0.len() + 1 + d1.len() {
            } else if k < d0.len() + 2 + d1.len() + d2.len() {
                assert(d2[k - d0.len() - 2 - d1.len()] == ':');
            } else if k == d0.len() + 2 + d1.len() + d2.len() {
            } else {
                assert(d3[k - d0.len() - 3 - d1.len() - d2.len()] == ':');
            }
        }
    }
    lemma_split_none(addr, ':');
    lemma_split_concat(addr, ':', dp);
    assert(split_char(spec_full_text(v), ':') =~= seq![addr, dp]);
    // The address part splits into its four numbers.
    lemma_split_concat(d0 + seq!['.'] + d1 + seq!['.'] + d2, '.', d3);
    lemma_split_concat(d0 + seq!['.'] + d1, '.', d2);
    lemma_split_concat(d0, '.', d1);
    assert(split_char(addr, '.') =~= seq![d0, d1, d2, d3]);
    lemma_parse_decimal(v.0 as nat, 255);
    lemma_parse_decimal(v.1 as nat, 255);
    lemma_parse_decimal(v.2 as nat, 255);
    lemma_parse_decimal(v.3 as nat, 255);
    lemma_parse_decimal(v.4 as nat, u32::MAX as int);
}

} // verus!
