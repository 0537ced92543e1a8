//! HTTP requests: the start line, the headers that the server reads, and
//! the body.

use vstd::prelude::*;
use super::content::Content;
use crate::text::{
    chars_of, equals_str, has_prefix, parse_decimal, parse_unsigned, slice_chars, split_char,
    split_on, split_whitespace, starts_with, string_of, trim, trim_chars, views, words,
};

verus! {

/// The method of a request.
#[derive(Debug, Clone, Copy, PartialEq, Eq, Structural)]
pub enum RequestType {
    POST,
    GET,
    DELETE,
    UNKNOWN,
}

/// A parsed request.
pub struct Request {
    pub rtype: RequestType,
    pub path: String,
    pub version: String,
    pub host: String,
    pub user_agent: String,
    pub accept: String,
    pub content: Content,
}

/// The headers that the server reads.
pub struct Head {
    pub host: String,
    pub user_agent: String,
    pub accept: String,
    pub content_type: String,
    pub content_length: u32,
}

/// Host, user agent, accepted types, content type, content length.
pub type HeadView = (Seq<char>, Seq<char>, Seq<char>, Seq<char>, u32);

/// The method that a method name denotes.
pub open spec fn spec_request_type(m: Seq<char>) -> RequestType {
    if m == "POST"@ {
        RequestType::POST
    } else if m == "GET"@ {
        RequestType::GET
    } else if m == "DELETE"@ {
        RequestType::DELETE
    } else {
        RequestType::UNKNOWN
    }
}

/// A method name is read as POST, GET or DELETE exactly when it is that
/// very word; every other word (`PUT`, `HEAD`, ...) is unknown.
pub proof fn lemma_request_type_words(m: Seq<char>)
    ensures
        (spec_request_type(m) == RequestType::POST) <==> m == "POST"@,
        (spec_request_type(m) == RequestType::GET) <==> m == "GET"@,
        (spec_request_type(m) == RequestType::DELETE) <==> m == "DELETE"@,
        (spec_request_type(m) == RequestType::UNKNOWN) <==> (m != "POST"@ && m != "GET"@ && m
            != "DELETE"@),
{
    reveal_strlit("POST");
    reveal_strlit("GET");
    reveal_strlit("DELETE");
    assert("POST"@.len() == 4);
    assert("GET"@.len() == 3);
    assert("DELETE"@.len() == 6);
}

/// The content type written in a `Content-Type:` header whose value (after
/// the colon) is `v`: the trimmed value up to its first `;`, or the value
/// as written when it has none.
pub open spec fn spec_content_type_value(v: Seq<char>) -> Seq<char> {
    let parts = split_char(trim(v), ';');
    if parts.len() >= 2 {
        parts[0]
    } else {
        v
    }
}

/// What one header line changes: `Host:`, `User-Agent:`, `Accept:`,
/// `Content-Type:` and `Content-Length:` (a length that does not read as a
/// `u32` counts as 0); other lines change nothing.
pub open spec fn spec_head_step(h: HeadView, line: Seq<char>) -> HeadView {
    if starts_with(line, "Host:"@) {
        (trim(line.skip("Host:"@.len() as int)), h.1, h.2, h.3, h.4)
    } else if starts_with(line, "User-Agent:"@) {
        (h.0, trim(line.skip("User-Agent:"@.len() as int)), h.2, h.3, h.4)
    } else if starts_with(line, "Accept:"@) {
        (h.0, h.1, trim(line.skip("Accept:"@.len() as int)), h.3, h.4)
    } else if starts_with(line, "Content-Type:"@) {
        (h.0, h.1, h.2, spec_content_type_value(line.skip("Content-Type:"@.len() as int)), h.4)
    } else if starts_with(line, "Content-Length:"@) {
        (
            h.0,
            h.1,
            h.2,
            h.3,
            match parse_unsigned(trim(line.skip("Content-Length:"@.len() as int)), u32::MAX as int) {
                Some(n) => n as u32,
                None => 0,
            },
        )
    } else {
        h
    }
}

/// The headers read from `lines`, up to the first empty line.
pub open spec fn spec_head_from(lines: Seq<Seq<char>>, h: HeadView) -> HeadView
    decreases lines.len(),
{
    if lines.len() == 0 || lines[0].len() == 0 {
        h
    } else {
        spec_head_from(lines.drop_first(), spec_head_step(h, lines[0]))
    }
}

/// The headers of a request whose lines are `raw`: every line after the
/// start line, up to an empty one, starting from empty values and length 0.
pub open spec fn spec_head(raw: Seq<Seq<char>>) -> HeadView {
    let empty: HeadView = (Seq::empty(), Seq::empty(), Seq::empty(), Seq::empty(), 0);
    if raw.len() == 0 {
        empty
    } else {
        spec_head_from(raw.skip(1), empty)
    }
}

pub open spec fn head_view(h: Head) -> HeadView {
    (h.host@, h.user_agent@, h.accept@, h.content_type@, h.content_length)
}

/// The value after a header's name.
fn after(line: &Vec<char>, n: usize) -> (r: Vec<char>)
    requires
        n <= line@.len(),
    ensures
        r@ == line@.skip(n as int),
{
    slice_chars(line, n, line.len())
}

/// Reads the headers of a request whose lines (without line endings, up to
/// the blank line) are `raw`.
pub fn parse_head(raw: &Vec<String>) -> (r: Head)
    ensures
        head_view(r) == spec_head(raw@.map_values(|s: String| s@)),
{
    let ghost rv = raw@.map_values(|s: String| s@);
    let mut h = Head {
        host: String::new(),
        user_agent: String::new(),
        accept: String::new(),
        content_type: String::new(),
        content_length: 0,
    };
    let mut i: usize = 1;
    if raw.len() == 0 {
        assert(head_view(h) =~~= spec_head(rv));
        return h;
    }
    assert(rv.skip(1) =~= rv.skip(i as int));
    while i < raw.len()
        invariant
            1 <= i <= raw@.len(),
            rv == raw@.map_values(|s: String| s@),
            spec_head(rv) == spec_head_from(rv.skip(i as int), head_view(h)),
        decreases raw.len() - i,
    {
        let line = chars_of(raw[i].as_str());
        assert(rv.skip(i as int)[0] == line@);
        assert(rv.skip(i as int).drop_first() =~= rv.skip(i + 1));
        if line.len() == 0 {
            return h;
        }
        if has_prefix(&line, "Host:") {
            proof {
                reveal_strlit("Host:");
            }
            h.host = string_of(&trim_chars(&after(&line, 5)));
        } else if has_prefix(&line, "User-Agent:") {
            proof {
                reveal_strlit("User-Agent:");
            }
            h.user_agent = string_of(&trim_chars(&after(&line, 11)));
        } else if has_prefix(&line, "Accept:") {
            proof {
                reveal_strlit("Accept:");
            }
            h.accept = string_of(&trim_chars(&after(&line, 7)));
        } else if has_prefix(&line, "Content-Type:") {
            proof {
                reveal_strlit("Content-Type:");
            }
            let value = after(&line, 13);
            let parts = split_on(&trim_chars(&value), ';');
            if parts.len() >= 2 {
                assert(views(parts@)[0] == parts@[0]@);
                h.content_type = string_of(&parts[0]);
            } else {
                h.content_type = string_of(&value);
            }
        } else if has_prefix(&line, "Content-Length:") {
            proof {
                reveal_strlit("Content-Length:");
            }
            h.content_length = match parse_decimal(&trim_chars(&after(&line, 15)), 0xffff_ffff) {
                Some(n) => n as u32,
                None => 0,
            };
        }
        i = i + 1;
    }
    assert(rv.skip(i as int) =~= Seq::<Seq<char>>::empty());
    h
}

/// Whether a request with lines `raw` has a start line of exactly three
/// words.
pub open spec fn spec_well_started(raw: Seq<Seq<char>>) -> bool {
    raw.len() > 0 && words(raw[0]).len() == 3
}

impl Request {
    /// Builds a request from its lines (without line endings, up to the
    /// blank line) and its body, which holds as many bytes as the
    /// `Content-Length` header says. There is none for no lines, or when the
    /// start line is not method, path and version.
    pub fn parse(raw: &Vec<String>, body: Vec<u8>) -> (r: Option<Self>)
        requires
            body@.len() == spec_head(raw@.map_values(|s: String| s@)).4,
        ensures
            ({
                let rv = raw@.map_values(|s: String| s@);
                let h = spec_head(rv);
                match r {
                    None => !spec_well_started(rv),
                    Some(q) => {
                        &&& spec_well_started(rv)
                        &&& q.rtype == spec_request_type(words(rv[0])[0])
                        &&& q.path@ == words(rv[0])[1]
                        &&& q.version@ == words(rv[0])[2]
                        &&& q.host@ == h.0
                        &&& q.user_agent@ == h.1
                        &&& q.accept@ == h.2
                        &&& q.content._type@ == h.3
                        &&& q.content.lenght == h.4
                        &&& q.content.data@ == body@
                    },
                }
            }),
    {
        let ghost rv = raw@.map_values(|s: String| s@);
        if raw.len() == 0 {
            return None;
        }
        let head = parse_head(raw);
        let start = chars_of(raw[0].as_str());
        assert(rv[0] == start@);
        let parts = split_whitespace(&start);
        if parts.len() != 3 {
            return None;
        }
        assert(views(parts@)[0] == parts@[0]@);
        assert(views(parts@)[1] == parts@[1]@);
        assert(views(parts@)[2] == parts@[2]@);
        let method = &parts[0];
        let rtype = if equals_str(method, "POST") {
            RequestType::POST
        } else if equals_str(method, "GET") {
            RequestType::GET
        } else if equals_str(method, "DELETE") {
            RequestType::DELETE
        } else {
            RequestType::UNKNOWN
        };
        let content = Content::new(head.content_type, head.content_length, body);
        Some(
            Request {
                rtype,
                path: string_of(&parts[1]),
                version: string_of(&parts[2]),
                host: head.host,
                user_agent: head.user_agent,
                accept: head.accept,
                content,
            },
        )
    }
}

} // verus!
