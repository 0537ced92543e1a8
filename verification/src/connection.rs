//! Answering a request line with a file: which file, with which status line
//! and content type, and the text of the response.

pub mod connection;
pub mod content;
pub mod multipart;
pub mod requests;
pub mod utils;

use vstd::prelude::*;
use crate::options::Opts;
use crate::text::{chars_of, decimal, push_decimal, split_whitespace, views, words};
use self::utils::{spec_content_type, spec_get_file, spec_status_line};

verus! {

/// The file that answers a request, and its status code.
pub struct Answer {
    pub file: String,
    pub status: u16,
}

/// What answering a request line needs besides the file's contents.
pub struct Reply {
    pub file: String,
    pub status_line: &'static str,
    pub content_type: &'static str,
}

/// The path that a request line asks for: its second word, `/` when it has
/// fewer than two.
pub open spec fn spec_request_path(line: Seq<char>) -> Seq<char> {
    let w = words(line);
    if w.len() >= 2 {
        w[1]
    } else {
        "/"@
    }
}

/// The head of a response: status line, content type and length of a body
/// of `len` bytes, then the blank line.
pub open spec fn spec_response_head(status_line: Seq<char>, content_type: Seq<char>, len: nat) -> Seq<
    char,
> {
    status_line + "\r\nContent-Type: "@ + content_type + "\r\nContent-Length: "@ + decimal(len)
        + "\r\n\r\n"@
}

fn get_file(path: &str, opts: &Opts) -> (r: Answer)
    ensures
        (r.file@, r.status) == spec_get_file(opts.links@, opts.not_found@, path@),
{
    let resp = utils::get_file(path, opts);
    Answer { file: resp.file, status: resp.status }
}

fn get_status_line(code: u16) -> (r: &'static str)
    ensures
        r@ == spec_status_line(code),
{
    utils::get_status_line(code)
}

/// The content type of a file; plain text when unknown.
fn get_content_type(file_path: &str) -> (r: &'static str)
    ensures
        r@ == spec_content_type(file_path@, "text/plain"@),
{
    utils::content_type_of(file_path, "text/plain")
}

/// What answering a request line takes: the file for the path that it asks
/// for, its status line and its content type (plain text when unknown).
pub fn reply_for(request_line: &str, opts: &Opts) -> (r: Reply)
    ensures
        ({
            let (file, status) = spec_get_file(
                opts.links@,
                opts.not_found@,
                spec_request_path(request_line@),
            );
            &&& r.file@ == file
            &&& r.status_line@ == spec_status_line(status)
            &&& r.content_type@ == spec_content_type(file, "text/plain"@)
        }),
{
    let v = chars_of(request_line);
    let parts = split_whitespace(&v);
    let answer = if parts.len() >= 2 {
        assert(views(parts@)[1] == parts@[1]@);
        let path = crate::text::string_of(&parts[1]);
        get_file(path.as_str(), opts)
    } else {
        get_file("/", opts)
    };
    let status_line = get_status_line(answer.status);
    let content_type = get_content_type(answer.file.as_str());
    Reply { file: answer.file, status_line, content_type }
}

/// The head of a response with a body of `len` bytes.
pub fn response_head(status_line: &str, content_type: &str, len: usize) -> (r: String)
    ensures
        r@ == spec_response_head(status_line@, content_type@, len as nat),
{
    let mut r = String::from_str(status_line);
    r.append("\r\nContent-Type: ");
    r.append(content_type);
    r.append("\r\nContent-Length: ");
    push_decimal(&mut r, len as u64);
    r.append("\r\n\r\n");
    r
}

/// The whole response: its head, then `contents`.
pub fn response_text(status_line: &str, content_type: &str, contents: &str) -> (r: String)
    requires
        vstd::utf8::encode_utf8(contents@).len() <= usize::MAX,
    ensures
        r@ == spec_response_head(status_line@, content_type@, vstd::utf8::encode_utf8(contents@).len())
            + contents@,
{
    let mut r = response_head(status_line, content_type, contents.len());
    r.append(contents);
    r
}

} // verus!
