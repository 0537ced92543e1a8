//! What answering a request decides: for a GET, the file, its status line
//! and content type, and the CGI program to run if any; for a POST, the
//! values of the submitted form and the names of uploaded files.

use vstd::prelude::*;
use super::multipart::{
    self, data_views, lossy_text, spec_parse, strip_char_start, utf8_lossy, Data, Type,
};
use super::requests::{Request, RequestType};
use super::utils::{get_file, get_status_line, spec_content_type, spec_get_file, spec_status_line};
use crate::connection::{response_head, spec_response_head};
use crate::options::Opts;
use crate::table::{lookup, put, Table};
use crate::text::{
    chars_of, equals_str, first_index_from, lemma_split_at_first, trim, trim_chars, lemma_split_concat, lemma_split_none,
    lemma_split_nonempty, lemma_split_pieces_lack, slice_chars, split_char, string_of,
};
use crate::utils::{
    get_file_extention, lemma_extension_plain, spec_file_extension, spec_split_get_request,
    split_get_request,
};

verus! {

/// What a request's method calls for.
pub enum Route {
    /// Answer as a GET.
    Get,
    /// Answer as a POST.
    Post,
    /// Refuse the method.
    NotAllowed,
}

/// Chooses how to answer a request from its method: GET and POST are
/// answered, any other method is refused.
pub fn route(rtype: RequestType) -> (r: Route)
    ensures
        match rtype {
            RequestType::GET => r is Get,
            RequestType::POST => r is Post,
            _ => r is NotAllowed,
        },
{
    match rtype {
        RequestType::GET => Route::Get,
        RequestType::POST => Route::Post,
        _ => Route::NotAllowed,
    }
}

/// The answer to a refused method: its status line, content type and body.
pub fn not_allowed_reply() -> (r: (&'static str, &'static str, &'static str))
    ensures
        r.0@ == "HTTP/1.1 405 METHOD NOT ALLOWED"@,
        r.1@ == "text/plain"@,
        r.2@ == "Method Not Allowed"@,
{
    ("HTTP/1.1 405 METHOD NOT ALLOWED", "text/plain", "Method Not Allowed")
}

/// A CGI program to run: the script, the interpreter, and the query.
pub struct CgiCall {
    pub path: String,
    pub command: String,
    pub args: String,
}

/// How to answer a GET: the file, its status line, the content type, and
/// the CGI program whose output replaces the file, if any.
pub struct GetPlan {
    pub file: String,
    pub status_line: &'static str,
    pub content_type: &'static str,
    pub cgi: Option<CgiCall>,
}

/// The CGI program for a request path: when the path's extension is bound
/// to an interpreter, the script (the path before its query, without
/// leading `/`), the interpreter and the query (empty when there is none).
pub open spec fn spec_cgi_call(path: Seq<char>, binds: Seq<(Seq<char>, Seq<char>)>) -> Option<
    (Seq<char>, Seq<char>, Seq<char>),
> {
    match spec_file_extension(path) {
        None => None,
        Some(ext) => match lookup(binds, ext) {
            None => None,
            Some(cmd) => {
                let (clean, args) = match spec_split_get_request(path) {
                    Some(p) => p,
                    None => (path, Seq::empty()),
                };
                Some((strip_char_start(clean, '/'), cmd, args))
            },
        },
    }
}

/// `strip_char_start(s, c)` is `s` after its first `k` characters, all of
/// them `c`, and does not begin with `c`.
proof fn lemma_strip_char_start(s: Seq<char>, c: char) -> (k: int)
    ensures
        0 <= k <= s.len(),
        forall|i: int| 0 <= i < k ==> s[i] == c,
        strip_char_start(s, c) == s.skip(k),
        !(strip_char_start(s, c).len() > 0 && strip_char_start(s, c)[0] == c),
    decreases s.len(),
{
    if s.len() > 0 && s[0] == c {
        let k2 = lemma_strip_char_start(s.drop_first(), c);
        assert(s.drop_first().skip(k2) =~= s.skip(k2 + 1));
        assert forall|i: int| 0 <= i < k2 + 1 implies s[i] == c by {
            if i > 0 {
                assert(s.drop_first()[i - 1] == s[i]);
            }
        }
        k2 + 1
    } else {
        assert(s.skip(0) =~= s);
        0
    }
}

/// A request path before its query (the whole path when it is not split).
pub open spec fn path_before_query(path: Seq<char>) -> Seq<char> {
    match spec_split_get_request(path) {
        Some(pq) => pq.0,
        None => path,
    }
}

/// The query of a request path (empty when it is not split).
pub open spec fn path_query(path: Seq<char>) -> Seq<char> {
    match spec_split_get_request(path) {
        Some(pq) => pq.1,
        None => Seq::empty(),
    }
}

/// Whether `script` is `clean` without some number of leading `/`s, and
/// does not itself begin with `/`.
pub open spec fn is_unslashed(clean: Seq<char>, script: Seq<char>) -> bool {
    &&& exists|k: int|
        #![trigger clean.skip(k)]
        0 <= k <= clean.len() && (forall|i: int| 0 <= i < k ==> clean[i] == '/') && script
            == clean.skip(k)
    &&& !(script.len() > 0 && script[0] == '/')
}

/// The script that a GET runs keeps every directory of the request path:
/// it is the path before its query with only its leading `/`s removed, so
/// putting those `/`s back gives the path before the query. It is run by
/// the program bound to the path's extension, with the query (empty when
/// there is none) as its argument.
pub proof fn lemma_cgi_script_keeps_directories(
    path: Seq<char>,
    binds: Seq<(Seq<char>, Seq<char>)>,
)
    ensures
        spec_cgi_call(path, binds) matches Some((script, cmd, args)) ==> is_unslashed(
            path_before_query(path),
            script,
        ) && args == path_query(path) && spec_file_extension(path) is Some && lookup(
            binds,
            spec_file_extension(path)->0,
        ) == Some(cmd),
{
    if spec_cgi_call(path, binds) is Some {
        let clean = path_before_query(path);
        let (script, cmd, args) = spec_cgi_call(path, binds)->0;
        let k = lemma_strip_char_start(clean, '/');
        assert(script == strip_char_start(clean, '/'));
        assert(clean.skip(k) == script);
        assert(is_unslashed(clean, script));
    }
}

/// `v` without its leading `/`s.
fn strip_slashes(v: &Vec<char>) -> (r: Vec<char>)
    ensures
        r@ == strip_char_start(v@, '/'),
{
    let n = v.len();
    let mut i: usize = 0;
    assert(v@.skip(0) =~= v@);
    while i < n && v[i] == '/'
        invariant
            n == v@.len(),
            i <= n,
            strip_char_start(v@, '/') == strip_char_start(v@.skip(i as int), '/'),
        decreases n - i,
    {
        assert(v@.skip(i as int).drop_first() =~= v@.skip(i + 1));
        i = i + 1;
    }
    slice_chars(v, i, n)
}

/// Decides how to answer a GET request.
pub fn plan_get(request: &Request, opts: &Opts) -> (r: GetPlan)
    ensures
        ({
            let (file, status) = spec_get_file(opts.links@, opts.not_found@, request.path@);
            &&& r.file@ == file
            &&& r.status_line@ == spec_status_line(status)
            &&& match spec_cgi_call(request.path@, opts.cgi_binds@) {
                None => r.cgi is None && r.content_type@ == spec_content_type(file, "text/html"@),
                Some((p, c, a)) => {
                    &&& r.content_type@ == "text/html"@
                    &&& r.cgi matches Some(call)
                    &&& call.path@ == p
                    &&& call.command@ == c
                    &&& call.args@ == a
                },
            }
        }),
{
    let path = request.path.as_str();
    let response = get_file(path, opts);
    let status_line = get_status_line(response.status);
    let content_type = super::utils::get_content_type(response.file.as_str());
    let mut plan = GetPlan { file: response.file, status_line, content_type, cgi: None };
    if let Some(ext) = get_file_extention(path) {
        if let Some(cmd) = opts.cgi_binds.get(ext) {
            let (clean, args) = match split_get_request(path) {
                Some(pair) => pair,
                None => (path, ""),
            };
            proof {
                if spec_split_get_request(request.path@) is None {
                    assert(""@ =~= Seq::<char>::empty()) by {
                        reveal_strlit("");
                    }
                }
            }
            let cv = chars_of(clean);
            let script = string_of(&strip_slashes(&cv));
            plan.cgi = Some(
                CgiCall { path: script, command: cmd.clone(), args: String::from_str(args) },
            );
            plan.content_type = "text/html";
        }
    }
    plan
}

/// The head of a response whose body is `body`.
pub fn response_header(status_line: &str, content_type: &str, body: &[u8]) -> (r: String)
    ensures
        r@ == spec_response_head(status_line@, content_type@, body@.len()),
{
    response_head(status_line, content_type, body.len())
}

/// The value of a form field: its bytes as text, up to the first carriage
/// return.
pub open spec fn spec_value_text(content: Seq<u8>) -> Seq<char> {
    split_char(utf8_lossy(content), '\r')[0]
}

/// A form value holds no carriage return.
pub proof fn lemma_value_text_single_line(content: Seq<u8>)
    ensures
        !spec_value_text(content).contains('\r'),
{
    lemma_split_pieces_lack(utf8_lossy(content), '\r', '\r');
    lemma_split_nonempty(utf8_lossy(content), '\r');
}

/// Reads the value of a form field.
pub fn value_text(content: &Vec<u8>) -> (r: String)
    ensures
        r@ == spec_value_text(content@),
{
    let text = lossy_text(content.as_slice());
    let v = chars_of(text.as_str());
    match first_index_from(&v, 0, '\r') {
        Some(i) => {
            proof {
                assert(v@.skip(0) =~= v@);
                lemma_split_at_first(v@, '\r', i as int);
            }
            string_of(&slice_chars(&v, 0, i))
        },
        None => {
            proof {
                assert(v@.skip(0) =~= v@);
                lemma_split_none(v@, '\r');
            }
            text
        },
    }
}

pub open spec fn is_lower_hex(c: char) -> bool {
    ('0' <= c <= '9') || ('a' <= c <= 'f')
}

/// The text form of a random UUID: 36 characters, lower-case hexadecimal
/// digits with `-` at positions 8, 13, 18 and 23.
pub open spec fn is_upload_id(id: Seq<char>) -> bool {
    &&& id.len() == 36
    &&& forall|i: int|
        0 <= i < 36 ==> if i == 8 || i == 13 || i == 18 || i == 23 {
            #[trigger] id[i] == '-'
        } else {
            is_lower_hex(id[i])
        }
}

/// `uuid::Uuid::new_v4()` as text. The source shows the hyphenated
/// lower-case form; which UUID comes out is random and not stated.
#[verifier::external_body]
fn new_upload_id() -> (r: String)
    ensures
        is_upload_id(r@),
{
    uuid::Uuid::new_v4().to_string()
}

/// The stored name of an uploaded file: an id, `.`, and the extension of
/// the file name that the client sent.
pub open spec fn spec_upload_name(id: Seq<char>, filename: Seq<char>) -> Seq<char> {
    id + "."@ + spec_file_extension(filename)->0
}

/// The stored name of an upload keeps the extension of the file name that
/// the client sent.
pub proof fn lemma_upload_name_extension(id: Seq<char>, filename: Seq<char>)
    requires
        is_upload_id(id),
        spec_file_extension(filename) is Some,
    ensures
        spec_file_extension(spec_upload_name(id, filename)) == spec_file_extension(filename),
{
    reveal_strlit(".");
    let e = spec_file_extension(filename)->0;
    lemma_extension_plain(filename);
    let name = spec_upload_name(id, filename);
    assert(name =~= id + seq!['.'] + e);
    assert forall|x: char| x == '.' || x == '?' || x == '/' implies !id.contains(x) by {
        if id.contains(x) {
            let k = choose|k: int| 0 <= k < id.len() && id[k] == x;
            assert(id[k] == '-' || is_lower_hex(id[k]));
        }
    }
    assert forall|x: char| x == '?' || x == '/' implies !name.contains(x) by {
        if name.contains(x) {
            let k = choose|k: int| 0 <= k < name.len() && name[k] == x;
            if k < id.len() {
                assert(id[k] == x);
            } else if k > id.len() {
                assert(e[k - id.len() - 1] == x);
            }
        }
    }
    lemma_split_none(name, '?');
    lemma_split_none(name, '/');
    lemma_split_concat(id, '.', e);
    lemma_split_none(id, '.');
    lemma_split_none(e, '.');
    assert(split_char(name, '.') =~= seq![id, e]);
}

/// The stored name of an uploaded file, from a given id.
pub fn upload_name_with_id(id: &str, filename: &str) -> (r: String)
    requires
        spec_file_extension(filename@) is Some,
    ensures
        r@ == spec_upload_name(id@, filename@),
{
    let mut r = String::from_str(id);
    r.append(".");
    match get_file_extention(filename) {
        Some(ext) => r.append(ext),
        None => {},
    }
    r
}

/// The stored name of an uploaded file, under a fresh random id.
pub fn upload_name(filename: &str) -> (r: String)
    requires
        spec_file_extension(filename@) is Some,
    ensures
        exists|id: Seq<char>| is_upload_id(id) && r@ == spec_upload_name(id, filename@),
{
    let id = new_upload_id();
    upload_name_with_id(id.as_str(), filename)
}

/// Where an uploaded file is stored: the upload directory followed by the
/// file's stored name.
pub fn upload_path(upload: &str, fname: &str) -> (r: String)
    ensures
        r@ == upload@ + fname@,
{
    let mut r = String::from_str(upload);
    r.append(fname);
    r
}

/// How to answer a POST: the file, its status line and content type, the
/// parts of the submitted form, and the program bound to the path's
/// extension, which receives the form.
pub struct PostPlan {
    pub file: String,
    pub status_line: &'static str,
    pub content_type: &'static str,
    pub parts: Vec<Data>,
    pub command: Option<String>,
}

/// The type of form that a POST body must have for its parts to be read.
pub open spec fn is_form_data(content_type: Seq<char>) -> bool {
    trim(content_type) == "multipart/form-data"@
}

/// The program bound to the extension of a request path, if any.
pub open spec fn spec_post_command(path: Seq<char>, binds: Seq<(Seq<char>, Seq<char>)>) -> Option<
    Seq<char>,
> {
    match spec_file_extension(path) {
        None => None,
        Some(ext) => lookup(binds, ext),
    }
}

/// Decides how to answer a POST request.
pub fn plan_post(request: &Request, opts: &Opts) -> (r: PostPlan)
    ensures
        ({
            let (file, status) = spec_get_file(opts.links@, opts.not_found@, request.path@);
            &&& r.file@ == file
            &&& r.status_line@ == spec_status_line(status)
            &&& r.content_type@ == spec_content_type(file, "text/html"@)
            &&& if is_form_data(request.content._type@) {
                data_views(r.parts@) == spec_parse(request.content.data@)
            } else {
                r.parts@.len() == 0
            }
            &&& match spec_post_command(request.path@, opts.cgi_binds@) {
                Some(c) => r.command matches Some(cmd) && cmd@ == c,
                None => r.command is None,
            }
        }),
{
    let path = request.path.as_str();
    let response = get_file(path, opts);
    let status_line = get_status_line(response.status);
    let content_type = super::utils::get_content_type(response.file.as_str());
    let ct = trim_chars(&chars_of(request.content._type.as_str()));
    let parts = if equals_str(&ct, "multipart/form-data") {
        multipart::parse(request.content.data.as_slice())
    } else {
        Vec::new()
    };
    let command = match get_file_extention(path) {
        Some(ext) => match opts.cgi_binds.get(ext) {
            Some(cmd) => Some(cmd.clone()),
            None => None,
        },
        None => None,
    };
    PostPlan { file: response.file, status_line, content_type, parts, command }
}

/// Records one part of a submitted form in `values`. A file part is bound
/// to where it was stored (`upload` then `stored`) when it could be
/// written, and leaves `values` as it was when `stored` is `None`; a plain
/// value is bound to its text.
pub fn record_part(values: &mut Table<String>, part: &Data, upload: &str, stored: Option<&str>)
    ensures
        match part._type {
            Type::File(_) => match stored {
                Some(name) => final(values)@ == put(old(values)@, part.name@, upload@ + name@),
                None => final(values)@ == old(values)@,
            },
            Type::Value => final(values)@ == put(
                old(values)@,
                part.name@,
                spec_value_text(part.content@),
            ),
        },
{
    match &part._type {
        Type::File(_) => match stored {
            Some(name) => values.insert(part.name.as_str(), upload_path(upload, name)),
            None => {},
        },
        Type::Value => values.insert(part.name.as_str(), value_text(&part.content)),
    }
}

/// The JSON text of an object with the given members, as `serde_json`
/// writes it.
pub uninterp spec fn json_object_text(members: Seq<(Seq<char>, Seq<char>)>) -> Seq<char>;

/// `serde_json::to_string` of the object whose string members are `members`
/// (a later member replacing an earlier one of the same name). Its text is
/// named, not stated.
#[verifier::external_body]
fn json_object(members: &Vec<(String, String)>) -> (r: String)
    ensures
        r@ == json_object_text(members@.map_values(|m: (String, String)| (m.0@, m.1@))),
{
    let mut object = serde_json::Map::new();
    for (k, v) in members {
        object.insert(k.clone(), serde_json::Value::String(v.clone()));
    }
    serde_json::to_string(&object).unwrap_or_default()
}

/// The JSON text of the form values, as the CGI program receives it.
pub fn values_json(values: &Table<String>) -> (r: String)
    ensures
        r@ == json_object_text(values@),
{
    let mut members: Vec<(String, String)> = Vec::new();
    let n = values.len();
    let mut i: usize = 0;
    while i < n
        invariant
            n == values@.len(),
            i <= n,
            members@.map_values(|m: (String, String)| (m.0@, m.1@)) == values@.take(i as int),
        decreases n - i,
    {
        let key = string_of(values.key_at(i));
        let value = values.value_at(i).clone();
        let ghost before = members@;
        let ghost pair = (key@, value@);
        assert(pair == values@[i as int]);
        members.push((key, value));
        assert(members@.map_values(|m: (String, String)| (m.0@, m.1@)) =~= before.map_values(
            |m: (String, String)| (m.0@, m.1@),
        ).push(pair));
        assert(members@.map_values(|m: (String, String)| (m.0@, m.1@)) =~= values@.take(
            i + 1,
        ));
        i = i + 1;
    }
    assert(values@.take(n as int) =~= values@);
    json_object(&members)
}

} // verus!
