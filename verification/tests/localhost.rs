use localhost::config::{CommonGatewayInterface, Config, Server, ServerConfig};
use localhost::connection::connection::{
    not_allowed_reply, plan_get, plan_post, record_part, response_header, route, Route, upload_name, upload_name_with_id, upload_path, value_text,
    values_json,
};
use localhost::connection::content::Content;
use localhost::connection::multipart::{self, Data, Type};
use localhost::connection::requests::{parse_head, Request, RequestType};
use localhost::connection::utils::{get_content_type, get_file, get_status_line};
use localhost::connection::{reply_for, response_head, response_text};
use localhost::files::parse_files;
use localhost::hosts::parse::{is_taken, is_well_formed, parse};
use localhost::hosts::write::entries_to_add;
use localhost::interface::cgi::{Error, ErrorStatus};
use localhost::ip::{IPv4, BAD_FORMAT, BAD_VALUE};
use localhost::options::{verify_dir_format, Opts};
use localhost::table::Table;
use localhost::text::{chars_of, parse_decimal, push_decimal, split_whitespace, string_of, trim_chars};
use localhost::utils::{get_file_extention, remove_extension, sanatize_path, split_get_request};

fn s(x: &str) -> String {
    x.to_string()
}

fn server(address: &str, ports: Vec<u32>, hosts: Option<Vec<&str>>) -> Server {
    Server {
        address: s(address),
        ports,
        hosts: hosts.map(|h| h.into_iter().map(s).collect()),
    }
}

fn config(instances: Vec<Server>, aliases: Option<Vec<(&str, &str)>>, bindings: Option<Vec<(&str, &str)>>) -> Config {
    Config {
        path: s("site"),
        uploads: s("uploads"),
        servers: ServerConfig {
            index: s("index.html"),
            not_found: s("404.html"),
            instance: instances,
            aliases: aliases.map(|v| v.into_iter().map(|(k, x)| (s(k), Some(s(x)))).collect()),
        },
        cgi: CommonGatewayInterface {
            bindings: bindings.map(|v| v.into_iter().map(|(k, x)| (s(k), Some(s(x)))).collect()),
        },
    }
}

fn opts_with(aliases: Vec<(&str, &str)>, bindings: Option<Vec<(&str, &str)>>) -> Opts {
    let c = config(vec![server("127.0.0.1", vec![8080], None)], Some(aliases), bindings);
    match Opts::from_config(c, true, true, true, true) {
        Ok(o) => o,
        Err(e) => panic!("{}", e),
    }
}

// ---------------------------------------------------------------- text

#[test]
fn decimal_numbers_read_like_std() {
    let read = |x: &str, max: u64| parse_decimal(&chars_of(x), max);
    assert_eq!(read("007", 255), Some(7));
    assert_eq!(read("+5", 255), Some(5));
    assert_eq!(read("255", 255), Some(255));
    assert_eq!(read("256", 255), None);
    assert_eq!(read("", 255), None);
    assert_eq!(read("+", 255), None);
    assert_eq!(read("-1", 255), None);
    assert_eq!(read("1a", 255), None);
    assert_eq!(read("4294967295", 0xffff_ffff), Some(4294967295));
    assert_eq!(read("4294967296", 0xffff_ffff), None);
    for x in ["0", "+12", "300", "99999999999999999999"] {
        assert_eq!(read(x, 0xffff_ffff), x.parse::<u32>().ok().map(|v| v as u64));
    }
}

#[test]
fn decimal_rendering_round_trips() {
    for n in [0u64, 9, 10, 255, 8080, 4294967295] {
        let mut out = s("n=");
        push_decimal(&mut out, n);
        assert_eq!(out, format!("n={}", n));
        assert_eq!(parse_decimal(&chars_of(&out[2..]), 0xffff_ffff), Some(n));
    }
}

#[test]
fn trimming_and_words() {
    assert_eq!(string_of(&trim_chars(&chars_of(" \t a b \u{3000}"))), "a b");
    let w = split_whitespace(&chars_of("  GET   /x \t HTTP/1.1 "));
    let w: Vec<String> = w.iter().map(string_of).collect();
    assert_eq!(w, vec!["GET", "/x", "HTTP/1.1"]);
    assert!(split_whitespace(&chars_of("   ")).is_empty());
}

// ---------------------------------------------------------------- ip

#[test]
fn ipv4_reads_and_writes() {
    let ip = IPv4::from("127.0.0.1:8080").ok().unwrap();
    assert_eq!(ip.addr(), "127.0.0.1");
    assert_eq!(ip.port(), "8080");
    assert_eq!(ip.full(), "127.0.0.1:8080");
    let ip = IPv4::from("010.0.0.+1:+80").ok().unwrap();
    assert_eq!(ip.full(), "10.0.0.1:80");
}

#[test]
fn ipv4_full_round_trips() {
    for text in ["0.0.0.0:0", "255.255.255.255:4294967295", "1.22.133.4:8989"] {
        let ip = IPv4::from(text).ok().unwrap();
        assert!(IPv4::from(ip.full().as_str()) == Ok(ip));
    }
}

#[test]
fn ipv4_errors() {
    assert_eq!(IPv4::from("127.0.0.1").err(), Some(BAD_FORMAT));
    assert_eq!(IPv4::from("1:2:3").err(), Some(BAD_FORMAT));
    assert_eq!(IPv4::from("1.2.3:80").err(), Some(BAD_FORMAT));
    assert_eq!(IPv4::from("256.1.1.1:80").err(), Some(BAD_FORMAT));
    assert_eq!(IPv4::from("1.256.1.1:80").err(), Some(BAD_VALUE));
    assert_eq!(IPv4::from("1.1.1.x:80").err(), Some(BAD_VALUE));
    assert_eq!(IPv4::from("1.1.1.1:99999999999").err(), Some(BAD_VALUE));
    assert_eq!(IPv4::from("1.1.1.1:").err(), Some(BAD_VALUE));
}

// ---------------------------------------------------------------- utils

#[test]
fn remove_extension_strips_html_only() {
    assert_eq!(remove_extension("/index.html"), "/index");
    assert_eq!(remove_extension("/a.htm"), "/a.htm");
    assert_eq!(remove_extension("/a.html.html"), "/a.html");
    assert_eq!(remove_extension(".html"), "");
}

#[test]
fn file_extensions() {
    assert_eq!(get_file_extention("index.php?name=timmy"), Some("php"));
    assert_eq!(get_file_extention("README"), None);
    assert_eq!(get_file_extention("a.b.c"), Some("c"));
    assert_eq!(get_file_extention("a.b?x.y"), Some("b"));
    assert_eq!(get_file_extention("a."), Some(""));
    assert_eq!(get_file_extention("a.?q"), Some(""));
    assert_eq!(get_file_extention("my.dir/README"), None);
    assert_eq!(get_file_extention("a.py?x=1.5"), Some("py"));
    assert_eq!(get_file_extention("/cgi.d/run.py?dir=a/b.c"), Some("py"));
    assert_eq!(get_file_extention("noext?x=1.5"), None);
}

#[test]
fn get_requests_split_at_the_query() {
    assert_eq!(split_get_request("index.php?name=timmy"), Some(("index.php", "name=timmy")));
    assert_eq!(split_get_request("/a/b.py?x=1?y=2"), Some(("/a/b.py?x=1", "y=2")));
    assert_eq!(split_get_request("a.b?x?y"), Some(("a.b?x", "y")));
    assert_eq!(split_get_request("index.php?v=1.5"), Some(("index.php", "v=1.5")));
    assert_eq!(split_get_request("my.dir/run?x=1"), Some(("my.dir/run", "x=1")));
    assert_eq!(split_get_request("a.b/c?x"), Some(("a.b/c", "x")));
    assert_eq!(split_get_request("index.php?"), Some(("index.php", "")));
    assert_eq!(split_get_request("script?x=1"), None);
    assert_eq!(split_get_request("?a.b"), None);
    assert_eq!(split_get_request("index.php"), None);
    assert_eq!(split_get_request("noext?x=1"), None);
    assert_eq!(split_get_request("a."), None);
    for path in ["index.php?name=timmy", "x.y?", "a.b?c?d", "index.php?v=1.5", "a.b/c?x"] {
        if let Some((p, q)) = split_get_request(path) {
            assert_eq!(format!("{}?{}", p, q), path);
        }
    }
}

#[test]
fn sanatize_path_removes_one_slash() {
    assert_eq!(sanatize_path("/a/b"), "a/b");
    assert_eq!(sanatize_path("a"), "a");
    assert_eq!(sanatize_path("//a"), "/a");
    assert_eq!(sanatize_path(""), "");
}

// ---------------------------------------------------------------- table

#[test]
fn table_reads_back_what_was_written() {
    let mut t: Table<String> = Table::new();
    t.insert("a", s("1"));
    t.insert("b", s("2"));
    assert_eq!(t.get("a"), Some(&s("1")));
    t.insert("a", s("3"));
    assert_eq!(t.get("a"), Some(&s("3")));
    assert_eq!(t.get("b"), Some(&s("2")));
    assert_eq!(t.get("c"), None);
    assert_eq!(t.len(), 2);
    assert_eq!(string_of(t.key_at(0)), "a");
    assert!(t.contains_key("b"));
    assert!(!t.contains_key("c"));
}

// ---------------------------------------------------------------- options

#[test]
fn directory_names_are_checked() {
    assert_eq!(verify_dir_format("site", true, true), Ok(s("site/")));
    assert_eq!(verify_dir_format("site/", true, true), Ok(s("site/")));
    assert_eq!(verify_dir_format("site", false, false), Err(s("site is does not exist")));
    assert_eq!(verify_dir_format("site", true, false), Err(s("site is not a directory")));
}

#[test]
fn options_from_config() {
    let c = config(
        vec![
            server("127.0.0.1", vec![8080, 8081], Some(vec!["a.local", "b.local"])),
            server("0.0.0.0", vec![80], Some(vec!["c.local"])),
        ],
        Some(vec![("/home", "index.html")]),
        None,
    );
    let o = Opts::from_config(c, true, true, true, true).ok().unwrap();
    assert_eq!(o.path, "site/");
    assert_eq!(o.upload, "uploads/");
    assert_eq!(o.index, "index.html");
    assert_eq!(o.not_found, "404.html");
    assert_eq!(o.links.get("/home"), Some(&s("index.html")));
    assert_eq!(o.cgi_binds.get("py"), Some(&s("python3")));
    assert_eq!(o.cgi_binds.len(), 1);
    assert_eq!(o.hosts.get("a.local"), Some(&s("127.0.0.1")));
    assert_eq!(o.hosts.get("c.local"), Some(&s("0.0.0.0")));
    assert_eq!(o.address_combinations(), vec!["127.0.0.1:8080", "127.0.0.1:8081", "0.0.0.0:80"]);
}

#[test]
fn options_refuse_a_host_given_twice() {
    let c = config(
        vec![
            server("127.0.0.1", vec![8080], Some(vec!["a.local"])),
            server("0.0.0.0", vec![80], Some(vec!["b.local", "a.local"])),
        ],
        None,
        Some(vec![("php", "php-cgi")]),
    );
    let r = Opts::from_config(c, true, true, true, true);
    assert_eq!(r.err(), Some(s("the hostname 'a.local' has been entered twice")));
}

#[test]
fn options_refuse_missing_directories() {
    let dup = || {
        config(
            vec![
                server("127.0.0.1", vec![8080], Some(vec!["a.local"])),
                server("0.0.0.0", vec![80], Some(vec!["a.local"])),
            ],
            None,
            None,
        )
    };
    let r = Opts::from_config(dup(), false, false, true, true);
    assert_eq!(r.err(), Some(s("site is does not exist")));
    let r = Opts::from_config(dup(), true, false, true, true);
    assert_eq!(r.err(), Some(s("site is not a directory")));
    let r = Opts::from_config(dup(), true, true, false, false);
    assert_eq!(r.err(), Some(s("uploads is does not exist")));
    let r = Opts::from_config(dup(), true, true, true, false);
    assert_eq!(r.err(), Some(s("uploads is not a directory")));
    let r = Opts::from_config(dup(), true, true, true, true);
    assert_eq!(r.err(), Some(s("the hostname 'a.local' has been entered twice")));
    let mut c = config(vec![server("127.0.0.1", vec![8080], None)], None, None);
    c.path = s("www/");
    let o = Opts::from_config(c, true, true, true, true).ok().unwrap();
    assert_eq!((o.path.as_str(), o.upload.as_str()), ("www/", "uploads/"));
}

#[test]
fn options_keep_configured_bindings_and_last_instance() {
    let c = config(
        vec![server("1.1.1.1", vec![1], None), server("1.1.1.1", vec![2, 3], None)],
        None,
        Some(vec![("php", "php-cgi")]),
    );
    let o = Opts::from_config(c, true, true, true, true).ok().unwrap();
    assert_eq!(o.cgi_binds.get("py"), None);
    assert_eq!(o.cgi_binds.get("php"), Some(&s("php-cgi")));
    assert_eq!(o.address_combinations(), vec!["1.1.1.1:2", "1.1.1.1:3"]);
    assert_eq!(o.links.len(), 0);
}

// ---------------------------------------------------------------- files

#[test]
fn routing_table_from_files() {
    let files = vec![s("./index.html"), s("./about.html"), s("./css/style.css")];
    let links = parse_files(s("index.html"), files);
    assert_eq!(links.get("/"), Some(&s("index.html")));
    assert_eq!(links.get("/about"), Some(&s("about.html")));
    assert_eq!(links.get("/css/style.css"), Some(&s("css/style.css")));
    assert_eq!(links.get("/index"), None);
    assert_eq!(links.len(), 3);
}

#[test]
fn routing_table_skips_files_contained_in_bound_ones() {
    let files = vec![s("./blog/post.html"), s("./post.html")];
    let links = parse_files(s("index.html"), files);
    assert_eq!(links.get("/blog/post"), Some(&s("blog/post.html")));
    assert_eq!(links.get("/post"), None);
    assert_eq!(links.len(), 1);
}

// ---------------------------------------------------------------- hosts

#[test]
fn hosts_text_is_read() {
    let text = "127.0.0.1 localhost # loopback\n# only a comment\n\n::1 ip6-localhost ip6-loopback\n10.0.0.1 localhost\n";
    assert!(is_well_formed(text));
    let t = parse(text);
    assert_eq!(t.get("localhost"), Some(&s("10.0.0.1")));
    assert_eq!(t.get("ip6-loopback"), Some(&s("::1")));
    assert!(is_taken(s("ip6-localhost"), &t));
    assert!(!is_taken(s("example.org"), &t));
    assert_eq!(t.len(), 3);
}

#[test]
fn hosts_text_with_a_blank_entry_is_refused() {
    assert!(!is_well_formed("127.0.0.1 a\n   # indented comment\n"));
    assert!(is_well_formed(""));
}

#[test]
fn hosts_entries_to_add_skip_known_names() {
    let mut wanted: Table<String> = Table::new();
    wanted.insert("a.local", s("127.0.0.1"));
    wanted.insert("localhost", s("127.0.0.1"));
    wanted.insert("b.local", s("0.0.0.0"));
    let known = parse("127.0.0.1 localhost\n");
    assert_eq!(entries_to_add(&wanted, &known), "127.0.0.1 a.local\n0.0.0.0 b.local\n");
}

// ---------------------------------------------------------------- connection

#[test]
fn status_lines() {
    assert_eq!(get_status_line(200), "HTTP/1.1 200 OK");
    assert_eq!(get_status_line(201), "HTTP/1.1 201 Created");
    assert_eq!(get_status_line(400), "HTTP/1.1 400 Bad Request");
    assert_eq!(get_status_line(404), "HTTP/1.1 404 Not Found");
    assert_eq!(get_status_line(500), "HTTP/1.1 500 Internal Server Error");
    assert_eq!(get_status_line(418), "HTTP/1.1 500 Internal Server Error");
}

#[test]
fn content_types_follow_the_extension() {
    assert_eq!(get_content_type("site/a.html"), "text/html");
    assert_eq!(get_content_type("a/b.css"), "text/css");
    assert_eq!(get_content_type("app.js"), "application/javascript");
    assert_eq!(get_content_type("d.json"), "application/json");
    assert_eq!(get_content_type("i.png"), "image/png");
    assert_eq!(get_content_type("i.jpg"), "image/jpeg");
    assert_eq!(get_content_type("i.jpeg"), "image/jpeg");
    assert_eq!(get_content_type("i.gif"), "image/gif");
    assert_eq!(get_content_type("i.svg"), "image/svg+xml");
    assert_eq!(get_content_type("favicon.ico"), "image/x-icon");
    assert_eq!(get_content_type("notes.txt"), "text/html");
    assert_eq!(get_content_type("README"), "text/html");
    assert_eq!(get_content_type(".bashrc"), "text/html");
    assert_eq!(get_content_type("a.png/."), "image/png");
    assert_eq!(get_content_type("dir.css/file"), "text/html");
    assert_eq!(get_content_type("x.css/.."), "text/html");
    assert_eq!(get_content_type("..css"), "text/css");
}

#[test]
fn files_for_paths() {
    let o = opts_with(vec![("/", "index.html"), ("/about", "about.html")], None);
    let r = get_file("/about", &o);
    assert_eq!((r.file.as_str(), r.status), ("about.html", 200));
    let r = get_file("/missing", &o);
    assert_eq!((r.file.as_str(), r.status), ("404.html", 404));
}

#[test]
fn replies_to_request_lines() {
    let o = opts_with(vec![("/", "index.html"), ("/style", "style.css")], None);
    let r = reply_for("GET /style HTTP/1.1", &o);
    assert_eq!((r.file.as_str(), r.status_line, r.content_type), ("style.css", "HTTP/1.1 200 OK", "text/css"));
    let r = reply_for("GET", &o);
    assert_eq!((r.file.as_str(), r.status_line), ("index.html", "HTTP/1.1 200 OK"));
    let r = reply_for("GET /nothing HTTP/1.1", &o);
    assert_eq!((r.file.as_str(), r.status_line, r.content_type), ("404.html", "HTTP/1.1 404 Not Found", "text/html"));
    let o = opts_with(vec![("/notes", "notes.txt")], None);
    assert_eq!(reply_for("GET /notes HTTP/1.1", &o).content_type, "text/plain");
}

#[test]
fn response_texts() {
    assert_eq!(
        response_text("HTTP/1.1 200 OK", "text/html", "<p>é</p>"),
        "HTTP/1.1 200 OK\r\nContent-Type: text/html\r\nContent-Length: 9\r\n\r\n<p>é</p>"
    );
    assert_eq!(response_head("HTTP/1.1 404 Not Found", "text/plain", 0), "HTTP/1.1 404 Not Found\r\nContent-Type: text/plain\r\nContent-Length: 0\r\n\r\n");
    assert_eq!(response_header("H", "t", b"abc"), "H\r\nContent-Type: t\r\nContent-Length: 3\r\n\r\n");
}

// ---------------------------------------------------------------- requests

fn lines(text: &[&str]) -> Vec<String> {
    text.iter().map(|l| s(l)).collect()
}

#[test]
fn request_heads_are_read() {
    let raw = lines(&[
        "POST /form.py HTTP/1.1",
        "Host:  example.org ",
        "User-Agent: curl/8",
        "Accept: */*",
        "Content-Type: multipart/form-data; boundary=xyz",
        "Content-Length: 12",
    ]);
    let h = parse_head(&raw);
    assert_eq!(h.host, "example.org");
    assert_eq!(h.user_agent, "curl/8");
    assert_eq!(h.accept, "*/*");
    assert_eq!(h.content_type, "multipart/form-data");
    assert_eq!(h.content_length, 12);
    let h = parse_head(&lines(&["GET / HTTP/1.1", "Content-Type: text/plain", "Content-Length: lots"]));
    assert_eq!(h.content_type, " text/plain");
    assert_eq!(h.content_length, 0);
    let h = parse_head(&lines(&["GET / HTTP/1.1", "", "Host: late"]));
    assert_eq!(h.host, "");
}

#[test]
fn requests_are_built() {
    let raw = lines(&["POST /up HTTP/1.1", "Host: h", "Content-Length: 3"]);
    let r = Request::parse(&raw, b"abc".to_vec()).unwrap();
    assert!(r.rtype == RequestType::POST);
    assert_eq!(r.path, "/up");
    assert_eq!(r.version, "HTTP/1.1");
    assert_eq!(r.host, "h");
    assert_eq!(r.content.lenght, 3);
    assert_eq!(r.content.data, b"abc".to_vec());
    let r = Request::parse(&lines(&["BREW /pot HTTP/1.1"]), vec![]).unwrap();
    assert!(r.rtype == RequestType::UNKNOWN);
    let r = Request::parse(&lines(&["DELETE /x HTTP/1.1"]), vec![]).unwrap();
    assert!(r.rtype == RequestType::DELETE);
    assert!(Request::parse(&lines(&["GET /"]), vec![]).is_none());
    assert!(Request::parse(&vec![], vec![]).is_none());
}

#[test]
fn content_holds_its_parts() {
    let c = Content::new(s("text/plain"), 2, vec![1, 2]);
    assert_eq!((c._type.as_str(), c.lenght, c.data), ("text/plain", 2, vec![1, 2]));
}

// ---------------------------------------------------------------- multipart

#[test]
fn multipart_bodies_are_split_into_parts() {
    let body = b"------xyz\r\n\
Content-Disposition: form-data; name=\"title\"\r\n\
\r\n\
Hello\r\n\
------xyz\r\n\
Content-Disposition: form-data; name=\"file\"; filename=\"a.txt\"\r\n\
Content-Type: text/plain\r\n\
\r\n\
abc\r\n\
------xyz--\r\n";
    let parts = multipart::parse(body);
    assert_eq!(parts.len(), 2);
    assert_eq!(parts[0].name, "title");
    assert!(matches!(parts[0]._type, Type::Value));
    // the boundary is read as "--xyz", found again four dashes into the
    // next boundary line
    assert_eq!(parts[0].content, b"Hello\r\n----".to_vec());
    assert_eq!(parts[1].name, "file");
    match &parts[1]._type {
        Type::File(f) => assert_eq!(f, "a.txt"),
        Type::Value => panic!("a file was expected"),
    }
    assert_eq!(parts[1].content, b"abc\r\n----".to_vec());
}

#[test]
fn multipart_edge_cases() {
    assert!(multipart::parse(b"").is_empty());
    assert!(multipart::parse(b"no boundary\n--x\r\n").is_empty());
    // a part without a blank line is skipped
    let parts = multipart::parse(b"--b\r\nContent-Disposition: form-data; name=x\r\n--b\r\nContent-Disposition: form-data; name=\"y\"\r\n\r\nv");
    assert_eq!(parts.len(), 1);
    assert_eq!(parts[0].name, "y");
    assert_eq!(parts[0].content, b"v".to_vec());
    // headers that are not UTF-8 skip the part
    let parts = multipart::parse(b"--b\r\n\xff\r\n\r\nv");
    assert!(parts.is_empty());
}

// ---------------------------------------------------------------- handlers

#[test]
fn get_plans_run_cgi_for_bound_extensions() {
    let o = opts_with(vec![("/index.py?name=tim", "index.py")], Some(vec![("py", "python3")]));
    let req = Request::parse(&lines(&["GET /index.py?name=tim HTTP/1.1"]), vec![]).unwrap();
    let p = plan_get(&req, &o);
    assert_eq!(p.file, "index.py");
    assert_eq!(p.status_line, "HTTP/1.1 200 OK");
    assert_eq!(p.content_type, "text/html");
    let call = p.cgi.unwrap();
    assert_eq!((call.path.as_str(), call.command.as_str(), call.args.as_str()), ("index.py", "python3", "name=tim"));
    let req = Request::parse(&lines(&["GET //run.py HTTP/1.1"]), vec![]).unwrap();
    let call = plan_get(&req, &o).cgi.unwrap();
    assert_eq!((call.path.as_str(), call.args.as_str()), ("run.py", ""));
    let req = Request::parse(&lines(&["GET /calc.py?x=1.5 HTTP/1.1"]), vec![]).unwrap();
    let call = plan_get(&req, &o).cgi.unwrap();
    assert_eq!((call.path.as_str(), call.command.as_str(), call.args.as_str()), ("calc.py", "python3", "x=1.5"));
    let req = Request::parse(&lines(&["GET /logo.png HTTP/1.1"]), vec![]).unwrap();
    let p = plan_get(&req, &o);
    assert!(p.cgi.is_none());
    assert_eq!((p.file.as_str(), p.content_type), ("404.html", "text/html"));
}

const FORM: &[u8] = b"------xyz\r\n\
Content-Disposition: form-data; name=\"title\"\r\n\
\r\n\
Hello\r\n\
------xyz\r\n\
Content-Disposition: form-data; name=\"file\"; filename=\"a.txt\"\r\n\
\r\n\
abc\r\n\
------xyz--\r\n";

#[test]
fn post_plans_read_form_parts() {
    let o = opts_with(vec![("/form.py", "form.py"), ("/page", "page.css")], Some(vec![("py", "python3")]));
    let len = format!("Content-Length: {}", FORM.len());
    let raw = lines(&["POST /form.py HTTP/1.1", "Content-Type: multipart/form-data; boundary=----xyz", &len]);
    let req = Request::parse(&raw, FORM.to_vec()).unwrap();
    let p = plan_post(&req, &o);
    assert_eq!((p.file.as_str(), p.status_line, p.content_type), ("form.py", "HTTP/1.1 200 OK", "text/html"));
    assert_eq!(p.parts.len(), 2);
    assert_eq!(p.parts[0].name, "title");
    assert!(matches!(&p.parts[1]._type, Type::File(f) if f == "a.txt"));
    assert_eq!(p.command, Some(s("python3")));
    let raw = lines(&["POST /page HTTP/1.1", "Content-Type: text/plain"]);
    let req = Request::parse(&raw, vec![]).unwrap();
    let p = plan_post(&req, &o);
    assert_eq!((p.file.as_str(), p.content_type), ("page.css", "text/css"));
    assert_eq!(p.parts.len(), 0);
    assert_eq!(p.command, None);
    let raw = lines(&["POST /missing.php HTTP/1.1", "Content-Type: multipart/form-data"]);
    let req = Request::parse(&raw, vec![]).unwrap();
    let p = plan_post(&req, &o);
    assert_eq!((p.file.as_str(), p.status_line), ("404.html", "HTTP/1.1 404 Not Found"));
    assert_eq!(p.parts.len(), 0);
    assert_eq!(p.command, None);
}

#[test]
fn methods_are_routed() {
    assert!(matches!(route(RequestType::GET), Route::Get));
    assert!(matches!(route(RequestType::POST), Route::Post));
    assert!(matches!(route(RequestType::DELETE), Route::NotAllowed));
    assert!(matches!(route(RequestType::UNKNOWN), Route::NotAllowed));
    assert_eq!(not_allowed_reply(), ("HTTP/1.1 405 METHOD NOT ALLOWED", "text/plain", "Method Not Allowed"));
}

#[test]
fn form_parts_are_recorded() {
    let mut values: Table<String> = Table::new();
    let value = Data { _type: Type::Value, name: s("title"), content: b"Hello\r\n".to_vec() };
    let file = Data { _type: Type::File(s("a.txt")), name: s("file"), content: b"abc".to_vec() };
    let lost = Data { _type: Type::File(s("b.txt")), name: s("other"), content: vec![] };
    record_part(&mut values, &value, "uploads/", Some("ignored"));
    record_part(&mut values, &file, "uploads/", Some("id.txt"));
    record_part(&mut values, &lost, "uploads/", None);
    assert_eq!(values.get("title"), Some(&s("Hello")));
    assert_eq!(values.get("file"), Some(&s("uploads/id.txt")));
    assert_eq!(values.get("other"), None);
    assert_eq!(values.len(), 2);
}

#[test]
fn form_values_stop_at_a_carriage_return() {
    assert_eq!(value_text(&b"Hello\r\n".to_vec()), "Hello");
    assert_eq!(value_text(&b"plain".to_vec()), "plain");
    assert_eq!(value_text(&b"a\xffb\rc".to_vec()), "a\u{fffd}b");
}

#[test]
fn upload_names_keep_the_extension() {
    assert_eq!(upload_name_with_id("id", "photo.jpeg"), "id.jpeg");
    let name = upload_name("report.final.pdf");
    assert_eq!(name.len(), 36 + 4);
    assert!(name.ends_with(".pdf"));
    assert_eq!(get_file_extention(&name), Some("pdf"));
    assert_ne!(&name[..36], "00000000-0000-0000-0000-000000000000");
    assert_eq!(name.as_bytes()[8], b'-');
    assert_eq!(upload_path("uploads/", "x.pdf"), "uploads/x.pdf");
}

#[test]
fn form_values_are_sent_as_json() {
    let mut values: Table<String> = Table::new();
    values.insert("name", s("Tim \"T\""));
    values.insert("age", s("7"));
    assert_eq!(values_json(&values), "{\"age\":\"7\",\"name\":\"Tim \\\"T\\\"\"}");
    assert_eq!(values_json(&Table::new()), "{}");
}

#[test]
fn cgi_errors_read() {
    assert_eq!(Error::new(ErrorStatus::Execution, s("no such file")).to_text(), "can't execute the program : no such file");
    assert_eq!(Error::new(ErrorStatus::Program, s("boom")).to_text(), "the program returned an error : boom");
    assert_eq!(
        Error::new(ErrorStatus::ByteConversion, s("bad")).to_text(),
        "the program has been succesfully executed but can't convert the result into a string : bad"
    );
}

#[test]
fn added_host_entries_are_read_back() {
    let text = "127.0.0.1 localhost\n::1 ip6-localhost\n";
    let known = parse(text);
    let mut wanted: Table<String> = Table::new();
    wanted.insert("site.local", s("127.0.0.1"));
    wanted.insert("localhost", s("10.0.0.9"));
    wanted.insert("api.local", s("0.0.0.0"));
    let after = format!("{}{}", text, entries_to_add(&wanted, &known));
    assert!(is_well_formed(&after));
    let t = parse(&after);
    assert_eq!(t.get("site.local"), Some(&s("127.0.0.1")));
    assert_eq!(t.get("api.local"), Some(&s("0.0.0.0")));
    assert_eq!(t.get("localhost"), Some(&s("127.0.0.1")));
    assert_eq!(t.get("ip6-localhost"), Some(&s("::1")));
}

#[test]
fn listening_addresses_read_as_ipv4() {
    let c = config(vec![server("192.168.1.20", vec![80, 8080], None)], None, None);
    let o = Opts::from_config(c, true, true, true, true).ok().unwrap();
    for (text, port) in o.address_combinations().iter().zip(["80", "8080"]) {
        let ip = IPv4::from(text).ok().unwrap();
        assert_eq!(ip.addr(), "192.168.1.20");
        assert_eq!(ip.port(), port);
    }
}

#[test]
fn uploaded_bytes_are_taken_from_the_body() {
    let body = b"--b\r\nContent-Disposition: form-data; name=\"f\"; filename=\"\\\"x.bin\\\"\"\r\n\r\n\x00\x01\xff\x02";
    let parts = multipart::parse(body);
    assert_eq!(parts.len(), 1);
    assert_eq!(parts[0].content, vec![0u8, 1, 255, 2]);
    match &parts[0]._type {
        Type::File(f) => assert_eq!(f, "\\\"x.bin\\"),
        Type::Value => panic!("a file was expected"),
    }
}
