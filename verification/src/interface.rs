//! Running CGI programs.

pub mod cgi;
