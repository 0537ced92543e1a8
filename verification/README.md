# localhost

A small static-file and CGI web server, written in Verus. The library under
`src/` holds the server's logic with its specifications and proofs; the
program under `app/` reads the configuration file, listens through epoll and
does the file, network and process I/O.

Library modules:

- `text`: character-level helpers (trimming, splitting, decimal numbers) with
  the specifications that the parsers are stated in.
- `table`: a keyed table with distinct keys in insertion order.
- `ip`: `a.b.c.d:port` addresses; reading back a written address gives it
  again.
- `config`, `options`: the configuration and the options built from it
  (instances, aliases, CGI bindings, host names).
- `files`: the routing table built from the site's file listing.
- `connection`: routing a request to a file, status lines, content types,
  request heads, `multipart/form-data` bodies, and what answering a GET or a
  POST decides.
- `hosts`: reading a hosts table and the entries to add to it.
- `interface::cgi`: the errors of CGI runs.
- `utils`: path and query helpers.
