# localhost

A small HTTP/1.1 server whose logic is verified with Verus.

- `src/` is the library: reading the configuration, parsing requests, routing, sessions,
  uploads, directory listings, CGI and the tables of the event loop. It does no input or
  output. What has to be done outside is handed out as a value, and the outcome comes back as
  a value.
- `src/laws/` states and proves what holds of several functions together: that a written
  configuration, request or form is read back, that nothing outside the root of a route is
  touched, that an upload goes to a vacant name as long as one of the numbered names is vacant,
  that idle clients are told, that responses leave in the order of their requests.
- `app/` is the program around the library: sockets, epoll, files and processes.
- `tests/` runs the library on concrete values.

What is taken on trust is in `src/text.rs`: appending to a `String`, and the two functions of
std that turn bytes into text.
