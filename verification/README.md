# fastforward

Building blocks of a small HTTP/1.x reverse proxy, verified with Verus.

`src/` is the verified library:

- `combinators`, `grammar`: byte classes and streaming parsers for request
  lines, status lines and header lines.
- `text`: case folding and decimal numerals.
- `message`, `headers`: the model of requests and responses, and the
  header maps of the `http` crate behind trusted wrappers.
- `request`, `response`: reading a request out of one buffer, and a
  response step by step (status line, header lines, body chunks).
- `wire`: the bytes written for a forwarded request and a returned response.
- `filters`: removal of hop-by-hop fields and setting the `host` field.
- `streambuf`: a buffer out of which terminator-delimited pieces are taken.
- `proxy`: where a request goes and what the client is answered.
- `roundtrip`, `response_roundtrip`: what a reader gets back from the bytes
  that the proxy writes.

`app/` holds the program around it: sockets, the thread pool and the
conversions to and from the `http` crate's messages.
