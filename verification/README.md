# ralavest

A small HTTP toolkit whose parsing, serialisation and routing decisions are
verified with Verus.

- `src/text.rs`: the string operations the parsers use (first occurrence,
  `replace`, Unicode whitespace trimming, ASCII case folding, decimal
  notation, lexicographic order), each defined as a spec function and
  implemented with a proof.
- `src/strmap.rs`: `StrMap`, a string-to-string map kept in ascending key
  order; its view is a `Map`.
- `src/http.rs`: methods, protocol versions, requests and responses: how a
  response is written out and how requests and responses are read back.
- `src/extractor.rs`: the query string, path parameters and cookies of a
  request.
- `src/route.rs`: the routing table and the decision of what answers a
  request, the server's decisions on each connection (after the first
  read, and for a request read in full), and the fixed responses it
  writes.
- `src/roundtrip.rs`: proofs that a written response reads back as itself
  and that a request line reads back as its method, path and version.
- `src/framing.rs`: proofs that zero bytes after a message and `\r\n` line
  ends do not change how it reads.
- `src/outside.rs`: the trusted calls into std, `percent-encoding`, `url` and
  `regex`.
- `app/`: the unverified rest: handlers built from closures, the JSON
  extractor, and the tokio loop that reads and writes connections as the
  library decides.
