# abucket

An S3-compatible gateway in front of a Quark drive: S3 clients list, read, write and delete
objects, and the gateway turns each request into Quark API calls.

The crate is written in Verus. `src/` is the library: the gateway's formats, rules and
decisions, with contracts that Verus proves.

- `query`, `range`, `chunked`: reading requests (query strings, paths, `Range`, aws-chunked
  bodies).
- `listing`, `xml`, `response`, `routing`, `times`, `encode`: what the S3 side answers.
- `quark`, `cookie`, `upload`: the Quark client's decisions, written as state machines that take
  the answer to one request and name the next request (folder walks, paged listings, the
  multipart upload and its visibility checks).
- `mounts`, `drivers`, `ui`: mount options and the file-browser page.
- `text`, `num`: character and number routines that the rest is built on.
- `ext`: the calls into outside crates (hashes, base64, dates, MIME types, URL decoding, JSON
  strings), each behind one trusted item whose contract states what that crate does.

Besides function contracts, `src/` proves laws of the library as proof functions named `law_*`.
Among them: pages of a listing tile it; a walk over an unchanged folder tree finds exactly the
entries under the folder, in key order; parts of an upload tile the body; an aws-chunked body,
with chunk extensions and a trailer, decodes to its pieces; a second write of a cookie overrides
the first; and resolving a folder path again on an unchanged tree creates nothing.

`app/` is the program around the library: the HTTP server, the HTTP client and the loops that
drive the state machines, and the reports of failed requests. `tests/` runs the library on concrete values.
