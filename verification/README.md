# ckourse

Remote course sources for a course player: saved SFTP, WebDAV and S3-compatible servers,
and Google Drive. Videos stream with seeking from a block cache, folders are browsed and
imported, and resources are opened in the app.

The library in `src/` is written in [Verus](https://github.com/verus-lang/verus). It makes
the decisions and proves them right; it never waits for anything. `app/` is ordinary Rust
around it: it sends the requests, holds the locks and talks to the keychain.

| Module | What it decides |
| --- | --- |
| `stream_cache` | which bytes a range request gets, which block to fetch, cache, evict and read ahead |
| `remote` | server settings and the registry of servers, `srv:` URIs, content types |
| `remote::session` | which connection a request uses, and when it is run again |
| `remote::walk` | which directories an import lists, and the tree that comes of it |
| `remote::listing` | the order in which a directory is shown |
| `remote::exchange` | HTTP requests and replies as plain values |
| `remote::webdav`, `remote::propfind` | WebDAV URLs, listings and replies |
| `remote::s3` | bucket settings, signed URLs, listings page by page |
| `remote::keychain` | what the keychain's answers come to |
| `remote::sftp` | host keys, logins, listings, ranged reads |
| `remote::key_text` | which texts can be decoded as private keys |
| `remote_protocol`, `drive_protocol` | what a `srv://` or `gdrive://` request is for |
| `commands` | saving, testing and browsing servers, opening resources |

Public proof functions named `law_..` state what holds across functions: that a URI splits
into what it was made of, that a served range is the file's own bytes, that any number of
callers share one fetch of a block, that testing a server saves nothing, that a tree is
bounded, and so on.

What the library takes from other crates — percent-encoding, base64, XML events, URLs, S3
signatures, SSH keys, ciphers, JSON, UUIDs — it calls through small functions whose contracts are
believed, not proved. Each says in its doc comment which function it calls and what it
claims of it.
