# pasta

A small pastebin service whose core is verified with Verus.

* `src/` — the verified library:
  * `crypto` — password-based encryption of paste contents (PBKDF2-HMAC-SHA256
    key, AES-256-GCM), stored as `base64(salt):base64(iv):base64(cipher)`;
    reading back what was written gives the plaintext.
  * `encoding` — Base64 through the `base64` crate; the padded text is
    stated in full, and that it has one decoding is proved.
  * `slug` — paste names: parsing, random generation, storage paths (every
    slug parses back from its text, and its paths hold no separator).
  * `hash` — SHA-256 content hashes, their byte order, and the
    `content-digest` header.
  * `paste` — the rows the database holds and their expiry.
  * `service` — the decisions of the HTTP handlers: admission of uploads,
    body size accounting, gzip negotiation, content comparison for
    de-duplication, serving, and orphaned files.
  * `text`, `util` — small text helpers and the lower-case alphanumeric
    alphabet.
* `app/` — the HTTP server (axum), the SQLite access (sqlx), gzip streams,
  file-system work and the periodic cleanup tasks, all calling the library.
* `tests/` — tests of the library.
