# crabmap

The index of a small replicated blob store. Each key is stored on
`nreplicas` volume servers chosen by rendezvous hashing over MD5; the index
keeps, per key, the volumes that hold it and its deletion state, answers
GET with a redirect to a replica that holds the blob, and serialises
writes to the same key.

Layout:

- `src/` — the library, verified with Verus:
  - `hashing.rs`: MD5 (`md-5`) and base64 (`base64`) behind trusted wrappers;
  - `base64_laws.rs`: standard base64 is injective;
  - `hexfmt.rs`: upper-case hexadecimal numerals;
  - `placement.rs`: ranking of volumes and replica selection, with its laws;
  - `keypath.rs`: the path and URLs of a key's blob;
  - `record.rs`, `reply.rs`: records, errors and answers;
  - `requests.rs`: the decisions of GET, PUT and DELETE, and per-key locks;
  - `settings.rs`: settings, volume lists and the plan of a write.
- `app/` — the server: command line, the redb database, JSON encoding of
  records, HTTP with axum and reqwest.
- `tests/` — tests of the library.
