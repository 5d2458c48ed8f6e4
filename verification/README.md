# life

A small web application framework and the application built on it: an
HTTP/1.1 request reader and parser, responses and cookies, a router with a
static-file mount, an HTML template compiler and the pages it renders, SHA-256 password hashing, and a
file-backed record store with users and resources on top.

- `src/` is the library, verified with Verus: every function states what it
  returns in its contract, and the laws that tie functions together (what a
  listing gives back after a record is stored, deleted or replaced, what a
  cookie reads back as, what an accepted request looks like, ...) are proof
  functions next to the code they are about.
- `app/` is the program around it: sockets, files and the page handlers. It hands the library plain values (bytes read from a socket or a
  file) and writes back what the library computes.
- `tests/` exercises the library on concrete values.

The store keeps each collection in two files, both handled by the library as
byte images: the collection file (a header with next id, record count and dead
bytes, then one frame per stored version of a record) and the index file (one
entry per issued id pointing at the live frame of that record).
