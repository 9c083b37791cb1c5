# rcli

Directory browsing and file download over HTTP, and the report of the password command, with
the deciding and rendering parts proved in Verus.

* `src/` is the library. A request is resolved to a path that stays in the served directory
  (`resolve`), followed step by step to what is sent (`request`), and answered with a file
  (`media`), a directory page (`entries`, `listing`, `size`, `modified`) or an error (`error`).
  `links` states where the links of a page lead, `genpass` reports a password. `components`,
  `paths`, `encoding` and `text` lie underneath.
* `app/` is the server and the command line around it: tokio, axum and clap.
* `tests/` runs the library on concrete values and against `std::path` and `f64`.

What is taken for granted of `std` and of outside crates stands next to its use, each item with
a comment on what it claims: `paths`, `media`, `modified`, `genpass`, and `String::push` in
`text`.
