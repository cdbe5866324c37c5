# manread

The verified core of ManRead, a manga server and desktop reader.

`src/` is a Verus library: every function there carries a contract that
Verus proves. It holds the logic of the server and the client that does
not need the database, the object store or the GUI:

- `query`: the search-query language of the client (lexing, escapes,
  quotes, groups, items; `|` / `&` between items, `!(..)`, `|(..)` and
  `&(..)` groups);
- `export`, `keys`: the `.mrmang` export container, the storage keys of a
  manga's images, and which bytes a (range) download sends;
- `upload`, `restore`, `row_order`, `refs`: the upload answer for a
  bundle, reading it back on restore (in any row order), counting image
  references and the steps of a restore;
- `range`, `http`, `checks`: `Range` headers, entity tags and conditional
  requests, download headers and request checks;
- `validate`, `manga`, `search`, `time`, `cover`: field checks, the manga
  actions' decisions, search helpers, timestamps and cover choice;
- `config`, `ui`: the server configuration and the client's pages, form
  checks and suggestion popup.

`app/` holds what stays outside: reading `Config.toml`, streaming an export
plan, and the loop that runs a restore against the manga service.
