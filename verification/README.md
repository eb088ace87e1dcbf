# nobz

A Usenet client: it searches Newznab indexers, downloads releases over NNTP, and checks,
unpacks and files away what it downloads.

The decisions of the client are a library, written in Verus. Every function of it states what
it returns or changes, and Verus proves that it does. What needs the network, the disk, a
database or a window is ordinary Rust around it.

## The library: `src/`

| Module | What it holds |
| --- | --- |
| `text`, `order` | texts as sequences of characters; stable sorting and filtering |
| `types`, `cats` | searches, results and capabilities of indexers; categories |
| `xml` | XML documents as the events that `quick_xml` reads from them |
| `caps_parser`, `search_parser`, `dates` | the answers of an indexer |
| `newznab`, `aggregate` | requests to an indexer; merging the results of several |
| `nzb`, `queue` | releases; jobs, files and segments, and the one download slot |
| `nntp`, `engine`, `error` | the news protocol; work, connections and the assembly of files |
| `unpack`, `postprocess` | archives; the way of a download to its final place |
| `backend`, `settings` | what starts, stops and follows a download; settings |
| `search_tab`, `queue_tab`, `settings_tab`, `display`, `win95_widgets` | what the windows hold and show |

Laws that relate several functions are public proof functions beside them, such as
`queue::claimed_slot_is_held`, `nntp::sent_body_is_read_back` or
`aggregate::merging_keeps_every_source`.

Calls into other crates stand behind small functions whose contracts Verus takes on trust. Each
says in its comment what is claimed of the call.

## The rest

- `tests/` runs the library on concrete values.
- `app/` is the application: connections, HTTP, SQLite, archives and drawing.
