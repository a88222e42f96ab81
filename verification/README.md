# hd-movies

Polls movie feeds, remembers releases in SQLite, queues new torrents in Transmission and tidies
completed downloads into a library.

- `src/` is the library: what is parsed, filtered, ranked, recorded and named, and which step
  follows which, written in Verus and proved against the contracts in it. It reads no files and
  opens no connections.
- `app/` is the program around it: the command line, HTTP, SQLite and the file system. It carries
  out the steps, prints messages, and rounds ratings to one decimal.
- `tests/` runs the library on concrete values.

| Module | What it holds |
| --- | --- |
| `feed` | candidates on feed pages, title normalization, size extraction |
| `table` | candidates by name |
| `filter`, `rating`, `quality` | eligibility, rating lookup, the best variant of each movie |
| `db` | the table of remembered releases, its migration and its queue |
| `transmission` | RPC calls and replies |
| `tidying` | which completed downloads are organized, and what a failure stops |
| `organizer`, `moving` | which files are kept, their names, and the steps of moving them |
| `app`, `cli` | what a run does, the steps of a scan, the queue file, and the delivery |
| `html`, `links`, `json` | what comes from the HTML, URL and JSON crates |
| `text`, `paths`, `order`, `number`, `natural`, `binary64` | texts, paths, orders and numbers |

What is believed without proof stands behind `external_body` functions and
`assume_specification` items; the comment above each says what it claims.
