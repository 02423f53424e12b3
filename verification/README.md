# webdav-cli

A command-line client for an Obsidian vault served over WebDAV, meant for
agents and scripts: the whole vault can be read, while writes and the other
WebDAV methods stay inside the configured write directories (normally
`Inbox/Hermes`).

The decisions the tool makes are a Verus-verified library in `src/`:

- `pathguard`: vault path normalization and the write guard;
- `writes`: note file names, the directories `mkdir -p` creates, and the
  gates in front of `delete`, `move`, `copy`, `proppatch`, `lock`, `unlock`;
- `doctor`: the requests `doctor` makes, in order, the checks on their
  answers and the report;
- `markdown`, `notetime`: note rendering, slugs, tags and timestamps;
- `webdav`: URLs, PROPFIND parsing, status handling and request headers;
- `encoding`: percent-encoding of path segments;
- `config`, `cli`, `commands`: configuration, arguments, command output
  (plain and JSON), and the walk of `search` through the vault;
- `json`: the compact JSON text of the reports (sorted keys, strings
  escaped by `serde_json`);
- `text`: the string operations the rest is written with.

`app/` is the program around it: argument parsing with clap, the
configuration file, the environment, the clock and the HTTP requests.
