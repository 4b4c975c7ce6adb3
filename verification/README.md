# shu_mcp

The SHU (上海大学) news MCP server, with its core verified by Verus.

- `src/` — the verified library: the data model (`data::models`), the
  article search (`tools::search_articles::search`), the `search_articles`
  tool's argument checks and Markdown table (`tools::search_articles::tool`),
  the pure parts of fetching the data files from GitHub (`data::fetcher`)
  and of building the index (`data::loader`), the resource handler
  (`handler`), stable greatest-key-first sorting (`order`) and text helpers
  (`text`).
- `app/` — the server program: MCP transport and handlers
  (`rust-mcp-sdk`), HTTP downloads (`reqwest`), local files (`glob`), JSON
  parsing (`serde_json`), the background refresh task (`tokio`).
- `tests/` — tests of the library.
