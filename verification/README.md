# weread

Reads WeChat (Weixin) articles for AI clients over the Model Context
Protocol: fetches an article page, turns it into structured Markdown, and
saves the Markdown and its images locally.

The verified library is under `src/`:

- `text` — character-sequence helpers (trimming, lines, joining, numbers).
- `collapse` — collapsing runs of blank lines and spaces (via `regex`).
- `html` — the HTML tree model, rebuilt from the walk that `scraper` gives.
- `markdown` — the tag-by-tag conversion of an HTML tree into Markdown.
- `parser` — the article: title, author, time, plain text, Markdown, images.
- `scraper` — the article cache, the retry policy, image file names, links.
- `server` — accepted addresses, file-name sanitising, output folders.
- `error` — the error type.

`app/` holds the MCP server, the HTTP client and the file writes.
