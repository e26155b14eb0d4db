# ai-memory

The decisions behind three parts of ai-memory, a long-term memory for coding
agents, as a library verified with Verus:

- `reorg` files sessions under one project per working directory.
- `embed` backfills the embeddings of wiki pages.
- `server` answers the read-only tool calls of the memory server.

`reorg` and `embed` are state machines. Each step names the one thing that the
store, the wiki or the embedder has to do next; handing back what came of it
gives the next step. `app/` runs them: it opens the store, awaits the answers,
logs and prints. The store, the wiki and the embedder are traits there
(`app/ports.rs`).

`path` and `text` hold what the reports need: the project name of a directory,
decimal numbers and padded columns. `json` and `mcp` are the border to
`serde_json` and `rmcp`, and `path` asks std for file names, which are the
platform's: each function that is not proved says what it claims of the
function it calls.

The functions named `law_..` state what holds across calls, such as that a
reorganisation or a backfill, run a second time, finds nothing left to do.
