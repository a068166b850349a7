# gtllm

The verified core of a desktop client that puts several language models in
one chat: side by side, in a debate judged by a moderator, working towards
one agreed answer, or competing for the other models' votes.

`src/` is the library, verified with Verus:

- `markdown`, `md_line`, `md_block`, `md_inline`: the reader that turns a
  model's reply into blocks (headers, code and formula blocks, tables,
  lists, quotes, paragraphs) and inline spans, against a mathematical model
  of the document.
- `history`, `session_names`, `sessions`, `calendar`: saved chats, their
  file names and IDs, the session list, and the date labels it shows.
- `votes`, `prompts`, `collaborative`: vote reading and counting, the
  prompts of the competitive and collaborative modes, and the steps of
  their rounds: who reviews, who votes, who writes the consensus, and
  what a round's votes come to.
- `standard`, `selection`: the standard mode's requests and per-model
  conversations, and choosing and searching models.
- `streaming`: how the pieces of several models' streamed answers are put
  together into their results.
- `navigation`: leaving a chat while a reply streams, the runs a
  navigation, a deletion or closing the window stops, and where closing
  the settings leads.
- `content_cache`: a bounded cache of parsed replies.
- `settings`, `theme`, `types`, `ui`, `text`: settings, themes, small
  value types, and the text operations the rest is built on.

`app/` reads and writes the settings and chat files, reads the clock, and
lists the saved chats. `tests/` holds the tests.
