# brain

The core of a Markdown notebook, verified with Verus: notes are ordinary `.md`
files in a folder, and everything else is derived from them.

- `src/` is the library. It reads no file and opens no socket: it is handed
  what was read, decides, and says what is to be written.
  - `text`, `paths`, `ordered`, `ranked`, `date`: what the rest is built on.
  - `frontmatter`, `note`, `scan`, `markdown`: a note and its text.
  - `vault`, `config`, `tree`: the folder, the settings, the sidebar.
  - `index`, `search`, `bm25`, `semantic`: links, tags and finding things.
  - `notebook`: everything that is done to a vault, and every rule about it.
  - `sync`: what to do when a vault exists in more than one place.
  - `http`, `server`, `notes`: the service that several machines share.
- `tests/` are whole scenarios on plain values.
- `app/` is what touches the disk and the network, and what is computed in
  floating point.

Contracts are stated over sequences of characters. What holds of every input,
rather than of one call, stands at the end of each module as a public proof
function, with the sentence it proves above it.
