# dup-detector

Finds duplicated code. Source text is parsed with tree-sitter, reduced to its leaf tokens, and
searched for clones: stretches of code that are the same (type 1), or the same up to a consistent
renaming of identifiers and, if asked for, of literals (type 2). Comments and layout never matter.

The library in `src/` is verified with Verus: every function states in its contract what it
returns, and the contracts are proved. Which syntax tree tree-sitter makes of a text is left to
tree-sitter; what the library makes of a given tree is not. The program in `app/` wraps it as a command line tool, an MCP
server and a language server.

## The library

| Module | What it holds |
| --- | --- |
| `language`, `syntax`, `tokenize` | languages and grammars; the syntax tree; its leaf tokens with the units that begin and end there |
| `model` | tokens, files, occurrences, clone groups |
| `encode` | token hashes, window signatures and span fingerprints, all blind to renaming |
| `candidates`, `sort` | seeds, their order, and the pairs of windows that may be clones |
| `bijection`, `matching` | the one-to-one renaming, and matches grown as far as it holds |
| `spans` | brackets and units: which stretches of code are complete |
| `partition`, `cluster` | clone classes and the groups that are reported |
| `detect`, `filtering`, `rescan`, `findings` | detection as a whole, from all windows or some of them, what the latter finds again, and what every report keeps |
| `bytes`, `cache`, `paths`, `text` | the format of cached token streams, paths, text |
| `config`, `index`, `cli` | settings, the index and its refresh, the `scan` command |
| `regions`, `server` | requests about a project, a file or a region; the indexes that are kept |
| `positions`, `pending`, `navigation`, `lsp` | editor positions and edits, pending changes, jumping between clones, the analysis of open documents |

What the library takes on trust stands in four places: tree-sitter and its grammars in `syntax`,
the hash function in `encode`, the parallel sorts in `candidates`, and two functions on strings in
`text`. Each of these items says which outside function it calls and what it claims of it.

Paths are text with `/` between the parts. The program turns the paths of the operating system into
such text, and passes over files whose paths are not valid Unicode.

## The program

`app/` reads and writes: configuration files, source files, cached token streams, and the two
protocols. Before each call it tests what the library asks for.

```
dup-detector scan <path>
dup-detector mcp
dup-detector lsp
```
