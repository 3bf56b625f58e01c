# kodachi

The core of a MUD client daemon, written in Verus: the functions in `src/`
are verified by Verus, and those whose result or effect matters to a caller
state it in a contract.

- `src/processing/`: UTF-8 helpers, ANSI escape stripping with the map back
  to the original bytes, the line buffer that feeds received text to the
  matchers, and the alias rewriting of text to send.
- `src/matchers/`: regular-expression and "simple" (`$name`, `$1`) matchers
  and what a match captures.
- `src/formatters.rs`: replacement patterns filled from a match.
- `src/completion/`: word suggestions from sent and received text (a Markov
  trie of word sequences, recent words, filtering, case matching, and
  weighted mixing of two sources).
- `src/collections/markov_trie.rs`: the trie of word sequences.
- `src/history.rs`: the history of sent lines, its pages and scrolling.
- `src/ui/`: prompt groups and the line bookkeeping of a terminal.
- `src/connections.rs`, `src/protocol.rs`, `src/cli.rs`: connection ids,
  the messages of the daemon protocol, and the command line.

`app/` is the program around the library: the JSON protocol on standard
input and output (or a unix socket), telnet connections, and drawing on the
terminal. `tests/` runs the library on concrete inputs.

The outside crates called from `src/` (`regex`, `ritelinked`, `rand`) are
reached through a few small trusted wrappers whose contracts say what those
crates document.
