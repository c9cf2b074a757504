# openab

The rules of a chat bot that relays messages between chat platforms and coding
agents, written in Rust and verified with Verus.

- `src/` is the library. Each function carries a contract, and the promises that
  span functions are stated as public proof functions beside them.
- `app/` is the asynchronous side: network, timers, files and logs. It carries out
  what the library decides.
- `tests/` runs the library on concrete values.

| Module | What it decides |
|---|---|
| `adapter` | channels, sessions, how an arrival is packed, what follows a turn |
| `turn` | one turn of an agent, from the prompt to the text that is delivered |
| `delivery`, `posts` | which messages are sent, edited and deleted, in what order |
| `attachments` | which files may be read and uploaded, and what the user is told |
| `directives` | `[[key:value]]` lines in an agent's output |
| `display`, `stream`, `format` | what users see of tools and text |
| `reactions` | the emoji that shows how a turn fares; the heartbeat |
| `live_status` | a status line whose every word is backed by an event |
| `bot_turns` | limits on bots that talk to bots |
| `context_recovery`, `patterns` | links and context around a message, within budgets |
| `spool` | the queue that survives a restart |
| `ingress_audit`, `allow_list` | what is recorded of a message; who may talk |
| `config`, `acp`, `text`, `time` | settings, values of the protocol, texts, clocks |

Calls into other crates (`regex`, `image`, `rand`) and into the parts of the
standard library that have no specification stand in small functions of their
own. Their doc comments say what is taken on trust.
