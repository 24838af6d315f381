# strong_ipc

Capability-based IPC over `AF_UNIX` `SOCK_SEQPACKET`, with what it decides proved in Verus.

A `Ref` is a capability: holding one is the authority to send to the node behind it. Capabilities
move between processes as descriptors, and one that arrives twice is recognised as the same one.

| where | what |
|---|---|
| `src/wire.rs` | what one packet may hold, and how its control block is laid out |
| `src/message.rs` | a payload and the descriptors attached to it |
| `src/directory.rs` | the sharded map from a socket's identity to a number |
| `src/capability.rs` | `Ref`, `WeakRef` and the two-tier send |
| `src/outbox.rs` | the backlog a capability grows once its socket has backed up |
| `src/tickets.rs` | who waits, and in what order |
| `src/flow.rs` | what becomes of messages: nothing lost, nothing overtaken, nobody passed over |
| `src/identity.rs` | what becomes of identities: one capability per socket, none mistaken |
| `src/death.rs` | a latch, and who waits for it |
| `src/local.rs` | reaching the handler behind a capability that leads home |
| `src/node.rs` | receive loops, accept loops, and how they end |
| `src/error.rs` | what can go wrong on the way out |
| `tests/` | the library on real sockets, and its rules one by one |
| `app/` | the system calls, tasks and wakeups around it, on tokio |

Time and concurrency are steps: each function takes the state, says what to do next, and is told what
came of it. The laws hold for every order in which those steps can be taken.
