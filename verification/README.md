# Kurogane

A verified Raft core with a replicated key/value store, a deterministic
simulator, a linearizability checker and a process runtime around them.

Every transition of a node is a function from a state and an event to the next
state and the effects owed; the executable code is proved against that model.
Time and randomness enter only as inputs, and persistence only as effects.

## Layout

- `src/raft` -- protocol types, the model of a node, the node itself, and what
  holds of every single transition.
- `src/safety` -- why a system of nodes never loses what it has committed:
  election safety, log matching, leader completeness and state machine safety,
  through restarts, compaction and membership changes.
- `src/sim` -- clusters driven through seeded logical time, durable state, and
  what holds of every simulation.
- `src/kv` -- commands, the store, and replicas that apply what they commit.
- `src/verify` -- a fault-injecting harness, the histories its clients see, the
  checker, and the proof that every history is linearizable.
- `src/runtime` -- what a process decides: messages on the wire, storage records,
  who may send what, replies to clients and how a process starts.
- `app` -- the program: sockets, files, timers and tasks around the library.
- `tests` -- the library on concrete values.

## What is proved of a system

`safety::system` describes any number of nodes that exchange messages, where
messages may be lost, repeated, delayed and reordered, and nodes may stop and
start again. Its laws hold for every sequence of moves in which a leader begins
a change of voters only when it is not in one already, from a start in which all
voters know the same first configuration.

`safety::moves` says that such a system never gets stuck: its nodes can tick, and
take whatever was sent to them, until a counter or an index reaches its limit,
as long as voters are changed to nodes of the system that the leader tracks.
`sim::progress` and `verify::progress` say the same of simulations, harnesses and
generated runs, so that the conditions on `Simulation::step`, `Harness::step` and
`run` can be met beforehand.

`verify::laws` adds the clients: whatever the seed, the faults and the schedule,
their history is linearizable.
