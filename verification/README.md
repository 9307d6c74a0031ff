# elevator

Control software for a group of networked elevators. Each peer runs one elevator, keeps a
book of orders for every elevator, and broadcasts it over UDP. An order goes from *no order*
to *requested*, *confirmed* and *completed*; a request is confirmed, and a completion retired,
once every peer that is alive has seen it. An external program (`hall_request_assigner`)
decides which elevator serves which hall call.

## Layout

- `src/` — the verified library (Verus):
  - `common.rs`: the shared data (states, orders, broadcast messages, alive/dead reports);
  - `ids.rs`, `assoc.rs`: identifier sets and identifier-keyed lists with unique keys;
  - `decision.rs`: the decision module — new orders, served floors, merging received
    messages, the consensus (barrier) step, and one step per event;
  - `assigner.rs`: the question put to the hall request assigner and how its answer moves
    orders between elevators;
  - `round.rs`: one round of the decision module — event, reassignment, consensus step,
    closing reassignment, message to broadcast — and how the assigner's printed answer is read;
  - `elevator.rs`: the elevator controller — its state, its queue, and the actions it takes
    on every hardware, timer and decision event;
  - `network.rs`: peer identity and the heartbeat bookkeeping that decides who is alive;
  - `pairing.rs`: the peer-pairing service;
  - `laws.rs`: properties of the library as a whole.
- `tests/` — tests of the library.
- `app/` — the program: elevator-server client, UDP networking, the assigner process, and
  the tasks that feed events to the library and carry out the actions it returns.
