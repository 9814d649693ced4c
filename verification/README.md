# hopper

Layer-sharded inference over a swarm of peers, with verified mechanics.

A model is split into contiguous stages of layers. An activation hops from stage to stage; the
key/value caches stay on the nodes that own the layers. Every hop is metered, credited in a ledger
and may be audited by running the stage again, statelessly. A node that is caught loses its stake
and is routed around.

* `src/` is the library. Every function in it is verified with Verus against its contract. Numbers
  that would be floating-point are held as bit patterns: double arithmetic, half-precision
  conversion, routing costs, audit errors and sampling are integer code that is proved to round as
  the hardware does. The linear algebra of a layer is not part of it: a pass says which task comes
  next and takes the result in.
* `app/` is the daemon: the numeric backend, the peer-to-peer network, the HTTP server and the
  command line.
* `tests/` runs the library.

| Module | What it holds |
| --- | --- |
| `config`, `weights`, `golden` | hyper-parameters, weights and how they are loaded |
| `tensor`, `cache`, `stage`, `shard` | matrices, caches, passes through a stage, the split into stages |
| `memo`, `honest` | why an audit can repeat what was computed online |
| `accuracy` | how little an activation loses on the wire |
| `node`, `engine` | hosting stages, driving a generation |
| `verify`, `digest`, `random` | commitments, audits, random streams |
| `ledger`, `pow`, `router`, `transport` | standing, identities, routes, accounting |
| `wire`, `frame`, `net`, `coordinator`, `worker` | messages, frames, who waits for what, the roles |
| `facade`, `args` | chat completions, what the roles are started with |
| `double`, `halves`, `numbers`, `text`, `table`, `tokenizer` | the groundwork |
