# hivedb

An embedded database for agents, written in Verus: an append-only event log with
one shard per agent, projections that are folded from it, versioned document
collections, working memory, subscriptions, a causal view of each thread, and a
hybrid text and vector index.

- `src/` is the library. Every public function carries a contract over a mathematical
  model of its data, and the laws that span functions stand next to the models as
  public proof functions named `law_*`. What the library takes on trust of `std`
  and of other crates is marked `external_body` or `assume_specification`, with a
  comment that says what is claimed.
- `app/` is the ordinary Rust around it: files, the on-disk text index, the vector
  graph, floating-point scores, asynchronous subscriptions and the Node bindings.
- `tests/` exercises the compiled library.

Floating-point values cross the library as their bit patterns. The engine that holds
the text and vector indexes reports to the library how an update went, and the
library answers with the work that is left to do.
