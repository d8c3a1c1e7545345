# ferroqueue

A distributed task queue. Producers hand jobs in, consumers take them out under
a lease, and a job whose lease runs out before it is acknowledged is delivered
again, less and less often, until it is set aside. The queue is a state machine
replicated over a log that the members of a cluster agree on.

The library decides and computes. Sockets, files and the clock that the protocol
runs by belong to the program around it, under `app/`, which performs what was
decided.

## Layout

| Module | What it holds |
|--------|---------------|
| `codec` | the binary form of numbers, texts and options |
| `ids`, `clock`, `text` | identifiers, times, texts |
| `job`, `state` | jobs, records, and the queue as a state machine |
| `log` | log entries, their frames in a file, the log |
| `protocol` | messages, and each step of the protocol as a function on plain values |
| `quorum` | what a majority shares |
| `raft` | a member: elections, replication, committing, applying |
| `transport` | who can reach whom |
| `broker` | what clients ask for |
| `config` | the program's arguments |
| `log_laws`, `queue_laws`, `raft_laws` | what holds of the log, the queue and a member |
| `proposal_laws` | what becomes of proposals |
| `election` | the votes of a whole cluster, and that a term has one leader |
| `cluster`, `safety` | a whole cluster with its logs, and what it never does |

## What is proved

Every function states what it returns and what it changes. Where that hangs on
chance or on the clock, it states what holds whatever came up: `Job::new`,
`broker::enqueue`, `broker::dequeue` and `QueueState::fill_for_test` draw
identifiers or read the time, `broker::sweep_expired_leases` reads the time, and
`Node::open`, `Node::start_election` and `random_election_timeout` draw a timeout.
What the broker and a member do with it is left to functions that take it as an
argument (`enqueue_as`, `lease_as`, `expire`, `Node::restore`, `Node::campaign`)
and state their results exactly. The checksum of a frame is the one that
`crc32fast` computes, and is named, not spelled out.

On top of that:

- A log reloads as it was appended and truncated; a torn last record is dropped.
  Two truncations come to the deeper one, and leave the frames of what they keep.
- A job leaves the queue only when it is acknowledged, and until then it waits, is
  under lease, or is set aside. One that nobody acknowledges is delivered ten times
  and is set aside when the tenth lease runs out.
- A leader's request that comes twice has no further effect.
- No term ever has two leaders, across restarts and failures of storage.
- Logs that share a term at an index share everything before it. What is committed
  is held by a majority and stays committed, and members never disagree on it.
- A proposal that is reported done is the entry it was written as, committed,
  applied, and held by a majority. One whose entry is dropped is reported lost.

What holds of a whole cluster rests on this:

- What a member hears was sent; it may come late, twice, or not at all. An answer to
  a leader's request is heard before the next request to the same peer goes out,
  which is what `Node::request_done` is for.
- A member goes on after a restart with the term and the vote that it had written
  last, and with its log. What an append that failed left in the file is taken off
  before anything else is written, and where that cannot be done the program ends.

Any write may fail at any time. A leader that could not write the entry that opens
its term stands down. A follower that could not keep a leader's term or could not cut
its log gives no answer, so that the leader asks again; one that could not write the
entries refuses. A follower says how far its own log reaches, and the proof that this
is no further than it agrees with the leader goes by where leaders begin, what they
were refused, and what they send next.

## Steps around storage

Where a decision has to be on disk before the next one, a call is cut in two: one
says what to write, the next is told what became of it. `Node::propose` and
`Node::proposed`, `Node::handle_request_vote` and `Node::vote_kept`, and the chain
from `Node::handle_append_entries` by `Node::term_kept` and `Node::truncated` to
`Node::accepted` are such pairs.
