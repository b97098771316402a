# unibus

A toy unified memory bus for a pod of nodes: nodes address each other's memory by
128-bit addresses, read and write it, run atomics on it, send messages, and share
cached regions with a single writer and many readers.

The library under `src/` is written in Verus. Its functions state what they return or
change, and Verus proves that they do.

| Modules | What they hold |
| --- | --- |
| `text`, `be`, `wire`, `table`, `error`, `clock` | number texts, big-endian digits, byte buffers, keyed tables, errors, time |
| `addr`, `types`, `config` | addresses, handles, permissions, completions, settings |
| `device`, `mr`, `verbs` | memory devices, memory regions, local reads, writes and atomics |
| `jetty` | send, receive and completion queues |
| `frame`, `codec`, `message` | the formats of the data plane and of the control plane |
| `dedup`, `read_cache`, `session`, `manager` | delivery: each frame at most once, sent again until it is acknowledged, under credits |
| `demux` | which peer of a shared socket a packet belongs to |
| `member`, `peers`, `control` | who is in the pod, and what follows from a control message |
| `dataplane` | remote reads, writes, atomics and sends |
| `region`, `sub_alloc`, `registry`, `placer`, `cache_pool`, `fetch_agent`, `coherence` | managed regions: placement, caching, write locks |
| `requests`, `kv` | what the administrative interface asks for, and a key-value store on top |

Properties that span several functions are public proof functions whose names start
with `lemma_`: what was encoded decodes to itself, a remote read sees the last remote
write, no frame is delivered twice, an unacknowledged frame stays queued, allocations
do not overlap, a stale copy is never read, and others.

Time is a parameter, in milliseconds. What depends on chance or on the machine is
wrapped in a few functions marked `external_body`, as are the calls into `dashmap`,
`bytes`, `byteorder` and `rand`; their doc comments say what is taken on trust.

`tests/` holds tests of the library. `app/` is the program around it: sockets, timers,
the HTTP interface, configuration files, metrics, and the placement cost, which is
computed in floating point. Called as `unibusctl` it is the command line client,
otherwise the daemon.
