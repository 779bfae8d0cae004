# rust_practice

Verified cores of a set of systems exercises, written in Verus.

- `ring`, `spsc_bounded_cached`, `mpsc_bounded`, `mpsc_bounded_cached`:
  bounded channels over power-of-two ring buffers. Each operation is a step
  on the ring that either finishes or reports that it would have to wait;
  the contents of a ring are always the sent elements not yet received, in
  the order they were sent.
- `ext2`, `recovery`: the ext2 superblock and block group descriptors, the
  walk over free blocks, and the recovery of deleted JPEG images from them.
- `bank`, `protocol`: the account book of a replicated bank and the Raft
  node that replicates its commands. Every handler is a step from one node
  state to the next that queues the messages it sends; the book is always
  the committed commands applied in order.
- `chat`, `stream_agent`: the group chat's wire format, the server's
  bookkeeping of clients and announcements, the client's reading of its
  argument and input, and the buffers between frames and streams.

`src/` is the verified library, `tests/` its tests, and `app/` the programs
around it: device and network I/O, threads, the event loop and the
asynchronous tasks.
