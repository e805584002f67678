# reduction_server

A server that sums equally long vectors of numbers over a set of ranks. Every rank sends a
vector, the server adds them up element by element, and every rank gets the sum back.

- `src/` is the library: everything the server and its clients decide, written and verified with
  Verus. Threads are state machines that name their next action and are told what came of it.
- `app/` is the program around it: threads, sockets, memory shared between threads, and the
  arithmetic of floating point numbers.
- `tests/` runs the library, among others a whole server with its clients on a network in memory.

What is shown of the server as a whole stands in `src/protocol.rs`, `src/rounds.rs`, `src/links.rs`
and `src/values.rs`: a buffer is never summed while it is sent or filled, the numbers that every
rank is sent as answer number `n` are the sums of contribution number `n` of all ranks, and the
threads never all wait for each other.

These laws are proved of sequentially consistent interleavings: the steps of all threads come one
after the other, and each sees what was written before it. They say nothing of flags that are read
and written with relaxed atomic operations. The program uses sequentially consistent ones, and
keeps its buffers behind locks.
