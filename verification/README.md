# cs431

Concurrent data structures and synchronization protocols, with their behaviour stated in
contracts and proved.

Every structure is written as a state machine over owned values: the memory that threads share
is a value the structure owns, and a pointer is a position in it. The locks, the hazard
pointers, the reference counts, the behaviour runtime and the elimination slots expose their
steps one by one (a swap of a tail, a store of a flag, the publication of a request), each a
method call. The containers (the stack, the queue, the sorted list, the split-ordered list)
expose whole operations, each one call. Where a thread waits (a spinning lock, a behaviour that
needs a cown, a published elimination request), the library exposes the wait condition, and the
caller runs the loop.

Layout:

- `src/lock`: the lock interfaces, a type-safe lock, the CLH and MCS queue locks and the
  sequence lock.
- `src/lockfree`: Treiber stack, Michael-Scott queue and the sorted list with Harris,
  Harris-Michael and Herlihy-Shavit searches.
- `src/list_set`: fine-grained and optimistic fine-grained sorted sets.
- `src/hazard_pointer`: hazard slots, shields and retired lists.
- `src/arc`: reference counting over an explicit heap of allocations.
- `src/boc`: behaviour-oriented concurrency: cown queues and behaviour scheduling.
- `src/elim_stack`: the elimination-backoff stack.
- `src/hash_table`: the growable array and the split-ordered list.
- `src/hello_server`: the cache, the statistics and the job count of the web server.
- `src/test`: random workloads for the sets.
- `app/`: the web server (threads, sockets, Ctrl-C) and a thread-based runner for behaviours.
