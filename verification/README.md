# gadget_aio

Exact transfers of borrowed buffers over Linux native asynchronous I/O, as USB
gadget endpoints need them: a read ends well only when its buffer is full, a
write only when all of its buffer was sent. An empty write sends a packet of no
bytes.

* `src/` is the verified engine. It numbers operations, cuts buffers into chunks,
  accounts for completions, cancels, and decides what to do next. It performs no
  I/O: it says what it is waiting for (`transfer::Phase`, `cancel::CancelStep`)
  and takes in a `reply::Reply`. `src/laws/` states what holds of it as a whole.
* `app/` performs the system calls and drives the engine, blocking or as futures
  on Tokio.
* `tests/` runs the engine against a simulated kernel.
