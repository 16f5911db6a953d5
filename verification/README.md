# lending_async_iter

Lending iterators, lending futures and lending asynchronous iterators, whose
items borrow from the iterator that yields them.

- `src/` is the verified library: the state machines of the adapters and
  consumers (`Filter`, `Enumerate`, `Cycle`, `Fold`, `ForEach`, `all`, `any`,
  `count`, `eq_by`), the `Then` lending future, the buffer of the TCP reader
  iterator and `UnsafePinned`. Each decision is a function from the poll of the
  inner iterator (and the caller's verdict on its item) to what the adapter
  returns, with a contract; the laws over whole runs are proof functions.
- `app/` holds the traits, which poll through `Pin` and `Context`, and the
  loops that poll the inner iterators, call the callers' functions and feed the
  state machines; the embassy TCP read runs there too.
- `tests/` exercise the state machines on scripted runs.
