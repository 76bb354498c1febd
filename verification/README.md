# subscript_runtime

The runtime library of the Subscript language, verified with Verus: the
data structures, algorithms and rules that compiled scripts call into,
each with a contract stated over mathematical models and proved.

## What `src/` proves

- `arrops`: typed array elements (`ElemArray`), element equality per kind
  (IEEE on bits for floats, content for strings), search, slice, fill,
  reverse, concat, join, the callback ABI classes (`abi_of`), the visit and
  stop decisions of the callback-taking operations (`walks`), array
  growth, and a stable merge sort driven one comparison at a time
  (`MergeSort`): every answer lowers a measure of the answers still to
  come (`steps_left`, at most `n` per doubling of the run width), so the
  sort finishes, and once finished its order is a permutation and, for a
  total preorder, sorted and stable.
- `assocops`: the insertion-ordered hash table behind `Map` and `Set`
  (`AssocTable`): read-after-write, delete, clear, growth and packing,
  SameValueZero keys, the set algebra, `Map.groupBy`, and the hash mixer
  with its injectivity.
- `context`: the bookkeeping of Context memory. `plan_alloc` decides an
  allocation request as a whole (injected failure, unrepresentable size,
  exact block, size class or large block). `ExactHeap` (exact-size
  allocations, freed-handle retention within a budget, collection that
  keeps exactly what is reachable), `Arena` (chunks of size-classed blocks
  with LIFO free lists and large allocations: exact membership, allocation
  of a non-live address, release, collection), `AsyncRoots` (coroutine
  reference counts, reload epochs and the poll queue, with the law that a
  round keeps kick order), `TrapState` (first trap wins), and the inline
  string handles.
- `date`, `fmt`, `half`, `json`, `strings`, `text`: civil-date arithmetic
  and its round trips, integer formatting, binary16 bits, JSON building,
  escaping, number spelling and parsing, and UTF-8 string operations.

Two std calls stand behind trusted contracts: `String::from_utf8` and
`u32::from_ne_bytes`.

## What `app/` leaves unverified

`app/` is ordinary Rust: the floating-point spellings and conversions,
the drivers that run script callbacks (as closures) around the library's
decisions, and trap-observer plumbing. Raw memory (reading and writing
headers and payload words, obtaining and returning system blocks) is the
caller's: the library takes what memory holds as plain values and says
which blocks to free.

## Layout

- `src/`: the verified library.
- `tests/`: tests that run the library on concrete values.
- `app/`: the unverified edge described above.
