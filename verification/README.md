# rut

The verified core of the rut virtual machine's runtime library: the data
structures and rules the interpreter leans on, each stated in
`requires`/`ensures` contracts and proved with Verus.

Layout of `src/`:

- `trap` — the engine's error value and its kind names.
- `text` — decimal spelling used in trap messages.
- `nmap` — the native key table: content-equal keys, stable birth
  handles, valued lanes, key decoding, and the FNV payload hashes.
- `dispatch` — a bytecode summing loop with two interpreters (a `match`
  loop and a handler table) proved to compute the same answer.
- `acct` — heap byte accounting against an optional budget.
- `cell` — primitive types, packed element kinds, record slots, the
  `str` payload and cell shape checks.
- `blocks` — the block store: size-classed small blocks carved from pages
  with free lists and a one-block cache, dedicated large blocks,
  geometric growth.
- `elems` — packed element storage of arrays inside blocks.
- `strheap`, `arrheap` — `str`, one-character and array cells built in the
  block store and charged to the heap budget; the UTF-8 encoder; the
  `bytes` clone.
- `strops` — the string natives' decisions: scalar rendering, character
  counts and positions in UTF-8 text, character-counted `slice` windows,
  indexing by character, octet comparison, and concatenation (in place
  into a uniquely owned accumulator, or by copying).
- `trace` — captured stack traces: the frames a capture records, frame
  reads, call-site positions and the rendered trace.
- `cells` — the cell arena's reference counting: minting, retaining and
  releasing cells, the release cascade through a dying cell's fields, drop
  callbacks that pin a dying cell, weak boxes that go nil when their
  referent's last reference goes, the shallow copy `own` makes, and the
  invariant that every count is exact and no reference dangles.
- `tablecells` — the key table's crossings over the cell arena
  (`hremove`, `hvput`, `val_set_u`, `finalize`): each displaced or removed
  `Ref` value is released exactly once and its bytes refunded; the valued
  put and remove lanes, which decode their key and refuse a mixed kind
  before retaining anything.
- `bytecode` — the op set, the function and type-table shapes a loaded
  program has, and the register and type operands of each op.
- `verify` — the load-time check: a program with a register outside its
  frame, a type outside the table, a jump outside the code, a call of the
  wrong arity or a typed op whose representation or primitive does not
  match is refused with the first fault, naming function and op.
- `layout` — what the machine works out before a run: each type's slot
  representation, each function's reference registers and each type's
  reference fields.
- `step`, `runloop` — the match interpreter: one frame-local op (word
  arithmetic, comparisons, conversions, reference moves, jumps,
  branches, assertions), one op under the fuel meter with calls and
  returns, and the run loop until the root frame returns, an op traps or
  the budget parks the frame.
- `frames` — the call stack and its register reference discipline: a
  return releases the callee's registers and moves the result's reference
  into the caller's destination.
- `seq` — element reads and writes through arrays and array windows.
- `pool` — the size-classed pool of host payload blocks.
- `store` — the opaque store: a slab of host-held entries with reference
  counts, borrow guards and balanced charge counters.
- `host` — the check of declared host functions against bound ones, and
  the boot-time join that gives each host function of a program its
  binding.
- `scalar`, `boundary` — integer arithmetic, bit operations, comparisons,
  conversions, and the host-boundary narrowing and kind checks.
- `fuel` — the fuel meter and the threaded loop's per-op fuel decision.
- `threaded` — the portable threaded driver: a stretch of handler ops
  under a fuel budget that answers, bails at an op without a handler, or
  parks the frame when the budget is spent.
- `envelope`, `value` — the JSON run envelope, base64, and the returned
  error convention.
- `session` — the parked-run session: which call may run, resume or be
  refused, and what each call end leaves parked.

Public proof functions named `law_*` state the properties that span
several operations (read after write, round trips, reuse of freed
blocks, parking after a budget is spent, what a slice window holds).

`app/` holds what stays outside the verified library: the floating-point
lanes of the key table and of scalar arithmetic, and the wall-clock
dispatch benchmark.
