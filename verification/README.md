# Microengine

A BTC/ETH cross-asset microstructure engine: order books, features, linear models, replay and paper
execution over one ordered stream of received events. It reads public market data and simulates
directional taker orders; it has no authenticated endpoints and submits no real orders.

The logic is a library in Verus, under `src/`. Each function states what it returns or changes as a
function of its inputs, and Verus proves it. `app/` is the program around it: command line, files,
sockets and HTTP requests, and the stored forms of the library's types.

## Layout

| Module | What it holds |
| --- | --- |
| `number`, `fixed`, `decimal` | The arithmetic that everything is generic over, decimal numbers of fixed scale, and decimal texts |
| `types`, `error`, `config`, `text`, `json` | Events, refusals, configuration, texts and documents |
| `ladder`, `book` | Sides of a book, snapshots, updates, gaps and freshness |
| `features`, `model` | The feature vector and the linear models on it |
| `paper` | The account: orders, fills, fees, funding, limits and the daily loss stop |
| `engine` | The state that events drive, with samples and journal lines |
| `recorder`, `venue::coinbase`, `venue::chaining`, `feeds`, `session` | Messages of two venues, how updates follow on each other, the streams to read, and a recording session |
| `io`, `replay`, `synthetic` | Log lines, recovery, labels, evaluation, synthetic markets |
| `laws`, `causality` | What holds of the engine as a whole |
| `trimming`, `health` | What histories may forget, and when the engine is healthy |
| `stop`, `exits` | The daily loss stop, and how exits close positions |
| `takes`, `levels` | What orders take from the levels of a book |

## Numbers

Amounts are of a type that implements `number::Real`. Its operations are functions of their operands
and obey no algebraic law, so that what is proved holds of double-precision numbers, which the
program uses, as well as of exact ones. A statement that needs exact addition says so: cash equals
starting equity plus realized results and funding less fees where `laws::adds_exactly` holds, as it
does for `fixed::Fixed`. With rounding it holds up to rounding. The same goes for the results of the
two assets, which add up to the totals. That an exit closes the whole position from the other side,
through partial fills too, is stated where `exits::reduces_exactly` holds, as it does for
`fixed::Fixed`. What orders take of a level is stated for `fixed::Fixed`.

A decimal text is read as the nearest number of the type. `fixed::Fixed` keeps nine places and ends at
about nine billion on either side, and has no infinite or undefined numbers.

An implementation outside the library supplies the `spec_` functions of the trait as ordinary
functions that call the operations.

## What holds

- Decisions depend on receive times alone. The venue's own times and texts change no sample and no
  journal line.
- What a run yields for its first events does not depend on later ones, and a run that is resumed
  ends as one that was never interrupted.
- What a history has forgotten changes no feature.
- A book with an id holds nothing back, displays only quantities above zero, and does not turn its
  generation back.
- Health is claimed only where both feeds and both books are valid now. Losing it starts a new epoch,
  drops the history, and silences the models.
- Each update of the Coinbase venue names the last event on its product as its predecessor, whatever
  came between.
- A snapshot is not known before it is received, a gap drops the book, and a duplicate neither
  refreshes a stale book nor restores liquidity that paper orders took.
- A sample needs both feeds, both books, a full warmup and data that no model was selected with.
- An order fills only on an update of its fresh book at or behind its arrival. Entries do not rest,
  exits try again, and the limits hold at submission and at the fill.
- What fills take of a level that is not shown anew is in all no more than it displays, but for a
  billionth of a step.
- A loss of the limit sets the daily loss stop. It cancels entries, with a line in the journal, sends
  what is held on its way out from the other side, lasts the UTC day, and is lifted on a later one.
- A settlement is paid once, for the position at its own time.
- A label ends before the event at which it is given, within the epoch of its sample.

## Trust

The library calls `serde_json` for documents, `time` for RFC 3339 times and `sha2` for digests, each
behind one small function whose comment says what is taken on trust. Of the standard library it takes
on trust that `BTreeMap::last_key_value` gives the pair with the largest key and that `String::push`
appends a character; of the system's clock (`SystemTime::now`, `SystemTime::duration_since`,
`Duration::as_nanos`) it takes nothing on trust.
