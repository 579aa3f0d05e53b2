# Matching engine

Two verified engines for a trading venue, and what they need to be run.

- **The command engine** (`engine`, `matching`, `risk`, `types`): price-time order books
  with icebergs, stops, self-trade prevention and all times in force; a ledger that
  reserves what an order may cost before it reaches a book; spot, perpetual and future
  symbols with liquidation, funding and settlement. Every command gets a receipt with its
  events.
- **The exchange** (`exchange`): one command type, order ids chosen by the users, a ledger
  and books in shards, and a pipeline that takes a command through the ledger, the books
  and the ledger again. It is set up, started, replayed, saved and shut down through
  `exchange::lifecycle::ExchangeCore`.

Around them:

- `wal` and `exchange::journal`: the bytes of the two journals, and which of them can be
  read after a crash.
- `disruptor`: a ring of slots between a producer and its consumers.
- `metrics`: counters and gauges in the text format of Prometheus.
- `store`, `math`, `text`: containers, integer arithmetic and text that the rest is
  built on.

## What is proved

Each type has a mathematical model, which `@` gives, and each operation a function on
models that says what it does: `matching::model`, `risk::model`, `engine::model`,
`exchange::model`, `exchange::ledger`, `exchange::router`, `exchange::pipeline`. The
executable code is proved to do exactly that, without overflow and without panics. Sums
that no machine word holds are left out by `requires`: the models carry a flag (`exact`,
`fits`) that tells.

A trade of the command engine can also fail to settle. In a state that commands led to
there are two reasons for that: an amount of the trade does not fit, or, in a derivative
only, the free balance of a side does not cover what its fill costs beyond its
reservation. An ask in a derivative reserves margin at its own limit; where it fills above
that, the margin is higher, and its user has to have the rest free. The engine then stops
settling and keeps the reason, which `MatchingEngine::failure` gives; it is not to be used
any further. `engine::failures` proves that there is no other reason, and the laws on
money speak of engines without a failure.

What holds of the engines as a whole is stated in proof functions whose names begin with
`law_`; their comments say where something does not hold. Among them: a command that
neither trades a derivative nor closes a position in one changes the total of a currency
by what a deposit, a withdrawal or a funding settlement moves and by nothing else;
orders in derivatives, marks and settlements shift what the ledger is worth at a mark by
no more than rounding; a deposit or withdrawal counts once; every reservation has an
open order and every open order a reservation; trades take the best price and the oldest
order first and never leave their limit; books stay uncrossed, but for orders that
self-trade prevention keeps from each other; what was journaled is read back, a damaged
tail is found, and a journal that was cut there takes more; a saved state with the
journal on top of it is the state that was lost.

## What is trusted

Few outside functions are called, each behind one small function that says what is
believed of it: `ahash` (`store::keyed`), `slab` (`store::arena`), `smallvec`
(`types::receipt`, `matching::outcome`) and `crc32fast` (`wal::journal`).

## Running it

`app/` holds the HTTP service, the files, the threads and the encodings. It hands plain
values to the library and does what the library tells it to do. Amounts that no machine
word holds, which the library leaves out by `requires`, cannot be told from outside
beforehand: build it with overflow checks (`-C overflow-checks=on`), so that the engine
stops on them and does not go on with a wrong ledger. After each command, and after a
journal was applied, it asks for `failure` and panics where a trade was not settled.
