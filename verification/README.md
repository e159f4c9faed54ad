# midnight-shadow

Real-time shadow LTV monitor for Morpho Midnight markets. It quantifies positions that are
liquidatable at the exchange price but not at the oracle price that the protocol uses:
health LTV, latent bad debt, the seizure that would restore health, and what the first
liquidator would take.

The logic is a Verus library in `src/`, with its behaviour stated in contracts and proved.

| Module | What it holds |
|---|---|
| `binary64` | IEEE 754 doubles on integers: what each operation returns (`model`), the executable operations (`double`), and lemmas on rounding and order |
| `types` | collateral legs, positions, price snapshots, analyses, the shared state |
| `shadow::engine` | blended incentive, seizure, auction after maturity, the analysis of a position |
| `feeds::cex` | the played crash, and the frames of the quote stream |
| `feeds::oracle` | the simulated oracle as a state machine |
| `markets` | the configuration, its rules, and the positions that it describes |
| `config` | the command line's settings |
| `clock` | clock readings and spans of time |
| `laws` | what holds across functions: health, seizure, incentives, auction, crash, quotes, oracle, markets, state |

Numbers are doubles throughout. `Double` holds the 64 bits, its view is a number of quanta
(2 to the power -1074) or one of the special values, and every operation is proved to return
its exact result rounded once, ties to even. `tests/double.rs` compares the results with the
machine's: they agree bit for bit, but for what is not a number, where only that it is none
is compared.

`app/` is the program: command line, markets file, quote stream, the loops of the feeds, and
a printed report. It converts floats with `to_bits` and `from_bits`.

    midnight-shadow --sim
    midnight-shadow --sim --oracle-lag-s 180
    midnight-shadow --pair ETHUSDC
