# iiac_perf

The decisions of a latency microbenchmark harness, written in Verus and proved against their
contracts: what a command plans before it touches the machine, what a config file means, and
what the text it reads and prints says. The measuring itself, in floating point against the
machine's clocks, is not part of this crate; the files, syscalls and sysfs writes of the
frequency and host commands are ordinary Rust around the library, in `app/`.

## Layout

- `src/`: the verified library.
  - `freqctl`: CPU-frequency control. The steady state a `[freq]` table declares, checked
    against what the box offers; the writes that pin a clock and the ones that restore it;
    the candidate ladder `suggest-freq` descends and the decision at each step; the lines
    `read-freq` prints. Laws: a pin's writes hold from any starting state, a restore
    converges from any state, and the descent suggests the highest frequency that held.
  - `config`, `layers`, `validate`: config values, where the files are looked for, how they
    layer (the nearer file winning per key, `[tags]` and `[profiles]` merging by entry,
    `[freq]` replacing whole, the two durations and the two record modes each one choice),
    and which value of a merged config is refused first.
  - `init_config`, `tables`: the starting config. The template's one rule (a `#` with no
    space after it is a commented-out key), the template filled with a file's values, a
    line's keys over a file's, what the start takes from each host file, a record's run made
    this host's, the markdown carrier as plain TOML.
  - `analyze`, `figures`: the plans the record readers follow: the `--compare` sides and the
    comparisons they ask for, how invocations group and pair, the parameters two sides ran
    differently, which runs a figure shows and in what format.
  - `host`, `freq`, `gauge`, `harness`, `dither`, `bands`, `text`: the host block's parsers,
    the delivered-clock tests, the dominant-core view of a clock series, the harness's integer
    parts, the xorshift dither, the report's band labels, and the text building blocks every
    contract is stated over.
- `tests/`: the library's tests, run against the compiled crate.
- `app/`: the command-line side of `read-freq`, `pin-freq`, `restore-freq` and `host`: sysfs
  and procfs reads, signal handling, the host probe, and the serde copies of the library's
  records. The `suggest-freq` loop is there too, for a caller that supplies the bench to run
  under each candidate.
