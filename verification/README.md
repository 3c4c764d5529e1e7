# Sivana

Audio recognition: streaming landmark fingerprints, a rarity-weighted matcher,
an immutable on-disk index, catalog ingestion and a recognition server.

`src/` is the library, verified with Verus. It holds every decision of the
system as a function on plain values: which cells of a spectrogram are peaks,
which pairs of peaks become fingerprints, how votes are cast and ranked, what
the bytes of a segment mean, when a session ends. `app/` is ordinary Rust
around it: sockets, files, databases, clocks, decoders and everything that
computes with floating point numbers.

Floating point values enter the library as integers. Magnitudes are order
keys, integers that compare as the magnitudes do. Levels are millionths of a
decibel, rarity weights millionths of a nat, times microseconds. Ratios are
compared by cross multiplication, logarithmic bands and ratio steps by exact
powers of whole numbers.

| modules | subject |
|---|---|
| `framing`, `sliding_max`, `peaks`, `bands`, `bignum`, `landmark`, `streaming`, `engine` | from samples to fingerprints |
| `triplets`, `affine` | fingerprints that survive a change of speed |
| `hash`, `ids`, `version`, `config` | identities and parameters |
| `postings`, `matcher`, `ratio`, `sort` | the matcher |
| `bytes`, `segment`, `manifest`, `posting_store`, `sfp`, `wav` | formats |
| `recognition`, `limiter`, `server`, `api_error`, `youtube`, `text` | the server |
| `decode`, `ingest` | the catalog |
| `rng`, `degradation`, `bench`, `calibrate`, `report`, `stats`, `loadgen` | benchmarks |
| `legacy` | the first-generation engine, kept as the benchmark's control |

Laws that relate several functions are public proof functions whose names
begin with `law_`.
