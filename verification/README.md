# demixer

Building blocks of a context-mixing file compressor aimed at high
compression ratios, written in Rust and verified with Verus.

## Layout

- `src/bit.rs`: the binary symbol.
- `src/fixed_point/`: fixed-point numbers over `i16`..`u64` with exact
  rounding specifications (multiplication rounds to nearest, halves away
  from zero).
- `src/util/`: FNV-1a hashing, index builders for multidimensional tables,
  byte permutations, quantizers and the cache of the last bytes.
- `src/random/`: the 64-bit Mersenne Twister.
- `src/estimators/`: probability estimators (fixed-speed and decelerating)
  and cost trackers.
- `src/lut/`: look-up tables (logarithms, stretch, squash, estimator rates,
  adaptive probability map weights).
- `src/history/`: the history of the input as bit contexts: an input window,
  context states, a naive scanning source, a hash-map source and a binary
  suffix tree source with integrity checks.
- `src/mixing/`: mixers and adaptive probability maps.
- `src/predictor/`: kits of estimators and mixers selected by context, the
  predictor of a single context order, the chain of orders that mixes their
  predictions, the final refinement of predictions, the coding statistics,
  and the whole predictor (`Predictor`) that runs them bit by bit. Each
  order's estimator, direct prediction, bits runs and new cost trackers are
  handed to the chain and the predictor as arguments, one per order.
- `src/entropy/`: the binary arithmetic encoder and decoder.
- `app/main.rs`: a command line tool that estimates how well a file
  compresses with the predictor, feeding it neutral values for the parts
  above.

## What is proved

Every function in `src/` has a contract. Among the properties proved:

- decoding a sequence of coded bits and rare events gives back exactly what
  was encoded, and reads exactly the encoder's output
  (`entropy::round_trip::lemma_decoding_inverts_encoding`);
- each update of the suffix tree is stated step by step: taking a bit in
  (`history::tree::extend_trace`), dropping the oldest suffix
  (`history::tree::removal_effect`) and starting a byte
  (`history::tree::shift_effect`);
- the hash-map history source, fed the same input as the naive scan, keeps
  every context's state equal to the scan's, and gathers the scan's states
  (`history::fat_map`: `mirrors_scan`, `lemma_gather_matches_scan`);
- the predictor's parts stay in step: between a prediction and its update
  the chain and the finalizer wait for that update, otherwise they rest
  (`predictor::Predictor::wf`), and each step of the predictor is stated
  through the steps of its parts;
- a mixer's update moves each weight towards the coded bit's side of its
  input's prediction, within `[-8, 8]`
  (`mixing::mixer::lemma_weight_update_direction`);
- fixed-point multiplication is commutative and odd;
- stretch is odd about one half, squash of zero is one half and the
  logarithm table's computation gives `log2(1/2) + 1 == 0`;
- the coding statistics add up (the total cost is the sum of the costs by
  context class and by byte value);
- the cache of the last bytes shows the bits recorded so far and moves
  finished bytes up (`util::last_bytes::lemma_recorded_byte`).
