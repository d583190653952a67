# agent-riff-v3

Riff sessions for agents that improve each other's work, written in Verus: the
behaviour of every function written out here is stated in its contract and
proved. What `derive` writes has no contract: among others `Clone` for `Riff`,
`Round`, `SpecGenerator`, `BootstrapVerifier`, `GrowthCheck`, `SnowballTracker`
and `MultiSpecSession`.

- Agents riff on several specs at once, and what is found for one spec is
  shared with the others (`session`, `riff`).
- A memory counts what worked for which agent in which response mode, and
  predicts the best pair before a riff is played (`memory`).
- A generator proposes specs for a domain and ranks them (`generator`).
- Each generation is checked (`bootstrap`) and measured against the one before
  it (`snowball`).
- Balanced ternary digits are packed sixteen to a word (`ternary`).

## Numbers

Surprise, scores and rates are `Binary64` values: the bits of an IEEE 754
binary64 number, with arithmetic on integers (`binary64`, `rounding`). The
contracts say that every result is the exact one rounded to the nearest number,
ties to even. `order` proves how rounding respects order, which the laws of the
other modules rest on. Callers convert with `f64::to_bits` and
`f64::from_bits`:

```rust
let surprise = Binary64::from_bits(0.7f64.to_bits());
session.riff(0, Quality::Strong, surprise);
```

## Maps

Maps with text or pairs as keys are `Dictionary` values, which keep their keys
in the order in which they came (`dictionary`).

## What is taken on trust

`text::lowercase`, which calls `str::to_lowercase`.
