# libsais

Suffix arrays, Burrows-Wheeler transforms and longest common prefix arrays by induced
sorting, written in Rust and verified with Verus.

## What is proved

* The suffix array functions (`libsais`, `libsais_gsa`, `libsais_int` and their `_ctx` and
  `_omp` forms) return the suffix array of their text, and exactly the documented error codes
  otherwise. This is a proof of induced sorting itself, from the first count to the last scan and
  through the recursion, for byte texts, separated texts and integer texts.
* The transform functions (`libsais_bwt`, `libsais_bwt_aux`) return the transform, its primary
  index and its samples, which the last scans induce in place of the order. The inverse functions
  (`libsais_unbwt`, `libsais_unbwt_aux`) give back every text from its transform.
* The prefix length functions (`libsais_plcp`, `libsais_lcp` and their forms for integer and
  separated texts) return the lengths that neighbouring suffixes share.
* Every building block of induced sorting - the passes that count and gather suffixes, set
  bucket bounds, radix sort, induce orders, name substrings, compact and merge reduced texts -
  does exactly what its specification says, for every input on which it is defined. Where
  several workers share a pass, this covers what each of them is left with.
* What holds across functions: a text comes back from its transform with or without its
  frequencies, samples are ranks, a context sorts as none does whatever it has served for before,
  one pass counts and gathers what two do, and the number of workers changes no suffix array, no
  transform and no text that comes back.
* Why induced sorting works: bucket bounds, the scans, the names of substrings, the reduced
  text and the way back from its order, for byte texts, for separated texts and with one, two,
  four and six buckets for each symbol.

## Layout

* `src/order.rs`, `src/kinds.rs`, `src/laws.rs`: suffix order, suffix types, and what holds of
  the results as a whole.
* `src/effects.rs`: what the passes over marked, named and cached entries do, in closed form.
* `src/bounds.rs`, `src/recount.rs`, `src/lengths.rs`: what counts and bucket bounds say.
* `src/induction.rs`, `src/induction_8u.rs`, `src/sampling.rs`, `src/placement.rs`,
  `src/spreading.rs`, `src/ordering.rs`: from sorted LMS suffixes to the order of all suffixes,
  or to the transform and its samples.
* `src/substrings.rs`, `src/partial_induction.rs`, `src/scattering.rs`, `src/listing.rs`: why the
  partial scans sort LMS substrings.
* `src/ties.rs`, `src/lanes.rs`, `src/fields.rs`, `src/segments.rs`, `src/lane_left.rs`,
  `src/lane_turn.rs`, `src/lane_right.rs`: the partial scans that mark where substrings change.
* `src/naming.rs`, `src/name_order.rs`, `src/mark_names.rs`, `src/lane_names.rs`,
  `src/reduction.rs`: names of substrings, and why the reduced text has the order of the LMS
  suffixes.
* `src/compaction.rs`, `src/restoring.rs`, `src/rebuild.rs`, `src/lane_restoring.rs`: what is left
  out of the reduced text, and the way back from its order.
* `src/one_bucket.rs`, `src/two_buckets.rs`, `src/four_*.rs`, `src/six_*.rs`, `src/byte_*.rs`,
  `src/separators.rs`, `src/separated_*.rs`, `src/integer_sort.rs`: induced sorting from end to
  end, for every kind of text and of buckets.
* `src/api.rs`, `src/plcp.rs`, `src/unbwt_api.rs`, `src/context.rs`: what callers use.
* `src/main_8u.rs`, `src/main_32s.rs`: the sorting pipelines.
* `src/gather.rs`, `src/buckets.rs`, `src/radix.rs`, `src/partial_8u.rs`, `src/partial_32s.rs`,
  `src/renumber.rs`, `src/compact.rs`, `src/place.rs`, `src/final_scan.rs`, `src/block_8u.rs`,
  `src/block_32s.rs`, `src/orders.rs`: the building blocks.
* `src/blocks.rs`, `src/shares.rs`, `src/tallies.rs`, `src/desks.rs`, `src/walks.rs`,
  `src/gather_omp.rs`, `src/sweeps.rs`, `src/sweeps_32s.rs`: passes that several workers share,
  block by block, and what each worker notes.
* `src/rows.rs`, `src/unbwt_tables.rs`, `src/unbwt_parallel.rs`, `src/unbwt.rs`: inverting
  transforms.
* `app/`: contexts for as many workers as the machine offers.
* `tests/`: tests on concrete values.
