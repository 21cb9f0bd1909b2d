# rosu_pp: verified bookkeeping of the osu! aim and reading skills

`src/` is a Verus library. It holds the decisions of the difficulty
calculation that do not depend on floating-point arithmetic, each with a
contract proved by Verus:

- `object`: the timing record of a difficulty object (times in microseconds).
- `evaluators::reading`: which earlier and later objects are visible around an
  object, and how far back the constant-angle check walks.
- `evaluators::snap_aim`: how many earlier objects the angle-repetition check
  weighs.
- `skills::strain`: strain peaks (lengths rounded to whole milliseconds) and
  the split of the highest stored sections, up to four seconds of them, into
  20 ms chunks; the result does not depend on the order of the sections.
  Also the choice of the positive strains, highest first, before weighting.
  Strains are compared as the floating-point operators compare them (NaN is
  never greater, the two zeros are equal).
- `skills::aim`: the strain sections of the aim skill — opening, back-filling,
  queueing, storing and trimming the lowest sections — with the invariant
  every operation keeps (among it: no section lasts more than 400 ms).
- `skills::reading`: the count of notes in the first minute.

Strain values cross into the library as order keys (`STRAIN_ZERO`).

`app/` holds the floating-point formulas of the evaluators and skills and
drives the library: it converts times to microseconds and strains to keys,
runs the back-fill loop, and weighs the results.
