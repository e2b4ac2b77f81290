# leptos_chartistry (verified core)

The logic of a Leptos charting library, verified with Verus.

- `src/colours.rs`: colours, their `#RRGGBB` notation, colour schemes and the
  built-in palettes.
- `src/order.rs`: IEEE-754 `<` and `total_cmp` stated on `f64` bit patterns,
  with their laws.
- `src/series.rs`: the collected points of a chart's series, their extremes,
  range bounds, the nearest-point look-up and each series' positions.
- `src/line.rs`: where a line's path starts, continues and breaks.
- `src/tooltip.rs`: the tooltip's rows: skipping missing values, the stable
  sorts, and the placeholder texts.
- `app/`: the Leptos signals, `f64` positions (`Position` for `f64` and
  `chrono::DateTime`), path and cell formatting around the library.
- `tests/`: tests of the library on concrete values.
