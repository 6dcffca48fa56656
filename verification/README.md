# relm4 factory vector, verified

`FactoryVec` is a vector of model data that records, for every slot, which
widget has to be added, removed, recreated or updated so that a view mirrors
the data. The library is written in Verus.

- `src/changes.rs` — the change kinds, the consistency of pending changes with
  the data and the widgets, the widget operations a generation carries out,
  and the laws about them.
- `src/factory_vec.rs` — the container itself; its invariant is a type
  invariant, and it tracks in ghost state the value each widget shows.
- `src/macro_util.rs` — the naming helpers of the view macros.
- `app/` — plain Rust around the library: carrying out widget operations on a
  view, and building `syn` syntax trees and identifiers.
- `tests/` — tests of the library, with a row of labels standing in for a view.
