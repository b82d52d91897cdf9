# lenia_3

A Lenia (continuous cellular automaton) simulator with an egui front end.

- `src/` is the verified library. It holds everything that is integer or
  structural logic: the parameter enums and their labels and archive codes
  (`lenia`), toroidal index wrapping, kernel side and beta-list rules, the
  cells a brush or a food blob touches (`lenia`), a rectangular `Grid<T>`
  with centred copying (`grid`), the archived species cell format and the
  shell-weight list syntax (`species`, with character helpers in `text`),
  and the front end's discrete rules: world resizing, explorer moves on
  kernel side and peak count, and food placement (`frontend`).
- `app/` is the executable: the floating-point simulation math (kernels,
  convolution sums, growth functions), the curated species table, the egui
  user interface and the C ABI entry point `run_lenia`. It calls the library
  for every index, range and parsing decision.
- `tests/` exercises the library on concrete values.
