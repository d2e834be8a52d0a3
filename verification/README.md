# fashion_mnist_rust

A from-scratch Fashion-MNIST classifier (dense layers, dropout, Adam)
whose integer and text logic is a Verus-verified library.

## Layout

- `src/` — the verified library:
  - `rng.rs` — the xorshift64 generator (zero seeds replaced, draws
    never zero, same seed same sequence);
  - `training.rs` — Fisher-Yates shuffling of images and labels
    together, batch bounds, packing a batch into one block, the epoch
    progress bar;
  - `metrics.rs`, `report.rs` — the confusion matrix, per-class counts,
    the worst-to-best class ranking and the aligned text table;
  - `text.rs` — lines, fields, whitespace-separated words and decimal
    numbers on UTF-8 bytes, with the same rules as `str::lines`,
    `str::split`, `str::split_whitespace` and `usize::from_str`;
  - `dataset.rs` — the CSV layout of the dataset files;
  - `weights.rs` — writing and reading the plain-text weights format,
    with the round trip proved;
  - `drawing.rs` — the draw-and-predict grid: commands, edits, display
    and upscaling to 28 x 28;
  - `activation.rs` — the activation kinds.
- `app/` — the program around it: file and terminal I/O, and everything
  that computes with `f64` (matrices, activations, loss, optimizers,
  the network, parsing and printing of floating-point values).
- `tests/` — tests of the library.
