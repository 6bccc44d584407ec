# markov_rs

First-order Markov chain library with KL divergence analysis.

- `src/` is the verified integer core: transition counting
  (`baseline`), the frozen count matrix with sorted, unique columns, the
  sliding-window live tracker whose per-pair counts mirror its window
  (`live`), the integer total used by Laplace smoothing (`kl`), and the
  counting facts that tie them together (`tally`).
- `app/` is the floating-point layer on top of it: Laplace smoothing, KL
  divergence, smoothed baseline rows, and the divergence scores of the live
  tracker.
- `tests/` exercises the verified core.
