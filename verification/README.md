# final_project

A verified library in Verus with two parts.

- `calc`: byte length and concatenation of strings, sums and filtered
  products over slices, checked division and addition, integer parsing, and an
  evaluator for expressions `a op b`.
- The decision logic of a concert ticket platform:
  - `tickets`: the inventory, the orders of front-end producers, and the
    central ticket office that sells or rejects each order, with proofs that no
    ticket is sold twice and that sold + remaining stays the initial inventory;
  - `analytics`: sales figures gathered sequentially or with rayon's parallel
    fold and reduce, with a proof that every way of splitting the work gives
    the sequential result;
  - `cli`: the command-line settings.
- `text`: character-level models of trimming, decimal syntax and splitting.

`app/` is the program around the library: threads and channels between the
producers and the ticket office, timing, and printing.
