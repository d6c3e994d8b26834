# ares_features

The inputs of a chess evaluation network: for each player the squares of the pieces, in buckets of
the player's own king, and the threats between pieces. Positions come in the packed format of the
`bulletformat` crate.

- `src/` is the library, verified with Verus.
  - `types`, `bits`, `geometry`: pieces, squares, sets of squares, and how pieces move.
  - `attacks`, `subsets`, `magics`, `collisions`, `tables`: attack tables with magic numbers, proved
    to hold exactly the squares that each piece attacks.
  - `reach`, `threats`: the numbering of threats.
  - `packed`, `board`, `features`, `inputs`: from a packed position to its pairs of features.
  - `premapped`, `precompute`: records of features computed beforehand.
  - `text`, `fen`, `corpus`, `roundtrip`: positions as text, lists of positions with their features,
    and what is checked with them.
  - `laws`, `bounds`, `turned`, `mirrored`, `sorting`, `sums`: what holds of the features of every position.
- `tests/` runs the library on concrete positions.
- `app/` reads and writes files.

What the library states without proof is small: the number of ones in a word, a sort, what the
packed positions hold, and that a text always gives the same packed position.
