# Swiss cheese

A procedurally carved cheese wheel, with the carving verified in Verus.

A wheel is an implicit field that is negative inside the cheese: a cylinder, minus a
wedge, minus a number of bubbles. The field is sampled on a grid, and its zero
surface is extracted as triangles by naive surface nets. No mesh is ever cut: every
subtraction is a maximum on the field, which stays robust where a bubble straddles a
flat cut.

Bubbles are scattered by a hash of the wheel's seed and the bubble's index. The same
seed gives bit-identical bubbles.

## Layout

* `src/` is the library. Every function in it is verified, except the two in `mesh`
  that call Bevy (`triangle_list` and `texture_origin`): their contracts are trusted.
  * `scalar`, `rounding`: single-precision numbers as bit patterns: their order, and
    correctly rounded counts, quotients and products.
  * `scatter`: the hash and the bubbles.
  * `wheel`: the measurements of a wheel, and how its field is put together.
  * `grid`, `scan`, `sums`: grid points, walks over them in nested loops, and sums.
  * `nets`: surface nets over any field.
  * `surface`, `closed`, `turned`: laws of every surface net. Each cell that the
    surface passes through owns one vertex, each crossed inner edge gets two
    triangles, triangles face outward, a surface that stays within the grid is
    watertight, and negating the field turns every triangle round.
  * `mesh`: a wheel's net as a Bevy mesh.
  * `lattice`: the recipes for a cube of 125 wheels, from a whole round to a sliver.
* `app/` is a Bevy program that shows the lattice. It computes distances and
  positions in floating point and hands them to the library as bit patterns.
* `tests/` runs the library on concrete values.
