# joy_of_mixing

Finds dye recipes for the "Joy of Painting" colour mixing rules: colours are
mixed by averaging their channels and scaling the average by an integer gain,
and a target colour is approached by repeatedly mixing inside a tetrahedron of
already available colours that contains it.

The library in `src/` is written in Verus. Its functions carry contracts that
Verus proves, with two exceptions that are trusted rather than proved: the
wrappers `index_combinations_4` and `index_multisets` in `choice.rs`, which
call `itertools`' `array_combinations` and `combinations_with_replacement`
and whose contracts state what those functions yield.

- `color.rs`: colours, hexadecimal notation, squared distance, the dye table.
- `mixing.rs`: the mixing rule (`MixedColor`) and its laws.
- `bounds.rs`: tetrahedra of colours, their volume, the inside test, and their
  laws (vertex order, flatness).
- `choice.rs`: the enumeration of index tuples behind every search.
- `search.rs`: the closest acceptable mix of a set of colours.
- `finder.rs`: the whole search for a recipe and its soundness.
- `colormap.rs`: a map keyed by colours; the values live in a std `HashMap`
  keyed by each colour's `0xRRGGBB` value, and the keys are also kept in
  insertion order.
- `recipe.rs`: the order in which a recipe and its intermediate colours are listed.

`app/` holds the command line front end, and `tests/` the tests.
