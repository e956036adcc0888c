# geofast

A planner for aerial spraying: given the boundary of a field it finds the lines
to fly, the order in which to fly them, and how long the job takes.

The library is written in Rust and verified with Verus. Every function states
what it returns, and laws over several functions stand next to them as public
proof functions whose names begin with `law_`.

## Numbers

All numbers are IEEE 754 doubles. `double.rs` holds a double as its bit pattern
and computes with integers; its contracts say that every sum, product, quotient
and remainder is the double nearest to the exact result. So what the planner
decides on numbers is decided exactly as on the machine's own doubles, and can be
proved.

Sines, hypotenuses, boolean operations on polygons, geodesics and the reading of
decimal numbers come from outside. Functions take them as arguments
(`tools.rs`). A contract says: whatever function the argument computes, the
result is the one that follows from it.

## Layout

- `double`, `rounding`, `order`, `whole`, `arithmetic`: doubles
- `sorting`, `perms`, `groups`: sorting, permutations, clusters
- `geom`, `rings`, `boundary`, `turning`: points, polygons, what boundaries share,
  and how far off a turn is
- `params`, `cost`: the constants of an aircraft and what plans cost
- `scanline`, `plan`, `search`: lines in one direction, and the best direction
- `cells`, `merge`, `decompose`, `field`: planning cell by cell and part by part
- `traverse`, `ordering`, `exact`: the order of blocks, and how near it is to the
  cheapest
- `simulate`, `account`, `spraying`: the flight, what its totals are made up of, and
  how far they are off
- `markup`, `ingest`, `lines`: KML texts, and places on the earth
- `app/`: the outside functions, reading files, and the Python module
