# aircraft_router_planner

A planner of low-altitude routes for one or more aircraft: start, places to pass and
target, round no-fly zones and obstacles, below, above or round restricted zones, clear
of terrain and away from radars. Its decision core is verified with Verus.

## Layout

- `src/` is the library. Every item in it is verified.
- `app/` is the command line program round it: arguments, files, JSON, and the search
  for a way over the grid.
- `tests/` runs the library on concrete values.

## Numbers

`src/scalar.rs` holds IEEE 754 doubles as bit patterns. Sum, difference, product,
quotient and square root are the exact results rounded once, and so proved
(`rounding.rs`, `arith.rs`, `root.rs`). What the library cannot compute itself reaches it
through functions that its callers pass in (`oracle.rs`): trigonometry, geodesic
distances, terrain, radars, and the search over a grid of costs (`task.rs`). All that is
asked of such a function is one answer to one question; the contracts say what is made of
the answers.

## What is proved

- Requests are accepted or refused for exactly the reasons given (`validate.rs`).
- The grid that a vehicle searches is closed and costs what its zones, terrain and radars
  make it; walls are closed at every height (`field.rs`, `cost.rs`, `ground.rs`).
- Smoothing, turning circles, arcs between parts and passages of restricted zones give
  exactly the routes described (`smooth.rs`, `dubins.rs`, `boundary.rs`, `profile.rs`).
- No route that breaks the rules is delivered without a warning (`plan.rs`).
- Planning is repeatable, and the heights given for walls do not matter (`twice.rs`).
- The middle of a cell of the grid lies in that cell, after all rounding (`cell.rs`).
- Required places stay on the route: where parts meet, after joining, and in the plan that
  is delivered (`places.rs`). A spline and a fitted curve reach their ends but for a small
  distance (`arrival.rs`), and so does each part of a fixed-wing route (`reach.rs`).
- A convex hull covers the points that it was made of, but for rounding (`cover.rs`), and
  holds them on the inner side of every side of it where no three of them lie nearly on a
  line (`hull.rs`).
- Changes of height at restricted zones take the ground that the aircraft needs for them
  (`slope.rs`).

Some facts need a true sine, cosine, tangent or direction. Each is asked for as a premise
of the proof, with the error that it may have:

- The samples of a curve of turning circles run from end to end (`ends.rs`).
- The way back between two poses is there when the way there is, and as long, where no
  path is so near to its limits that rounding could tip it; on a turn on the spot always
  (`back.rs`, `loops.rs`).
- On the central meridian, a transverse Mercator projection and its inverse give back the
  place but for 1e-7 degrees (`meridian.rs`). Away from it this is not proved.

The public proof functions named `law_*` state what holds of the library as a whole.
