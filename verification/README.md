# robot_grid

Solvers and judge tools for a puzzle on a 30 by 30 board: robots stand on distinct cells
and must reach their own destinations. A solution may add walls, put the robots into
groups, and then list actions, each moving a whole group or a single robot one cell up,
right, down or left. A robot stops at the border, at a wall and at another robot; a group
moves its robots front first. The score is the number of actions plus 100 for each cell
of distance left between a robot and its destination.

The library (`src/`) is written in Verus and verified:

- `grid`, `problem`: the board, the instance as the solvers see it, actions and solutions.
- `tools`: the judge: reading and writing instances and solutions, replaying a solution
  and scoring it; `generator` makes random instances with a connected board.
- `solver::naive`, `solver::naive_fast`: greedy solvers, the second with a bit-parallel
  breadth-first search (`search` states what that search computes).
- `solver::rand_greedy`, `solver::anneling`, `solver::clustering`: the decisions of the
  randomised searches (group moves, neighbours of a state and how they are undone).
- `judging`: the solver's solutions in the judge's format, and the proof that the judge
  replays them exactly as the solver's model does.
- `rng`: the random number generators of `rand_pcg` and `rand_chacha`, with what is
  assumed of them.

`app/` holds what stays outside the proofs: reading standard input and files, the time
limits, the floating-point acceptance rules of the annealing searches, and the SVG
drawing of a solution. `tests/` runs the library on concrete instances.
