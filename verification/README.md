# tsp_annealing

A travelling-salesman solver that weighs distance against travel time: a
nearest-neighbour tour, improved by simulated annealing over 2-opt moves,
compared with the best of a list of known cost pairs.

* `src/` is the verified library (Verus): the tour construction and the 2-opt
  move, the route state of the annealing search, the choice of the best cost
  pair, and the two input text formats.  Travel costs enter it as integer
  keys that order them.
* `app/` is the program around it: configuration (JSON), file reading,
  the floating-point costs, distances and the annealing schedule.
* `tests/` exercises the library.
