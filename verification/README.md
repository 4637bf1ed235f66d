# ant_colony

Ant colony optimisation for the travelling salesman problem: pheromone
management, the Ant Colony System, the MAX-MIN Ant System and a basic solver
with elitist ants.

- `src/` is the verified core (Verus): `tour` (an ant's walk through the
  graph, the edges of paths and closed tours), `pheromone` (the square
  pheromone matrix and its cell updates), `rng` (the seeded generator).
- `app/` holds the floating-point side: distances, trail arithmetic, the
  roulette-wheel choice, tour lengths and the ACS, MMAS and TSP runners,
  all built on the verified core.
- `tests/` exercises the core.
