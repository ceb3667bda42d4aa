# wbdd

Whole-body trajectory generation for a mobile manipulator: a differential-drive
base carrying an arm. Waypoint poses of the end effector are interpolated, solved
pose by pose with differential inverse kinematics, and optimized as a whole under
the base's no-lateral-slip constraint, joint limits and joint velocities.

`src/` is the library, verified with Verus:

- `rounding`, `double`, `arithmetic`: IEEE-754 binary64 on bit patterns, so that
  contracts can say which number comes out; `vector`, `matrix`, `text` on top.
- `reals`, `forms`, `error`, `quotients`, `range`, `finiteness`: real algebra, how far
  a rounded result is from the real number it stands for, and when it is finite.
- `series`, `products`: sums in a fixed order, and the products of a Jacobian with
  its transpose.
- `configs`, `pipeline`: the settings and the order of the stages.
- `path`, `connection`, `tangent`, `corner`: interpolation, with corners rounded by
  tangent arcs, that the pieces connect, and how near they come to each other.
- `limits`, `kinematics`, `active_set`: joint limits, the differential-IK loop and
  the logarithm of a rigid motion, and an active-set solver for one step;
  `logarithm`, `small_angle`, `round_trip`: that the exponential undoes it, and how
  nearly.
- `qp`: quadratic programs and their conic form.
- `linearization`, `cost`, `constraints`, `subproblem`, `symmetry`, `definite`: one
  SQP subproblem, whose quadratic term is symmetric and positive definite.
- `merit`, `sqp`, `run`, `trajectory`: the states of a run, what leads from one to
  the next, and what holds along every run.
- `diagnostics`, `slip`, `differences`: pose errors and lateral slip of a solved
  trajectory, what slip and progress are in real numbers, and that their partials are
  central differences.

Forward kinematics, trigonometry and the interior-point solver compute with
machine floating point. They are handed to the library as functions, and live in
`app/`, with configuration files and the viewer. Nothing in `src/` is trusted.
