# dreamer

Trains agents in small visual worlds: a world model learns from replayed episodes, and an actor and
a critic learn from what it imagines. One world model has a single state; another has a state for
each object in the scene.

- `src/` is the verified library: mazes, pictures and how they are drawn, the course of physics
  worlds, replay memory, settings, the training schedule, the sizes of networks, and metrics.
  Whatever works on real numbers takes them through closures, so that the order of steps is proved
  for any arithmetic.
- `app/` is the program: tensors, floating-point physics, the graphics device, files and the
  environment. It hands the library plain values and closures, and does what the trainer commands.
- `tests/` runs the library on concrete values.

Pictures live in the `image` crate's buffers and random draws come from `rand`; the few functions
that call them state what they rely on.
