# Bubble simulation

A live lattice simulation of bubble nucleation and growth in a first-order
cosmological phase transition: a scalar order parameter coupled to a relativistic
plasma, evolved on the graphics device and shown as a ray-marched volume.

The lattice lives on the device for the whole run.  What the host decides about it
stands in `src/` and is verified with Verus; `app/` talks to the device, the window
system, the file system and the command line.

| module        | what it holds                                                        |
|---------------|----------------------------------------------------------------------|
| `scalar`      | single-precision numbers as patterns, with correctly rounded arithmetic |
| `rounding`    | rounding to the nearest, ties to even, on whole numbers               |
| `accuracy`    | how far computed numbers lie from exact ones                          |
| `physics`     | the model, its derived quantities and the nucleation schedule         |
| `potential`   | what a model describes: the potential, the critical bubble and its wall |
| `torus`       | distances in the periodic box against those to the nearest image      |
| `random`      | the generator behind bubble placement                                 |
| `config`      | a run's configuration: reading sizes, checking it                     |
| `text`        | text as sequences of characters                                       |
| `gpu::resources` | buffers, bind groups, pipelines, and what each of them binds       |
| `gpu::sim`    | the simulation: parameter blocks, time steps, diagnostics             |
| `gpu::preprocess` | resolving the directives in shader sources                        |
| `gpu::render` | what the volume renderer is told                                      |
| `gpu::vram`   | device memory and what a lattice may take of it                       |
| `gpu::bytes`  | words as bytes                                                        |
| `camera`      | the orbit camera                                                      |
| `capture`     | a rendered frame as a PNG file                                        |
| `headless`    | a run without a window                                                |
| `ui`          | what the control panel offers and decides                             |
| `session`     | input, the frame clock, and what a frame does                         |

The library never touches the device.  A simulation appends `Command`s to a list,
and the application carries them out one for one.  Sines, logarithms, cube roots and
matrix inverses have no specified precision, so the application computes them and
hands the results over as numbers.

Functions named `law_*` state what holds of the library as a whole.
