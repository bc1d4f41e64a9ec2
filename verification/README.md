# adaptive_network

A simulated network of nodes that watch their own load and safety. A node asks a prediction model
what to do, puts every proposal to a supervisor, shares load with its neighbours, votes on
neighbours that look compromised, leaves the network when two thirds of them vote against it, and
comes back by a quorum. Attack scenarios can be set to work on the nodes and are taken back when
they are over; virtual links bridge nodes that have gone silent.

* `src/` is the library, written in Verus. It makes all decisions and does no input or output: a
  tick of the network runs in three steps, and the questions for the prediction models are handed
  out between them.
* `tests/` runs the library.
* `app/` is the program around it: the models as child processes, the log files, the settings file
  and the web page.

Numbers that the prediction models deal in are single-precision: `single.rs` holds the IEEE 754
arithmetic, proved down to the rounding. The functions of the library state their results
over ghost views of its types (`NodeView`, `NetworkView`, and so on): exactly, but for the nodes that a
random target picks. Laws about them are the proof functions whose names begin with `law_`.
