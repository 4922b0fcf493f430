# bayesian_visualizer

A verified library behind a visual editor for Bayesian graphical models: nodes
(random variables, scalars, deterministic operations) linked into a graph, plates
that repeat parts of the graph over the rows of a dataset, and the views that show
posterior samples after inference.

`src/` holds the library, proved with Verus:

- `graph_ir`, `graph_checks`, `cycles`: the graph, dependency cycles, topological order.
- `plate_validation`, `normalize`, `scopes`, `plate_errors`: plate containment, the
  normalized plate tree, and the rule that values only flow into the same or a nested plate.
- `plate_geometry`: the plate layout derived from rectangles drawn in the editor.
- `compilation`: assembling the graph from the editor's nodes and plates, compiling it
  into a model plan, and deciding when moved nodes change the compiled model.
- `model_plan`, `instance_plan`, `model_values`, `distributions`: the plan of every node
  instance in evaluation order, and the values a model execution produces.
- `inference`, `inference_run`: the state machine of an inference run and the posterior
  samples of each node instance.
- `posterior_views`, `selection_groups`, `linked_samples`, `joint_samples`: pooling,
  brushing, weighting samples linked across views, and pairing samples of two nodes.
- `sample_selections`, `histogram_controls`: the selections the user keeps, the number
  of histogram bins, and what the histogram panel shows.
- `datasets`: the columns of a dataset read from CSV text.
- `expressions`, `reduced_view`, `plate_mapping`, `presets`, `numbers`, `sidebar_layout`,
  `node_labels`, `editor_events`, `text`, `util`: expression text of compute nodes, the
  reduced view of random nodes, the rows of a plate's sidebar, checks of bundled presets,
  reading user-typed numbers, node names and labels, the editor's reactions to clicks and
  edits, and helpers.

`app/` is a command-line front end: it reads the CSV datasets, builds a bundled
preset, runs the model with `fugue` and prints posterior summaries. Floating-point
arithmetic (distributions, histograms, statistics, geometry sizes) lives there.

`tests/` exercises the library on concrete values.
