# legato

The graph-building and MIDI layer of a modular audio engine, written in Verus
with every function in `src/` verified by Verus against its contract. The
calls into `std` and `indexmap` go through small trusted wrappers whose
contracts say only what those libraries document.

- `midi`: the MIDI wire format (`parse_midi`, `MidiMessage::encode`, with the
  round trip between them proved), the fixed-capacity per-channel message
  store, port selection by name or index and the MIDI-to-clock offset.
- `voice`: polyphonic voice allocation.
- `resolve`: the broadcasting rules that match source and sink selections.
- `kernel_plan`, `kernel_emit`: per-sample kernel planning — port resolution,
  stable per-node seeds, the execution order (a permutation that runs every
  source before its readers except along edges that close a cycle) and the
  text of generated input expressions.
- `plan`: resolution of a kernel definition into a backend-independent plan
  — which nodes exist, what feeds each input port, the depth-first run order
  and which reads cross a cycle and see the previous sample (none, when the
  body has no cycle) — with template substitution and param provenance.
- `lower`, `expand`: lowering a macro definition into its body graph and
  virtual inputs, and expanding a macro reference in place.
- `ir_graph`: the graph IR (nodes in an `IndexMap` under stable ids, edges,
  alias index) with edge splicing, node removal and the Kahn topological sort.
- `runtime`, `builder`, `names`, `ports`, `node`, `nodes`, `harness`: the
  node/edge store, the typestate graph builder with its fan-out and fan-in
  wiring, name lookups, port layouts and the nodes' identifying state.

`app/` holds the system MIDI I/O (`midir` ports, `crossbeam` channels and the
writer thread) around the library. The per-sample DSP is floating point and
is not part of this crate.
