# node_editor

A small terminal node editor. Nodes ("New number", "Repeat string") have typed input
sockets and one output; sockets are connected into an acyclic graph, and a node is
evaluated on demand. Commands typed at the prompt:

    calc_out {node id}                       evaluate a node and show its value
    pos {node id} {x} {y}                    move a node
    con {from node id} {to node id} {index}  connect, disconnect or reconnect a socket
    set_val {node id} {index} [{value}]      set the value a free socket holds (without a
                                             value: 0, or the empty text)
    add_node {node title}
    del_node {node id}
    save {path without extension}
    load {path without extension}
    autosave on | autosave off
    q

## Layout

- `src/` is the library, verified with Verus:
  - `value.rs`: data types and values, reading a value from text;
  - `template.rs`: the kinds of node and the nodes they make;
  - `editor.rs`: sockets, nodes, the editor and its operations (connecting with a loop
    check, disconnecting, removing, evaluating), with the editor's well-formedness;
  - `command.rs`: reading a command line and carrying the command out;
  - `layout.rs`: what is drawn (text areas, node boxes, connection lines);
  - `consistency.rs`: checking that an editor read from a file is well formed;
  - `laws.rs`, `typing.rs`: properties that hold across the operations.
- `tests/`: tests of the library.
- `app/`: the terminal front end: saving and loading with `bincode`, drawing with
  ANSI escapes and `colored`, and the command loop.
