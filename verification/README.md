# aili

A library for visualizing the state of a running program: it builds a graph of
the program's state from a GDB session, and styles that graph with stylesheets
whose selectors match paths in it.

Every function of the library is verified with Verus against a contract,
except a few trusted wrappers around calls into std and the `regex` crate,
whose contracts are stated beside them. Properties that span several calls
are stated either as lemmas or in the contracts of the functions they concern.
Where such a property depends on GDB's answers, only the steps that `app/`
drives are proved, not the loop that drives them.

## Layout

- `src/model`: the program state graph model (edge labels, node values and
  their order) and the traits of the visualization model.
- `src/gdbmi`: the GDB/MI output grammar, result decoding, the commands the
  library sends and how their answers are read.
- `src/gdbstate`: the state graph of a program under GDB, the steps that build
  and update it, and the parsing of values and type names that GDB prints.
- `src/parser`: the stylesheet language: lexer, grammar with error recovery,
  symbols, and the filter that keeps error reports from cascading.
- `src/style`: stylesheets, their expressions and selectors, the compilation
  of selectors to state machines, their resolution along the graph, and
  variable pools.
- `src/text.rs`: character-level helpers shared by the parsers.
- `app/`: the asynchronous plumbing: the interfaces through which a GDB
  session is reached, and the loops that drive the graph's update steps.
- `tests/`: tests of the library.
