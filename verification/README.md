# burn

The Burn scripting language, verified with Verus: a lexer, the syntax tree,
name resolution, storage allocation, a bytecode compiler, and the machine that
runs the bytecode, with the values and operations that the compiled code works
on.

Layout:

- `src/parse`: tokens, the lexer, literals and the syntax tree.
- `src/vm/analysis`: name resolution (`resolution`, with what it establishes
  in `scope`, `linkage` and `unresolved`) and storage allocation (`allocation`).
- `src/vm/bytecode`: opcodes, what each construct compiles to (`emission`),
  the compiler, a checker of what can be compiled, and the bounds of compiled
  code.
- `src/vm/run`: the machine: its state and what one step does (`machine`),
  and taking steps (`cpu`).
- `src/lang`, `src/builtin`: identifiers, values, types, modules, the
  built-in modules and the intrinsic operations.
- `app`: the command-line program around the library.

Main results, proved by Verus:

- the lexer reads each token as its spelling says, and always moves forward;
- name resolution ties each variable to the innermost declaration of its name,
  and every closure binds what the frame around it reaches (lexical closure);
- name resolution reports exactly the uses whose name no block around them
  declares (`unresolved`), one "Variable not found" error each, in order, and
  `compile` fails exactly when there is one;
- allocation numbers the slots of each frame densely and without clashes, and
  the bound slots of each closure likewise, and gives a variable one shared
  cell whenever it can change after a closure binds it;
- when `compile` succeeds, it returns exactly the code that `emission`
  describes, with the root frame that runs it, and compiled code refers only
  to what it holds;
- each step of the machine does what `step_taken` says: the current
  instruction, or one stage of unwinding a return, a throw or a jump through
  the catch and `finally` blocks and the frames it leaves; a step that cannot
  be taken leaves the state as it was.
