# braincrab

A compiler from the BrainCrab language to Brainfuck, written in Verus with its
contracts proved.

The pipeline, from text to Brainfuck, is `script::compile_script`:

1. `parser` turns the text into a `Program` (a recursive-descent parser whose
   grammar is stated as spec functions).
2. `compiler` compiles the program to ABF, a Brainfuck dialect with named
   variables (`abf`), in which every variable is declared before it is used.
3. Optionally, `abf::ABFOptimizer::optimize_abf` folds what is known when
   compiling, `clear_unused_variables` drops variables nothing observes and
   `optimize_frees` places the frees.
4. `abf::ABFCompiler::compile_to_bf` places the variables on the tape and emits
   Brainfuck (`bf_core`), whose pointer never leaves the tape.

Besides, `new_abf` is an ABF over tape cells with its own folding pass,
`absolute_bf` a representation with absolute cell numbers and its analyses, and
`bf_core` the Brainfuck syntax tree, its parser, printer and interpreter step.

ABF and Brainfuck have run functions (`abf::abf_semantics::run_seq`,
`new_abf::run_all`, `bf_core::run_bf_trees`), over which several passes state
that their output prints what their input prints.

`app/` holds the command-line program: it reads files, calls the library and
prints; it runs Brainfuck with the library's interpreter step.
