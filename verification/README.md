# lambda_microegg

An e-graph for terms with binders, verified with Verus. Classes live in
variable contexts of at most seven variables; an ID is a class placed into a
context by a lift (a thinning), so alpha-equivalent binders and terms that
ignore some variables share classes. On top of the e-graph sit e-matching with
Miller patterns, instantiation and capture-avoiding substitution, equality
saturation, extraction, and a small s-expression script language.

Applications are stored curried: `(f a b)` is the application of the
application of the atom `f` to `a`, then to `b`, so it takes three e-nodes
besides its arguments.

## Layout

- `src/`: the verified library. `lift`, `id`, `unionfind`, `egraph`,
  `rebuild`, `keeping` and `holds` hold the e-graph and what its classes hold;
  `matching`, `instantiate`, `run` and `extract` the algorithms on it;
  `lexer`, `parser`, `read_term`, `read_pattern` and `script` the text front
  end. Files ending in `_laws` state laws over the functions of the others.
- `tests/`: scenarios run against the compiled library.
- `app/`: the command-line program that reads a script file and prints what
  it reports.
