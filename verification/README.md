# kubefuzz

A generative and mutative fuzzer for Kubernetes admission controller
chains. Resources are generated and mutated from the cluster's JSON schemas,
narrowed by user-written constraint configurations, and submitted to the API
as dry runs; the API's answers steer a bounded corpus of samples.

The library in `src/` is verified with Verus:

- `paths`, `text`, `json`: dotted field paths, string helpers, JSON values.
- `conf`, `schema`: constraint configurations and resource schemas.
- `constrain`, `load`: narrowing a schema with a configuration (allow-listing
  fields, required fields, values, value patterns, array bounds, removals),
  and the checks around loading.
- `pattern`: regular expressions over field paths.
- `generator`: random resources that conform to a narrowed schema.
- `mutator`: mutation of existing resources that keeps their identity.
- `fuzz`, `status`: judging API answers, the corpus, statistics and the
  status screen's text.
- `resource`, `cli`: group/version/kind handling and the command line.

`app/` holds the program: argument parsing, file and network I/O, the
Kubernetes client, the terminal screen and the serde forms of the library's
types. `tests/` exercises the library.
