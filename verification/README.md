# lets

The verbs of a command line for reading and changing a working tree: `find`, `show`, `edit`,
`transform`, `write`, `stats`, `hooks`, `update`. Every answer is bounded, and names what it leaves
out.

`src/` is the library, verified with Verus: what each verb decides, on plain values. Its contracts
say what is shown, what is changed, and which failure comes when.

- `window`: which lines of a file are shown, and how an answer is cut to a limit.
- `find`: patterns, roots, what a walk comes upon, context round hits, the answer.
- `show`: targets and outlines.
- `edit`, `transform`: batches that are validated whole, written whole, and put back whole.
- `write`, `update`, `hooks`, `stats`: the smaller verbs, each as its decisions.
- `text`, `shell`, `json`, `pattern`: what the verbs share. `pattern` and `json` hold the calls to
  `regex`, `grep-regex`, `ignore` and `serde_json`.
- `output`, `error`: answers and failures as data.

`app/` runs the verbs: it walks, reads, writes, waits, and asks the rest of the program for locks,
hashes, grammars and releases through the traits of `services`.

`tests/` runs the library on concrete calls, over files held in memory.
