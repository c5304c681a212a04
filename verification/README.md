# pocket_core

The decision-making core of a local Gemma chat runner, verified with Verus, and the program
around it.

`src/` is the library. Its functions say in their contracts what they return, and are
verified against them, but for the few that call into other crates or the standard library.

| module | what it decides |
| --- | --- |
| `conversation` | which messages a chat keeps, and the prompt that is made of them |
| `thinking`, `streaming` | reasoning blocks apart from factual text, in a stream of chunks |
| `memory`, `error` | whether a model fits into the memory, and what is reported if not |
| `gguf`, `config`, `layers` | the header of a model file, the shape of the model and of its layers |
| `embedding` | which bytes of an embedding table a prompt asks for |
| `attention`, `caches` | which positions attend to which, and which keys and values are kept |
| `tokenizer` | the tokenizer that a model file describes |
| `generation` | what the model reads next, which tokens are made less likely, when to stop |
| `answer` | what the strings of an answer depend on |
| `demo`, `repl` | the answers without a model, and the command line |
| `text` | searching, trimming and numbers in texts |

Those calls, into `candle-core`, `serde_json`, `tokenizers` and the standard library, stand
behind small functions whose contracts are believed, not proved; each says so in its doc
comment.

`app/` is the program: the command line, files and memory maps, the terminal, and the
floating-point arithmetic of the model. `tests/` runs the library on concrete values.
