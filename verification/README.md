# moe

The logic of CPU inference for sparse mixture-of-experts language models, written in Verus:
every item under `src/` is executable Rust whose behaviour is stated in a contract and proved.
`app/` is the program around it: sockets, files, memory maps and floating-point arithmetic.

| Part | Modules |
| --- | --- |
| weights | `store`, `index`, `gguf`, `pack`, `quant`, `float` |
| the model | `spec`, `bind`, `model`, `gate`, `heads`, `rank`, `trace` |
| text | `tokenizer`, `tokenizer_laws`, `vocabulary`, `text`, `json`, `parse` |
| decoding | `generate`, `draft`, `sample`, `eval` |
| constraints | `grammar`, `automaton`, `document`, `accept`, `progress`, `names`, `schema`, `guided` |
| prompts | `chat`, `chat_lex`, `chat_block`, `chat_expr`, `chat_tree`, `chat_eval`, `prompt` |
| serving | `http`, `request`, `reply`, `emit`, `slots` |
| routing reports | `route`, `report`, `svg` |
| command line and downloads | `args`, `fetch`, `units` |

Data is modelled by views (`Seq`, `Map`, enums of mathematical values), and contracts speak of
those. Floating-point numbers appear as their bits, or as exact fractions. Properties that
span several functions are public proof functions named `law_...`, next to what they speak
of.

A few functions of the standard library and of `serde_json` are trusted: each such item says
in its comment what is believed of the function it stands for.
