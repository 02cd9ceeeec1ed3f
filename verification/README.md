# Radio Track Splitter

Splits a long radio recording into separate track files. A neural network finds where one
track changes to the next, each cut is moved to the nearest quiet moment, and the tracks are
written without re-encoding.

`src/` is the library. Its functions are verified with Verus, but for the calls that leave the
library, whose contracts are believed: the wrappers `decode_wav` (the hound crate), `utf8_lossy`
and `to_lower_case` (the standard library), and what is claimed of `String::push` and
`String::from_utf8`. The library needs no floating-point numbers: times are whole nanoseconds,
positions on the screen are parts of a pixel, doubles that only need to be compared are given by
their bits, and where the seconds of a time are rounded as a double, `doubles` does so with whole
numbers.

| Module | What it holds |
|---|---|
| `pickle`, `unpickle`, `torch_legacy` | Reading the index of PyTorch's older weight files |
| `vggish`, `pipeline` | The shape of the network and of its input, where its weights are, and the way from scores to cuts |
| `detect`, `order` | Peaks of a score, quiet spots, sorting and the order of doubles |
| `envelope`, `canvas` | The outline of a recording, and where things are on its drawing |
| `editor`, `session`, `saved`, `title` | The editing window: its state and whatever changes it |
| `times`, `doubles` | Times as text, and seconds as doubles |
| `decimals`, `big` | Decimal numbers as text, and whole numbers of any size |
| `text`, `paths`, `bytes` | Texts, paths and numbers in bytes |
| `audio`, `cache`, `cli` | Samples, tracks and their names, the embeddings that are kept, and what the command line reads and prints |

A proof function whose name begins with `law_` states something that holds of several functions
together.

`app/` is the program around the library: the command line, the editor's window, files, the
FFmpeg tools, and the arithmetic on floating-point numbers (log-mel features, the network, and
the novelty of a place).

`tests/` runs the library on examples.
