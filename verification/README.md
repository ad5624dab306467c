# zet

`zet` does set operations on files considered as sets of lines: `zet union x y z`
outputs the lines that occur in any of `x`, `y` or `z`, `zet intersect x y z`
those that occur in all of them, `zet diff x y z` those that occur in `x` but
not in `y` or `z`, `zet single` and `zet multiple` those that occur once or
more than once in the entire input (or, with `--files`, in one file or in more
than one). Each output line is printed once, in the order of its first
appearance in the input; `--count-lines`, `--count-files` and `--count` put a
count before each line.

The library in `src/` is verified with Verus:

* `lines`, `model`, `render`: how bytes are read as lines, the stream of lines
  and the history of each line, and the bytes written.
* `set`, `operations`: the ordered set of lines with a bookkeeping value per
  line, and `calculate`, whose output is stated exactly (`zet_output`).
* `calculate`: `exec`, the same operations with plain values per line.
* `operands`: UTF-16 operands are translated to UTF-8; the first operand keeps
  its byte order mark (which the output repeats), the others lose theirs.
* `args`: what the command line asks for; `help`, `style`, `styles`: the help
  message. `tally`: bookkeeping values that select lines.
* `laws`: what the operations promise as a whole.
* `outside`: the calls into `indexmap`, `memchr`, `encoding_rs`,
  `encoding_rs_io`, `textwrap` and `anstyle`, each with the contract it is
  trusted to meet.

`app/main.rs` is the command itself: it parses the command line with `clap`,
reads the operands' bytes (standard input for `-`), and prints what the
library computes.
