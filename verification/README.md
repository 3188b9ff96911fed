# gwatch

Watch command output with a graph: run shell commands on an interval, read the number on the first
line of what each prints, and draw the numbers as lines over time in the terminal.

`src/` is the library, verified with Verus. `app/` is the program around it: the command line, the
TOML file, the threads, the clock and the terminal.

| modules | what they are for |
| --- | --- |
| `float`, `rounding`, `arithmetic` | numbers held by their bit patterns: arithmetic, comparison and conversion, rounded to the nearest number, and the order that they keep |
| `number`, `big`, `decimal`, `measure` | numbers read from texts and written as texts |
| `text`, `error`, `period` | words and lines, refusals, spans of time |
| `watch`, `dsl`, `config`, `load` | watches, from `key=value;key=value` or from the blocks of a configuration, and the axis of each |
| `command`, `plot_data`, `order` | what a command reports, the points that are kept, and their statistics |
| `chart`, `drawing`, `clock`, `screen`, `session` | the axes and lines of the graph and what they keep, its labels, the parts of the screen, and the steps of a run |

Numbers are IEEE 754 doubles held as `Float64 { bits }`, and singles as `Float32 { bits }`, so that
every result is stated exactly; `to_bits` and `from_bits` of the standard library convert.

What is called outside and believed: sorting and extremes (`itertools`), spans, calendar range and
times of day (`chrono`), rectangles and their division (`ratatui`), and `String::push` and
`String::from_utf8_lossy` of the standard library. The doc comment of each such item says what is
claimed of it.
