# block_map

Blocks between the lines of an editor: diagnostics, excerpt headers, and whatever else is shown
within a text without being part of it.

A `BlockMap` keeps custom blocks by the places in a buffer they belong to. For a soft-wrapped text
it lays them out, together with the headers and footers between excerpts, and keeps the layout up
to date while the text, its wrapping and the blocks change: only what edits touched is laid out
anew. A `BlockSnapshot` is a layout at one moment. It says what is shown on which row, takes points
from the text to the display and back, and gives the text on display in chunks.

The library is written in Verus, and its contracts are proved.

| module | contents |
| --- | --- |
| `point`, `text` | coordinates; line breaks in text |
| `buffer`, `wrap` | what is read of a buffer and of soft-wrapped text |
| `block`, `names`, `render` | blocks, their names, and the callbacks that draw them |
| `order` | the order of blocks on a row |
| `transforms` | a layout as a list of runs of text and blocks |
| `layout` | which blocks stand where |
| `patch`, `sync` | edits, and bringing a layout up to date |
| `changes`, `table` | how the layout changes with the custom blocks; blocks by id |
| `map` | `BlockMap`, its readers and writers |
| `snapshot`, `buffer_rows`, `chunks` | `BlockSnapshot`, row numbers and text on display |
| `likeness` | when two layouts show the same |
| `laws`, `effects` | what holds of maps and layouts as a whole, and of changes to their blocks |

`app` draws blocks with a user interface toolkit.

The central invariant is `BlockMap::wf`: the transforms take in every row of the text, and show each
custom block and each excerpt boundary exactly once, at its row and in order.
