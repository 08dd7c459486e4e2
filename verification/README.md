# kobo_ui

Resolution-independent icon drawing for grey-level panels, verified with Verus.

An icon is a list of shapes in a box of 1000 by 1000 units. `render` turns it
into one alpha value per pixel, at any size. `shapes` gives the icons that have
a name; `back_arrow`, `battery`, `wifi` and `bluetooth` give the marks of the
status strip; `chess_coverage` gives the chess pieces in light and dark,
out of a cache.

## Layout

| Module | What it holds |
| --- | --- |
| `path` | outlines and shapes, circles and rounded rectangles |
| `binary64`, `curve` | points on curves, in double precision carried out on integers |
| `angle`, `root` | points on circles and lengths, in double precision as well |
| `flatten` | from outlines to contours of straight points |
| `stroke` | from contours to the polygons that cover a stroke |
| `edge` | from polygons to edges in fixed-point pixels, all in one direction |
| `fill` | from edges to pixels, by winding numbers |
| `render`, `coverage` | all of it together, and its result |
| `glyph`, `icon`, `mark` | what can be drawn by name |
| `line_art`, `piece_art` | the artwork |
| `chess`, `cache` | layers of light and dark, and a cache of them |
| `laws` | what holds of the library as a whole |

`app` holds the one cache that a process shares between its threads.
