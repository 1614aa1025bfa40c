# schematic-diff

Renders the difference between two Minecraft schematics in the terminal, for git to
call as an external diff.

`src/` is the library: reading builds, comparing them, colouring and laying out the
picture, and the text that goes with it. Every function in it carries a contract that
Verus checks, and the properties that relate several functions stand beside them as
public proof functions.

| Modules | What they hold |
| --- | --- |
| `nbt`, `palette`, `format`, `schematic` | reading a file into a build, and comparing two builds |
| `snbt`, `snapshot` | which text and which dumps can be handed to `nucleation` |
| `changes`, `stat`, `report` | what changed, and the text that says so |
| `color`, `single`, `render`, `scene`, `subset` | block colours, the block grid, and what is drawn |
| `raster`, `font`, `layout`, `mesh` | pixels, captions, panels, and a depth-buffered target |
| `kitty`, `terminal`, `cli` | sending the picture, and what the terminal and the user ask for |
| `text`, `error` | strings and failures |

Outside crates do what they are there for: `nucleation` holds builds, `quartz_nbt`
decodes tags, `flate2` inflates, `png` and `base64` encode. Each call into one of them
stands in a small function of its own, whose doc comment says what is taken on trust.

`app/` is the program around the library: arguments, files, the terminal, the camera
and the rest of the floating-point work, and the mesher. `tests/` runs the library.
