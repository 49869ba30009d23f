# xaerotools

Tools for the files of Xaero's minimap, world map and XaeroPlus: finding the
worlds of a save root, indexing their regions, reading and merging their SQLite
databases, and taking in regions that players upload to a shared map.

`src/` is the library. Every function in it is verified with Verus against its
contract, but for what it has from outside: `json_text` in `preview`, which hands
a value to `serde_json` to be printed, and `String::push`, whose specification
`text` states. The library opens no file, no database and no socket: where work
has to be done outside, it says what to do next and takes what came of it.

| module | what it decides |
| --- | --- |
| `text`, `sql`, `order`, `paths`, `listing` | text, quoting, stable sorting, paths, directory entries |
| `highlights`, `database`, `tiles` | highlight databases: palette, schema, windows, tiles |
| `drawing`, `drawing_merge`, `drawing_union` | drawing databases: families, reading, merging, what a merge does to the rows |
| `naming`, `worlds`, `regions`, `waypoints`, `roots` | save roots: worlds, map layers, waypoint files, default locations |
| `ingest`, `request`, `upload`, `preview` | region uploads: rules, the request, storing, the preview message |
| `corpus`, `synth`, `trees` | sample data for tests |

Proof functions whose names begin with `law_` state what holds of several
functions together.

`tests/` runs the library on concrete values, against SQLite where SQL is
concerned. `app/` is the file system, SQLite and HTTP around the library.
