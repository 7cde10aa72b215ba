# scumm_extract

Unpacks the resource files of SCUMM games: reads the index of a game, and tells for each file of the
game which files are to be written when it is unpacked, and in which order. The library is verified
with Verus; the program around it reads and writes the files.

## Library (`src/`)

| Module | What it holds |
| --- | --- |
| `bytes` | integers as they stand in game files, and the mask over the files |
| `text` | numbers, block names and paths as text |
| `names` | the block names that are treated in a way of their own |
| `error` | errors, and faults that only broken files have |
| `layout` | how a file is laid out in blocks |
| `index` | reading the index of a game |
| `lookup` | the number of a resource from the place where it stands |
| `dump` | the index as text |
| `output` | what is to be written, and what published scripts are called |
| `walk` | what unpacking comes to, as a model |
| `extract` | unpacking itself |
| `writing` | which file is written next, and what a failed write comes to |
| `files` | how the files of a game are called |
| `index_laws`, `laws` | what holds of reading an index and of unpacking as a whole |
| `publishing` | that publishing scripts only adds files |
| `rebuild` | that a disk can be put together again from its files |

`read_index`, `dump_index` and `extract` leave out broken data by their `requires`.
`try_read_index` and `try_extract` take any data and report a `Fault` for it, and `can_dump_index`
tells whether an index can be dumped.

Scripts come out as their code, with what they belong to. A disassembler and a decompiler turn the
code into text, and `ScriptOutput::files` says which files that text goes to.

## Program (`app/`)

`extract` unpacks a game, `build` puts one together. The script tools and the builder come from
outside this crate, and none are linked in: a config, `--aside`, the first script of a game and
`build` end with an error that says so. `app/tools.rs` is where they would be linked in.
