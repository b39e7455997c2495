# typst-gather

Gathers [Typst](https://typst.app) packages in a local directory, for offline and
hermetic builds, and tells which packages a project imports. The decisions are a
library that is verified with [Verus](https://github.com/verus-lang/verus); a thin
program around it reads files, downloads packages and prints.

## Configuration

```toml
rootdir = "/path/to/project"          # see below (optional)
destination = "packages"              # needed to gather
discover = ["templates", "main.typ"]  # scanned for imports
package-cache = ["cache"]             # where packages are looked up when analyzing

[preview]
cetz = "0.4.1"

[local]
my-pkg = "/path/to/my-pkg"
```

Relative paths in `destination`, `discover` and `package-cache` start at `rootdir`, if
there is one. So do the directories in `[local]` when analyzing; when gathering, they
are taken as they are written.

`typst-gather gather config.toml` downloads the `@preview` packages that are
configured or imported, and what they import in turn, copies the `@local` packages
that are configured, and reports those that are imported and are not.
`typst-gather analyze config.toml` writes the imports as JSON and changes nothing.
A configuration can be read from standard input (`-`).

## Layout

- `src/` is the library.
  - `package`, `syntax`, `config`, `manifest`, `excludes` and `world` hold the data:
    packages and versions, the imports of a source, configurations and manifests,
    what is left out when a package is copied, and what is found at a path.
  - `gather` and `analyze` are the two operations, each a machine that says what is
    to be done next and takes what came of it; `imports` and `order` are the table
    and the order that an analysis uses; `report` plans a gather run and sums it up.
  - `seqs` and `text` hold what several modules need.
  - The modules named `.._laws`, `.._ends`, `.._origins` and `.._runs` state what holds
    of whole runs, for all answers that the world may give.
- `app/` is the program.
- `tests/` runs the library on files that are held in memory.

Calls into other crates stand behind functions marked `external_body`, whose doc
comments say what is taken on trust.
