# ccmv

Moves and renames projects, together with everything on the machine that refers
to them by their path: recorded conversations, the history, the registry of
projects, local settings, links and texts. A run either passes all its checks
before the first write, or changes nothing.

The library is written in Verus. Its functions state what they do to the file
system and what they return, and are proved to do so, on what is taken as given
below. Of a file system that refuses a request they say what is kept.

## Layout

- `text`, `path`, `order`, `decimal`, `path_map`: characters, paths by their
  components, sorting, numbers, and a map keyed by paths.
- `encoder`: the name of a project's directory among the recorded data.
- `substitution`, `updater`: old paths and new ones, and files rewritten by them.
- `fs`, `mock_fs`: what a file system promises, and one that is kept in memory.
- `home`, `scanner`, `unit`, `batch`, `plan`: what is there, what is to be moved,
  and the rules that a plan has to keep.
- `merge`, `apply`, `relink`, `migration`: the work of a run, step by step.
- `merging`, `through`, `halfway`: when merging and whole runs go through, and what is
  left where one stops.
- `links`: where links lead, and where they should lead after a move.
- `json`, `archive`, `backup`: documents and archives, backing up and restoring.
- `cli`, `command`, `report`: command lines, what they ask for, and what is
  printed.
- `flat`, `routes`, `places`: the projects of a run one after the other, where they
  come from and go, and where their recorded data lies.
- `laws`, `frame`, `along`, `arrive`, `config`: what holds of whole runs, what they
  leave alone, what they bring along, where that is found and how it reads there.
- `shared`, `rerun`, `again`, `foretell`, `tally`: what becomes of the files that all
  projects share, what a repeated run does, and what a dry run says of a real one.

`app/` is the program: it reads the arguments, touches the real file system and
prints. The directory with the recorded data is named by the environment
variable `CLAUDE_CONFIG_DIR`, and the manifest in an archive by `CCMV_MANIFEST`
(`contents.json` where that is not set).

## What is not proved

Four kinds of facts are taken as given, each stated where it is used: what
`serde_json` reads and prints (`json`), what `tar` and `flate2` pack and unpack
(`archive`), what the standard library says of characters and UTF-8 (`text`), and
that an implementation of `Fs` keeps its contracts. The clock is read through
`chrono`, and nothing is assumed of what it says.
