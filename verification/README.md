# dbake

Builds the targets of a bake file on all nodes of a docker builder at once.

The library under `src/` holds what decides: which targets are built, in which order, on
which node, with which arguments, and what is reported of them. Its contracts are stated with
`requires` and `ensures` and proved by Verus. The program under `app/` does the rest: it calls
docker, reads and writes files, and draws on the terminal.

| Module | What it holds |
|--------|---------------|
| `dag` | the queue of targets, with what holds of it over a whole run |
| `scheduler` | what a node does next, and what the end of a build means |
| `selection`, `closure`, `typo` | which targets are built |
| `plan` | what a run is made of: targets, nodes, and how it ends |
| `bakeprint`, `hcl`, `json`, `compose` | what bake files and compose files say |
| `builder` | nodes, and the builders that a run makes for them |
| `executor` | the arguments of a build, its progress and its end |
| `tui` | what is shown of a run |
| `logs`, `path`, `cli`, `plugin` | log files, paths, arguments, plugin metadata |
| `text`, `order`, `names`, `platform` | texts, their order, sets and maps by name, platforms |

What is not proved is marked in the source: reading JSON (`json`), appending a character to a
string (`text`), and the clock (`tui::state`).
