# cfggraft

Inject declared items into config files that belong to another program.

One rule: **apply what is provably ours, report what is not, never overwrite a
disagreement.** Deciding that needs three values (what is declared, what this
library wrote last time, and what is in the target now), so a value it wrote
itself can be updated or withdrawn, while a value the other program wrote is left
alone and reported.

The library under `src/` is verified with Verus: every function states what it
does, and what holds of the library as a whole is stated as laws and proved.

| module | holds |
|---|---|
| `policy` | the decision table |
| `port` | the interface a representation implements |
| `engine` | the walk over the items, and what one run does |
| `runs`, `slots` | what holds of every run, and of a second one |
| `adapter` | JSON documents: addresses, reading, writing, withdrawing, and their laws |
| `prior` | the record of what was written |
| `cli` | the report, where the declaration comes from, what is written back |
| `value`, `tree`, `canon`, `unique`, `layout`, `text` | JSON values, their meaning, their canonical form, their indented text, text |

`app/` is the command line front end: argument parsing, files, and the exit
status.

```
cfggraft merge --key .env --fragment env.json --file ~/.config/app/settings.json --in-place
```

| exit | meaning |
|---|---|
| 0 | applied, or already up to date |
| 1 | failure: bad input, unreadable file |
| 2 | drift: a difference it declined to overwrite |

On drift nothing is written over the difference; with `--in-place` the other
items are still applied, and with `--check` nothing is written at all.
