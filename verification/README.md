# rshell

A small interactive shell: quoting, redirections, pipelines, background jobs, history, and
completion with the tab key, by the file system or by scripts that the user registers.

`src/` is the logic of the shell as a library, verified with Verus. It reads and writes nothing
itself. `app/` is the program around it: the terminal, files, processes and the environment.
`tests/` runs the library on examples.

| module | what it is about |
| --- | --- |
| `words`, `redirect` | the words of a command line, its redirections, the commands of a pipeline |
| `shell` | from a line to what is to be done for it |
| `builtins`, `history`, `jobs` | the commands that the shell carries out itself |
| `pipeline` | what is started for a command, and how programs are connected |
| `paths` | finding programs and files, resolving paths |
| `complete`, `tab`, `press`, `prefix` | completion of what is being typed |
| `text`, `split`, `format`, `order` | characters, pieces, numbers, sorting |

Each function's contract says what it returns for every input that it accepts. The public proof
functions named `law_...` state what holds across functions.
