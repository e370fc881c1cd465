# dreamcoder

A dotfiles manager: it links packages of dotfiles into the home directory
(as GNU Stow does), installs modules of a dotfiles repository, keeps backups
and a state file, plans the commands of secrets providers, and answers
automated clients with a structured protocol.

- `src/` is the library, verified with Verus: path semantics, the stow tree
  and its plans, conflict handling, module discovery and installation plans,
  the engine's apply plan and reports, state records, backup listing and
  rotation, secrets command plans, the protocol's answers, the command-line
  decisions and the terminal interface's navigation. Public proof functions
  named `law_*` state what holds across calls.
- `app/` is the program around it: argument parsing, the file system,
  processes, terminal drawing and template rendering.
- `tests/` exercises the library on concrete values.
