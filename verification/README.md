# microci

The configuration core of a small CI runner, written in Verus: every
function in `src/` carries a contract that Verus proves.

- `vars`: variable trees and `${path}` substitution into texts.
- `dynconf`: the `${...}` expression language — its grammar (`grammar`,
  `parser`), values, scoped evaluation state, evaluation (`eval`) and
  values computed at load time (`util`).
- `services`, `permissions`, `loading`, `repos`, `repo_actions`: loading
  of the runner's and projects' configuration and the context it is
  loaded in: port mappings, image and container names, access tokens,
  parameters, repositories.
- `actions`, `matched`: triggers, the events they react to, and what the
  matched actions ask of each project.
- `bind`, `caddy`, `caddyfile`, `codegen`: DNS zones and Caddy
  configuration gathered over projects, and the internal project generated
  out of them.
- `auth`: the `Authorization` header, rights checks and the answers to
  refused requests.

Calls into `regex`, `snailquote` and a few functions of the standard
library stand behind small trusted wrappers whose contracts name their
results.

`app/` is a command-line front end for `dynconf` that reads lines from
standard input; it reads YAML files from disk for `load`.
