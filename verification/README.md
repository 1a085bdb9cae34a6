# lintmatter

A linter for agent context files, `AGENTS.md` and `SKILL.md`: front matter,
token budgets and file references. Every file is rated from 0 to 100.

The library under `src/` is verified with Verus. It holds no I/O: a run asks for
what it needs and goes on with the reply (`run`), and so does the wizard of
`lintmatter init` (`wizard`). The web front end's decisions take what other
programs said as plain values (`web`).

| Module | What it holds |
| --- | --- |
| `parse`, `yaml` | A file's front matter and body; YAML as plain trees |
| `lint` | The rules, the registry they run in, and the score |
| `discover`, `utils` | Which files are linted; lexical paths |
| `config`, `cli`, `init` | Settings, flags, their precedence, the wizard |
| `report` | A run as text and as plain JSON data |
| `run`, `wizard` | One run of the linter or the wizard, step by step |
| `program` | Which of the two a command line is for |
| `web`, `wire` | Requests, budgets, replies and the page of the web front end |
| `text`, `number`, `order`, `fence`, `tokens` | What these are built from |

The outside crates are called at a few places only: `saphyr` loads YAML
(`yaml`), `glob` matches excludes (`discover`), `serde_json` reads and builds
the replies of the web front end (`wire`).

`app/` is the program around the library: `lintmatter [flags] [path...]`,
`lintmatter init`, and, under the name `lintmatter-web`, the web server.
