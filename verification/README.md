# agentseek_desktop

The rules of AgentSeek Desktop, a program that makes agent projects from templates, configures
them, and runs them on this machine. The library holds what the desktop decides and computes, with
contracts that Verus proves; it touches no file, process, network or clock.

- `src/` is the library. What it needs to know of the world (which ports are in use, what a file
  holds, how a command ended, what time it is) comes in as plain values, and what is to be done
  goes out as plain values.
- `app/` is the desktop around it: files, processes, the storage engines and the window.
- `tests/` runs the library on concrete values.

## The library

| Modules | What they say |
| --- | --- |
| `text`, `rewrite`, `urls`, `json` | Text as sequences of characters, texts rewritten line by line, the parts of a URL, JSON documents |
| `models` | The records of the desktop and the requirements on its tools |
| `environment`, `ports`, `port_plans` | Environment files, the vault, and free ports for services |
| `lifecycle`, `process_ports`, `compose`, `config_sync` | The files of an instance that follow its environment |
| `templates`, `prepare`, `sources` | Templates, new instances, and patches to their files |
| `instance`, `deployment`, `save_env` | What happens to an instance, step by step |
| `state`, `storage`, `storage_switch`, `logging` | The state of the desktop, where it is kept, and the log |
| `cli`, `runtime_install` | The tools that the desktop needs, and scripts that install them |
| `env_laws`, `port_laws`, `compose_laws`, `process_laws`, `lifecycle_laws` | Longer proofs of what holds of several functions together |

Public proof functions whose names start with `law_` state what holds beyond the contract of one
function: that what is written is read back, that a patch applied twice changes nothing more, that
secrets of the vault are hidden in the log but for such as its own marks may spell, that ports are
distinct.

Trust is placed in `serde_json` and `toml` for their notations, and in a few functions of the
standard library; the doc comments of those items say what is believed of them.
