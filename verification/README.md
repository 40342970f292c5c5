# cidrwall

A firewall that drops traffic to and from blocklisted address ranges, by nftables, XDP and TC.

`src/` is the verified core. It decides; it reads no file and calls no kernel.

| Module | What it holds |
| --- | --- |
| `config`, `load`, `validate`, `error` | the settings, how the command line overrides them, which are accepted, and why one is refused |
| `zones`, `interfaces` | groups of network interfaces and the rules between them |
| `control`, `table` | the control record and the tables in the kernel |
| `classifier` | what becomes of a packet on its way out |
| `reload` | replacing the blocklist without a gap |
| `resolve` | finding interfaces by name |
| `links`, `handover` | attaching the program to interfaces, and handing them over from an earlier run |
| `pins`, `manager` | where state is pinned, and what the TC backend knows between operations |
| `cleanup` | what taking the backend down leaves in the file system |
| `path`, `text` | Unix paths and numbers in text |

Operations that work on the kernel are state machines: `action` tells what to do next, and
`advance` takes what came of it. The proof functions whose names start with `law_` state what holds
of the operations as a whole.

`app/` performs the actions: it reads files, loads the eBPF object, and works on maps and links. The
reader of blocklist files and the compiled object are handed to it. `app/program.rs` is the program
in the kernel; for the eBPF target it needs a `no_std` crate of its own.
