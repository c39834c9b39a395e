# detc

Declarative configuration of a running host.

A system is described by documents of variables, templates of configuration files,
declarations of resources, and the programs that probe the machine and provide for the
resources.  The distribution, whatever is injected at the first boot, and the
administrator each contribute to it, in prefixes that override and mask each other.
`detc` puts a namespace together from all of that, works out what the machine lacks, and
brings it there; `detcd` answers for a machine over varlink, and `detctl` drives a fleet.

The library under `src/` is written in Verus: every function has a contract, and every
contract is proved.

| Modules | What they are about |
| --- | --- |
| `text`, `path`, `value`, `document`, `order`, `table` | the values that everything else is said of |
| `cfs`, `doc`, `tar`, `hosts` | files in prefixes, headers of files, archives, names of hosts |
| `var`, `template`, `resource`, `provider` | the namespace, and the objects of a system |
| `apply`, `run`, `last`, `journal`, `lock`, `exec` | what a run plans, does, and says it did |
| `bundle`, `signers`, `machine` | trees of objects that are built, signed, checked and installed, and what that does to a machine |
| `detc`, `objects`, `settings`, `verbs`, `record` | the subcommands, and what they say |
| `varlink`, `manager`, `detcd`, `detctl` | the same, from another machine |

A proof function whose name begins with `law_` states a property that spans functions,
such as that what is set under a key is what is read under it.

What an outside crate computes is behind a function marked `external_body`, or an
`assume_specification`, whose doc comment says what is taken on trust.  A name for what
such a crate returns is an `uninterp spec fn`.

`app/` is the program around the library: command lines, files, processes, sockets and
the git repository of the journal.  What it reads it hands to the library as plain values,
and it does what the library decides.
