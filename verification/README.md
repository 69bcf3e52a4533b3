# rig

A tool installer and zsh loader. `~/.rig.toml` lists tools by where they come
from; `rig install`, `rig update` and `rig sync` bring the machine in line with
it, record what is there in `rig.lock`, and write the script that the shell
loads.

## Layout

- `src/` is the library, verified with Verus. It holds the decisions: reading
  the configuration and the records, choosing a release asset, checking a
  download, the steps of an install and their order, conflicts, updates, the
  generated script, the diagnosis and the command line's output. It takes facts
  as plain values and returns decisions and steps.
- `app/` is the program: arguments, files, processes and the network. It looks
  facts up, performs steps and hands their outcomes back.
- `tests/` runs the library.

## What is proved

Each function states exactly what it returns. Beyond that, the library proves
among other things that:

- records that were written are read back the same (`lock_file`);
- an install makes links only once every step before them has succeeded, and
  never removes the directory of another version (`sources`);
- a build of the program itself that cannot print its version never goes live
  (`sources::repo`);
- a sync that finds another process at work ends in success and writes nothing
  (`cli`);
- a command of another tool, or of none, is never taken over without asking
  (`sources::collect`);
- the keys in a generated script are those of the configuration (`initzsh`);
- every judge can veto caching a command's output (`evalcache`);
- results that come in in any order give the same records (`cli`, `update`);
- nothing goes live before all downloads are checked when the program replaces
  itself (`self_update`).

## What is trusted

Calls into other crates and into std that Verus does not know stand behind
small items that say what is claimed of them: `sources::digest` (`sha2`),
`stamp` (`time`) and `text` (std).
