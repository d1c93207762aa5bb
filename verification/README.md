# pzmod

A workshop mod manager for Project Zomboid. `src/` is the library: the rules
that pzmod goes by, with contracts that Verus proves. `app/` is the program around
it: the window, the disk, the network and steamcmd. It looks at what is there, asks
the library what to do, and does it.

## Layout of the library

- `text`, `names`, `table`, `json`: texts, the order of listings, tables keyed by
  texts, and JSON documents.
- `folder`, `layout`: which folder names are allowed, and what a move between
  `mods` and `mods_off` does.
- `modinfo`, `state`: what a downloaded item holds, and the file that tells what is
  installed.
- `transaction`, `install`, `remove`, `save`, `copy`: changes that are made as a
  whole or not at all.
- `workshop`, `page`, `browse`, `detail`, `url`: what is asked of the workshop, and
  what is made of its answers.
- `cache`, `rate`: the pages that are kept, and how fast new ones are asked for.
- `deps`, `levels`, `resolve`, `walk`: what items need, and in which order they are
  installed.
- `download`, `flow`, `installing`, `updating`, `progress`, `jobs`, `paths`: the
  requests, from beginning to end.
- `bisect`: the search for one faulty mod.

What the library promises as a whole stands in proof functions whose names begin
with `law_`.
