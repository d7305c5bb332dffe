# steampunk

The logic of Steam Punk, a desktop application that launches Windows game
trainers through Proton into the wine session of a running Steam game, as a
library that is verified with Verus.

- `src/` is the library. It takes what was read (the processes of the system,
  directory listings, the text of a registry, the bytes of an answer) and gives
  back what is to be done. Every function has a contract; properties that span
  functions are stated and proved as functions whose names begin with `law_`.
  - `launcher`, `process`: which games run, on which Proton build, and how a
    trainer is started, watched and stopped.
  - `dotnet`, `repair`, `setup`: whether a prefix can run a trainer, and how it
    is made to.
  - `library`, `gamedata`, `steam`: the imported trainers, and what is known of
    their games.
  - `running`, `session`: the trainers of a session, and what the window decides.
  - `applog`, `calendar`, `clock`: the log.
  - `text`, `paths`, `table`, `json`: texts, paths, tables, JSON documents.
- `tests/` runs the library on concrete values.
- `app/` is the application around it: files, processes, requests and the window.
  It needs GTK 4 and libadwaita 1.5 or newer.
