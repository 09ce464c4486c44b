# temprix

Zero-copy file history for macOS: every change to a file inside a watched
project is kept as a version under `~/.temprix/history/`, named after the
file and the time of the change.

- `src/` is the verified library (Verus): path reading, the exclusion rules,
  where versions are stored and how they are named, reading a versions folder
  back newest first, project root resolution with its cache, project
  discovery in the home directory, the watched roots of the configuration,
  the launchd property list, and the daemon's event loop as a state machine
  (`watch::Daemon::step`: which changes wait, when a batch is due).
- `app/` is the command-line program around it: file-system access, the
  file watcher and the clock that feed the daemon's state machine, APFS
  cloning, launchd, the JSON configuration file and the command line.
- `tests/` exercises the library on concrete values.
