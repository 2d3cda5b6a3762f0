# r_archiver

A backup archiver: at a configured hour on configured week days it mounts a
remote folder over sshfs, packs every entry of a source folder into its own
gzip-compressed tar archive under a dated folder, and unmounts again.

- `src/` is the verified library (Verus): configuration types and the parsing
  of their numeric settings, archive naming and exclusion, log lines and the
  choice of log file, the mount command and reports, and the schedule with
  the steps of the daily loop. It takes clock readings as plain values.
- `app/` is the program around it: file system, processes, tar/gzip writing,
  YAML reading, reading the clock through chrono, and carrying out the steps
  of the daily loop.
- `tests/` runs the library on concrete values.
