# vd_pipeline

The job executor of VoxDecoder: it reads a job (a tree of capability steps such as
`transcribe`, `diarize`, `fix-*`, `meeting-merge`, `postprocess`), checks and resolves
it, orders its leaves, and runs each capability as a child tool, keeping a registry
of the artifacts the steps produce and a report of the run.

- `src/` is the library, written in Verus: every function carries a contract that the
  verifier proves. It holds the job model and its checks (`schema`, `resolve`,
  `schedule`), the default job and the command line (`defaults`, `cli`, `config`),
  the artifact registry (`artifacts`), the run decisions and reports (`exec`,
  `report`, `resources`, `status`, `prune`), the arguments of each child tool
  (`commands`), meeting merging rules (`meeting`), timeline sidecars (`timemap`) and
  the interactive step menu (`interactive`), on top of small string and map helpers
  (`text`, `collections`, `paths`).
- `app/` is the program around it: argument parsing with `clap`, job files through
  `serde`, the child processes, the clock, the file system and the threads that run
  parallel branches.
- `tests/` exercises the library on concrete values.
