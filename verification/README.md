# dino-copy

Mirrors a source directory onto a target directory (one-way sync). Afterwards
the target holds exactly the same data as the source.

- `src/` is the library, written in Rust with Verus contracts and proofs. It
  holds every decision: comparing two trees, planning, ordering, the safety nets
  against mass deletion, the course of a copy and of a whole run.
- `app/` is the command line program around it. It walks directories, reads and
  writes files, and shows the progress.
- `tests/` runs the library on concrete values.

## What is proved

- A plan is stated exactly: `plan::diff_with_forced` returns the actions of
  `plan::planned` and the figures of `plan::tally`.
- Carrying out a plan makes the target a mirror of the source
  (`mirror::plan_makes_a_mirror`), with the same contents if contents are
  compared (`mirror::checksum_run_mirrors_contents`). A second run finds nothing
  to do (`mirror::second_run_is_idle`), or only tries again to delete directories
  that hold something excluded (`mirror::second_run_only_retries_directories`).
  The copies may run in any order (`mirror::copies_go_in_any_order`), and neither
  their number at a time nor fsync changes what is carried out
  (`sync::options_do_not_change_the_work`).
- Excluded entries survive, whichever actions fail
  (`mirror::excluded_entries_survive`). A directory that holds one is not deleted,
  and not removed as a conflict. Every other extraneous directory goes with all
  that it holds.
- The source is left alone, whatever happens in a run
  (`safety::runs_leave_the_source_alone`): nothing is written before source and
  target are known not to overlap, and afterwards only the target and what lies
  below it, temporary files included. No action that is carried out passes through
  a symlink (`mirror::tried_actions_never_pass_through_links`).
- Nothing is carried out in a dry run, against a safety net or without a needed
  confirmation (`session::plans_are_carried_out_only_if_safe`). The limit on
  deletions counts entries, also those below a directory that is in the way of
  something else (`session::limits_count_every_removal`), and what is not counted
  stays (`mirror::uncounted_entries_stay`).
- A file is only renamed into its place once it is complete
  (`copy::rename_comes_last`), and a failed copy leaves nothing behind
  (`copy::failures_clean_up`).

## What is relied on

Globs are matched by the `globset` crate and contents are hashed by the `blake3`
crate. What is assumed of them stands at the top of `src/filter.rs` and
`src/digest.rs`; `src/temp.rs` relies on `std::str::from_utf8`.
