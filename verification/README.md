# stacks_metrics

Metrics for Stacks chain state, verified with Verus.

- `at_block_tracker`: a CSV log of `at-block` invocations. `csv` says how the log
  is written and how it reads; `tracker_laws` states what holds of every run.
- `trie`, `stats`, `blocks`: the measurement of the space that Clarity `none`
  values take in MARF storage. Trie blobs are searched for leaf nodes, and the
  leaves that hold the none-value are counted. `trie_laws` and `stats_laws` state
  what holds of every blob and of every scan.
- `none_value`: the MARF value of `none`, by way of the `sha2` crate.
- `queries`, `report`, `text`: database queries and report lines, by way of the
  `hex` crate where hex digits are wanted.

`app/` holds the command line tool and the file that the log goes to: files, the
database, progress bars, and figures in floating point.
