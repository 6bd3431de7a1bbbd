# oweka

A terminal tool that finds artifact directories (`node_modules`, Rust
`target` folders next to a `Cargo.toml`, Python virtual environments holding a
`pyvenv.cfg`) and lists them with their sizes. In the table, `↓`/`↑` or
`j`/`k` move the selection, `Space` or `Enter` deletes the highlighted folder
at once and without confirmation, `o` opens it in the file manager, and `q`
quits. Paths the system may use are shown in yellow.

- `src/` is the verified library. It holds the decisions: which directories
  are artifacts (`matcher`, `registry`), how a walk and a tally proceed step by
  step (`engine`, `engine::frontier`, `walker`), how a deletion proceeds
  (`engine::Deletion`), which paths are risky to delete (`engine::risk`), and
  the result table's state, order, cursor, keys and text (`ui`). Paths are modelled
  as component sequences (`location`), text as character sequences (`text`).
- `app/` is the program around it: threads, channels, the filesystem, the
  environment and the terminal. It performs each step the library decides and
  hands the outcome back.
- `tests/` exercises the library through its public interface.
