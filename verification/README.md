# brakoll

A small issue tracker for coding projects. Issues are single-line comments such as

    // *brakoll - d: fix typo in debug print, p: 10, t: debug, s: open

and the `brakoll` command lists, filters, sorts, counts, copies and updates them.

The library in `src/` is written in Verus and proved against its contracts:

- `text`: the string operations (`trim`, `find`, `split`, `lines`, `u32` parsing,
  decimal text) specified over `Seq<char>`;
- `status`, `issue`: issue statuses and how issue lines are read;
- `arg`: the command-line words;
- `listing`, `summary`, `brakoll`, `render`: sorting, filtering, counting, copying,
  status changes and the printed lines;
- `loading_bar`, `utils`: the progress bar's state and the file selection;
- `laws`, `edit_laws`: properties of the whole, proved.

`app/main.rs` is the command itself: terminal, file system, clipboard and directory walk.
