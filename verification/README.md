# mkline

A Windows tool that moves folders and files to another place and leaves a
link (a junction for a folder, a symbolic link for a file) where each one
was, so that programs still find it; it can also back each source up beside
itself as `<name>(1)`.

The library under `src/` is verified with Verus:

- `text` — white space, trimming, joining and decimal numbers as the messages need them;
- `paths` — the calls into `std::path` (file name, parent, join, and the two disk questions);
- `sources` — the source rows: names that occur twice, sorting freshly picked folders, where they go;
- `ops` — checking a move or a backup before anything is copied, and the texts of the reports;
- `links` — putting each moved source away and linking it, and undoing the whole move when a step fails;
- `state` — the form and how each message changes it (`step`), with the laws it keeps;
- `panel` — which controls of the window answer.

`app/` holds the window (iced), the dialogs (rfd), and the file work that
copies, deletes and links, run on threads.
