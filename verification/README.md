# filesync

Mirrors one directory onto another, cheaply and reliably: `filesync diff` shows what would happen,
`filesync sync` makes the destination match the source. The source is only ever read.

The library in `src/` holds every decision, verified with Verus. It does no I/O: the program in
`app/` walks the trees, reads and writes files, and hands the library what it found.

| Module | Decides |
|--------|---------|
| `paths`, `spelling`, `text`, `number`, `units`, `calendar` | paths, texts, numbers, sizes and dates |
| `collect`, `order`, `moves`, `tally` | selecting, sorting, pairing and summing up |
| `scan`, `manifest` | what a walk through a tree makes of what it met |
| `hash`, `links`, `diff`, `classification`, `listing` | what differs between two trees, and how it is listed |
| `plan`, `mirror`, `disk` | which actions make the trees alike, and that they do |
| `preflight`, `cli`, `device`, `target` | whether a run may start, and with which options |
| `sync`, `apply`, `durability` | which planned actions are taken, what came of each, what is flushed |
| `conclusions`, `conclusions_text`, `reports`, `artifacts`, `progress` | what the user is told |
| `runtime`, `oserror` | privilege, the destination's lock, and errors of the system |
| `bench` | the shapes and figures of the USB transfer benchmark |

What holds of the library as a whole is stated by public proof functions. The central one is
`disk::a_sync_mirrors_the_source`: carrying out the plan for the difference of two trees leaves a
mirror of the source. Beside it, `disk::a_second_sync_does_nothing`: after that there is nothing
left to do.
