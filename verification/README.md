# tubefeeder

The logic of a desktop feed reader for YouTube and PeerTube, verified with
Verus.

- `src/` is the library. `csv_file_manager` decides what the CSV files of
  subscriptions, filters and the watch-later list load and what is written
  back on each change; `feed` is the model of a feed list (shown videos,
  batches, ordering by upload time); `subscription`, `filter`, `preferences`,
  `import` and `video_info` hold the decisions of the pages and dialogs;
  `command` splits player and downloader command lines and reads where the
  downloader put its file; `text` holds character-level helpers.
- `app/` is the program around it: reading and writing the files, attaching
  them to the collections of the `tf_*` crates, the pages as commands
  (`subscriptions`, `subscribe`, `filter`, `watch-later`, `play`,
  `download`, `thumbnail`, `preferences`), the subscription search and the
  thumbnail download, and running the external player and
  downloader.
- `tests/` runs the library on concrete values.
