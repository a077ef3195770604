# black_tag

A small tool that downloads YouTube videos with `yt-dlp`, extracts the audio
as MP3, crops the thumbnail with `ffmpeg`, tags the file with ID3 metadata and
cover art, and stores it under a sanitized file name.

`src/` is the library, verified with Verus:

- `text` – characters, Unicode whitespace, trimming, splitting, joining,
  substring search and UTF-8 widths, modelled over `Seq<char>`;
- `args` – the options of the single-video tool and file-name sanitizing;
- `file_overrides` – entries to download, "url | title | artist" lines, the
  lines of an input file and the listing of entries;
- `normalization` – title clean-up (noise markers, the "Artist - Title"
  guess, cutting up to a marker) and the URL that `yt-dlp` reports;
- `downloader` – the options of a run, the entries it generates, duplicate
  removal, the entries whose URL was normalized, and the artist, title and
  file name of a track;
- `tagging` – the ID3 tag builder and its `id3::Tag`;
- `logger`, `thumbnail`, `video` – printed lines, ffmpeg options and the
  thumbnail file names, metadata.

`app/main.rs` is the program: argument parsing, the external tools, files,
threads and printing. `tests/` runs the library on concrete values.
