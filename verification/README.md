# myrient-dl

A downloader for the Myrient archive: a window, a terminal program and a crawler around one
verified library.

- `src/` is the library. Verus proves its functions against their contracts, except for the few
  that hand a call on to another crate or to the standard library: what `outside` says of `zstd`,
  `md5`, `url` and `scraper`, and what the first part of `text` says of the standard library's
  strings, is taken on trust.
- `app/` is the program around it: windows, terminal, HTTP, files, threads, and what is counted in
  floating point. Nothing is proved of it.
- `tests/` runs the library on concrete values.

## The library

| Modules | What they hold |
|---------|----------------|
| `text`, `strmap`, `sort`, `le` | texts and the trusted string functions of the standard library, ordered string maps and sets, a stable sort, little-endian integers |
| `url_text`, `format`, `sizes`, `checksum` | names in links, sizes and durations, size texts, CRC-32 and checksum files |
| `block`, `index`, `generated_dirs` | the directory index: blocks, the file, look-up and update |
| `search`, `search_tab` | the search over the index |
| `listing`, `collect`, `crawl`, `dirs_file` | folder pages, recursive scans, the crawl, writing the index |
| `queue`, `manager`, `transfer`, `dest`, `settings` | the queue, the download manager, one download, where files go |
| `browser`, `queue_pane`, `tui`, `tui_text` | the panes of the window and of the terminal |
| `outside` | the calls into `zstd`, `md5`, `url` and `scraper`, with what is assumed of them |

Properties that span functions are proof functions whose names begin with `law_`.

## The program

```
myrient-dl                                       the window
myrient-dl cli                                   the terminal program
myrient-dl fetch_sizes [--refresh | --dirs-only] the crawler
```

The window needs `eframe`.
