# crunchy-cli core

A command-line downloader for the Crunchyroll streaming service (`download`, `archive`,
`search` and `login` commands), built around a library whose rules are proved with Verus.

## Layout

- `src/` — the verified library. Every function states its behaviour in `requires` / `ensures`
  contracts over mathematical models (`Seq`, `Map`, views of the data types), and Verus proves
  the code against them.
  - `parse.rs`: url filters (`...[S1E4-S3]`), resolutions, old url schemes.
  - `ffmpeg.rs`, `download.rs`: ffmpeg presets and the arguments that merge downloaded tracks.
  - `segments.rs`: how segments are split among download workers and written back in order.
  - `visit.rs`, `sort.rs`, `filter.rs`: which seasons and episodes a walk takes, how they are
    numbered, grouped and ordered.
  - `search.rs`: the `{{scope.field}}` output template of `search` and its filters.
  - `format.rs`, `os.rs`: output path templates, safe file names, free file names.
  - `session.rs`, `config.rs`: login options, the stored session, the session language.
  - `subtitle.rs`: fixes applied to downloaded subtitles.
  - `locale.rs`, `text.rs`, `clap.rs`, `command.rs`, `video.rs`, `fmt.rs`: locales, text helpers,
    command-line value parsers, option checks, merge plans, variant choice.
  - `sync.rs`: the integer part of audio synchronisation by fingerprints (shift candidates,
    matching positions).
- `tests/` — tests of the library on concrete values.
- `app/` — the program: command line, requests to the service, threads, files and ffmpeg. The
  choices it makes on what it fetched (which versions, how they are merged, which subtitle, file
  names, ffmpeg arguments) are the library's; the audio synchronisation's timing, which works on
  floating-point seconds, is not part of it.

Laws of the library are public proof functions (`lemma_*`), for example that every preset name
listed in the help text parses back to its preset, that a name sanitized for every system holds
no forbidden character, and that a stored session is read back as the login it was, and that segments arriving in any
order are written in order.
