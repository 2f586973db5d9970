# teamim_tools

Tools around the recognition of cantillation marks (teamim) in scanned
Torah scrolls, with their logic proved against its contracts.

- `src/` is the verified library:
  - `mam` extracts text from the MAM XML books for four targets, and
    `mam_output` proves what each target writes;
  - `search` finds a (possibly misrecognized) passage in an indexed text;
  - `boxes`, `boxfile` and `training` check corrected box files, read and
    write character boxes, and hold the helpers of the training tools;
  - `remap` and `scroll` distribute the character diff between the reference
    text and the OCR text of a scroll over the lines of its pages, and
    `pieces` proves that the pieces of all pages give both texts back; `html`
    renders the diff and the index of diffs;
  - `poll` and `job` keep the state of background jobs;
  - `bytes`, `numbers`, `utf8` and `words` are shared text helpers.
- `tests/` runs the library on concrete inputs.
- `app/main.rs` is a command line around the library: downloads, file and
  process I/O, and printing.
