# founder

A font toolbox. The library in `src/` holds the logic of its tools with verified
contracts:

- `support`: choosing files by suffix and exclusion, and splitting processing results
  into complete, incomplete and failed ones, with the exit code that follows;
- `scanning`: choosing drawings by extension, pairing a path with its processing
  result, and summaries that set ignored failures apart;
- `naming`, `features`: the text listings of a font's names and layout features;
- `layout`: the square grid of a specimen sheet and the file names of single glyphs;
- `dispatch`: turning the toolbox's command line into the tool to run;
- `text`: the character-level string operations the others rest on.

`app/` holds the program: argument parsing, walking directories in worker threads,
reading fonts, drawing and rasterizing glyphs (floating-point work through `svg` and
`resvg`), and printing.
