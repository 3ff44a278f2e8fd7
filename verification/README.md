# fu

Terminal plotting: line charts, scatter plots, bar charts, histograms and
occurrence counts drawn with Unicode braille characters.

- `src/` is the verified library: the braille canvas (dots, per-cell
  colors, lines, grid lines), colors, command-line parsing, the text side of the data readers
  (validated numeric fields, transposition, counting, histogram field
  extraction and bin counting) and the layout of framed charts and bar
  charts. Every function carries a contract proved by Verus; laws that
  relate several functions are public proof functions beside them.
- `app/` is the `fu` command: reading stdin and files, the terminal size,
  and the floating-point part of plotting (scaling values to pixels, tick
  values, bin edges and bar lengths), which hands its results to the
  library.
- `tests/` runs the library on concrete inputs.
