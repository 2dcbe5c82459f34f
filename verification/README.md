# music_diff

Compares two MusicXML scores measure by measure and note by note, and writes
the destination score back with every measure and note coloured by what
happened to it: kept (black), added (green), removed (red) or modified
(yellow).

The library in `src/` is verified with Verus:

- `types`: the score model (parts, measures, notes, attributes) and its views.
- `xml`: a plain element tree, the form in which the library reads and
  writes documents.
- `document`: reads that tree, and the score it holds, out of the bytes of a
  document (the XML itself is parsed by `xmltree`).
- `parse`: reads a score out of an element tree; numbers are read as Rust's
  `str::parse` reads them.
- `lcs`: longest common subsequences, with the proof that the table entries
  are the lengths of longest common subsequences.
- `diff`: the tables of common-subsequence lengths for the notes of two
  measures and for the measures of two parts, the walks back through them
  that produce the comparison steps, and the comparison of whole scores.
- `diff_laws`: what holds of every comparison (comparing with itself keeps
  everything, every item is accounted for once, source measures stay in
  order, a modified measure carries the comparison of the measures it pairs,
  ...).
- `table_laws`: what holds of the tables (swapping the two sides transposes
  them, a sequence against itself fills the diagonal, the note table ignores
  durations and chord flags) and how `diff` relates to them.
- `render`: the coloured result document.

`app/` holds the program: it reads the two files, runs the comparison and
writes `res.musicxml`.
