# bgrep

`bgrep` finds records in a text file that is sorted on one of its columns,
by binary search over the byte positions of the file. Each line is a record,
a delimiter separates its fields, and one field is the key: a text, compared
lexicographically, or with `-n` a decimal integer.

The library under `src/` holds the search and everything it decides, with
contracts checked by Verus:

- `text`, `number`: character handling (white space, trimming, splitting on
  the delimiter, lexicographic order) and reading decimal `i128` keys;
- `model`, `value`, `error`: keys and errors, and the order of keys;
- `file`: a file as bytes cut into lines, and the line that a read at a byte
  position returns;
- `search`: the key column of a line, the binary search over a file held
  in memory, the decision on each line of the run of matches, and that run;
- `searcher`: the same binary search as a machine that asks for one read at
  a time (up to the next `\n`, after a seek or on from the last read); its
  contract bounds the seeks it asks for by `floor(log2(n)) + 1`, one per
  probe, and the reads by twice that, for a file of `n` bytes;
- `laws`: on a file sorted on its keys, the search finds the first line with
  the target key, the lines printed from there are exactly the lines with that
  key, the search probes at most `floor(log2(n)) + 1` positions, and every
  `i128` written in decimal, with white space around it or not, reads back
  as itself;
- `args`: the rule on the delimiter argument.

`app/` is the command line: it reads the arguments, does the reads that the
searcher asks for, reads the run of lines from the line found and prints the
ones that the library keeps. It exits with 0 when a line matched, 1
when none did, and 2 on an error.

```
bgrep [OPTIONS] <TARGET> <FILE>
  -k, --key <N>          index of the key column, from 0 (default 0)
  -d, --delimiter <C>    field delimiter, one character (default ';')
  -n, --numeric          the key column is an integer
```
