# unalz

Extractor for the ALZ archive format, verified with Verus.

- `src/` is the library: reading split volumes, parsing the archive, decryption,
  decompression, path safety, CRC verification, the command line and the texts
  it prints. Its functions have contracts that Verus proves; the few that call
  outside crates directly have contracts that it takes on trust.
- `app/` is the program: files, standard input and output, the password prompt.
- `tests/` runs the library on concrete archives.

## What the contracts say

- `multivolume`: a set of volumes reads as the joined data between the framing
  of the volumes, wherever it was cut.
- `archive`: the index of an archive is a function of its data alone. An archive
  that ends too early still opens, with the entries whose headers are there. The
  one exception is a comment section, whose size stands at the end of the archive
  and is lost with it. The last sixteen bytes of a file may be the trailer of a
  volume that others should follow: what is broken there is missing data.
- `crypto`: the traditional PKWARE cipher; deciphering undoes enciphering.
- `decompress`: stored, DEFLATE and ALZ-modified bzip2 data, held to the declared
  size.
- `extract`: an entry counts as extracted only when its CRC is right. Accepted
  names have no `..` component and do not start at the root.
- `truncation`: what a truncated archive, or one with missing volumes, still holds.
- `cli`: the arguments, the listing, and the exit codes.

What the outside crates compute (DEFLATE, bzip2, CP949, CRC-32, the local time
zone) is stated beside the few functions that call them.

## Exit codes

| Code | Meaning |
|------|---------|
| 0 | everything extracted |
| 1 | extracted what was there, archive truncated |
| 2 | failed |
