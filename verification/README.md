# rucrack

A distributed brute-force key search.  A master reads the known leading
bytes of a 16-byte key and a cipher text from `.r4c` hex files, splits the
remaining key space into one range per slave and posts each range to its
slave over HTTP; every slave splits its range again over four threads and
tries every key in it.

- `src/` is the verified library (Verus): the key pool and its counting
  order (`keypool`, `odometer`), wrapping byte arithmetic (`overflow`), the
  master's command line (`command`), the `.r4c` format (`hexfile`), the
  decisions of a search (`crack`), the cluster node (`node`) and text
  helpers (`text`, `util`).
- `app/` is the program around it: the master and slave loops, HTTP,
  files, threads, JSON and the RC4 decryption.
- `tests/` runs the library on concrete values.
