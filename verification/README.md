# vmdk

Flat VMDK disk images: a descriptor file that names extents, and extent files that
hold the data. The library is verified with [Verus](https://github.com/verus-lang/verus).

- `src/` decides: it reads descriptors, lays extents end to end, plans the transfers
  of reads and writes, and keeps the queue of completed requests. It does no input or
  output. Every function has a contract that says exactly what it returns.
- `app/` acts: it opens the files that the library asks for, carries its plans out and
  signals completions.
- `tests/` run the library against files in memory.

| module       | subject                                                        |
|--------------|----------------------------------------------------------------|
| `error`      | failures, and how they are reported                            |
| `text`       | white space, words, splitting, decimal numbers                 |
| `descriptor` | the header and the extent lines of a descriptor                |
| `raw`        | from the bytes of a descriptor file to its text; probing       |
| `path`       | where an extent's file is                                      |
| `disk`       | extents, and the transfers that a request needs                |
| `open`       | opening a disk, one file at a time                             |
| `size`       | the space that the files of a disk take up                     |
| `sync`       | requests with several buffers, and the queue of completions    |
| `model`      | what plans do to the bytes of the files                        |

The properties that span functions are the public proof functions whose names start
with `law_`. Among them: a read gives back what a write wrote, a write changes nothing
else, no transfer meets an extent that does not permit it, a disk is as large as the
sectors that its descriptor describes, and a file that extents share takes up space
once.

Supported are versions 1 to 3 and the types `monolithicFlat` and `twoGbMaxExtentFlat`,
with `FLAT` and `ZERO` extents and extents that must not be accessed. Sparse extents
are recognised and refused.
