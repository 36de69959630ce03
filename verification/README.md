# async_tar

Reading tar archives, with the rules of the format and of the iteration over an
archive verified in Verus.

The library in `src/` performs no input or output. `Entries` says what it needs
next, the position of the archive or some of its bytes, and is told what came
back. The crate in `app/` reads from an `async_std` reader and hands the bytes
on.

- `archive`: archives, their handles and their options
- `cells`: the cells that the handles of an archive share
- `entries`: the entries of an archive, one after the other
- `entry`: what is known of an entry
- `error`: what can be wrong with an archive
- `header`: blocks, their numeric fields and checksum
- `machine`: the course of an iteration, as a function
- `outcome`: what an iteration finds in the bytes of an archive, and its laws
- `reading`: all the entries of an archive, and archives that follow each other
- `sparse`: the block lists of sparse files
- `unpack`: unpacking an archive into a directory
