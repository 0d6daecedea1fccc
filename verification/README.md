# bbolt

An embedded key/value store in a single file: nested buckets of sorted keys in B+trees of pages, one
writer and many readers at a time, and commits that are never seen in part.

- `src/` is the library: the file format, the trees, the freelist, transactions, cursors, commits,
  recovery, and tools on top of them. All of it is verified. It reads an image of the file and
  gives back plans of what to write.
- `app/` is a command line tool around it, which opens, locks, maps and writes files.
- `tests/` run the library on databases in memory.

## Format

Little-endian pages of one size. Pages 0 and 1 hold the two meta pages, of which the newer intact one
counts. A page is a branch, a leaf, or the freelist, and may overflow into the pages behind it. A
small bucket lies inside the leaf element of its parent.

## What is proved

- Every operation on a bucket is stated over the sorted list of its elements, and every cursor
  movement over the position in it (`tx`, `nesting`, `cursor`, `scan`, `laws`).
- A commit turns what the transaction holds into pages; the new meta page leads to exactly that, no
  page is lost and none is used twice (`commit`).
- Where nodes are joined, split and written is stated step by step, in whatever order they are come
  to (`edits`, `tending`, `layout`, `phases`).
- The file grows only for what there are not enough free pages in a row for, and never beyond its
  limit. A commit is refused only for a piece of what it has to write that would make the file grow
  beyond it, and never where there is room for all pieces behind the last page (`pieces`, `commit`).
- An update is seen in whole by every later reader, or not at all (`update`).
- Until the new meta page is written the old database is untouched, and from then on the new one
  counts (`recovery`).
- The next transaction can begin after a commit, a rollback, or a restart (`recovery`, `lifecycle`).
- No page that an open reader may read is used again; any other one becomes free with the first
  release after it was freed (`freelist`, `readers`).
- A change in a bucket, however deep it is nested, changes what the whole database holds there and
  nowhere else, and what was put is what the file holds once it is committed (`ripple`, `changes`,
  `laws`).
- A search for damage finds nothing in a new database, nor in one that was committed (`healthy`).
- A copy of a database holds exactly what was copied, in however many transactions it is made
  (`replay`, `turns`, `backup`).

One thing is taken on trust: that the standard library turns bytes that are UTF-8 into the text that
they encode, for the names of buckets in a listing (`inspect`).
