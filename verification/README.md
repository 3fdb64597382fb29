# Offset finder

Finds the pointer chains that lead from the static data of a running program to a value in its
memory, as lines of an offset file.

- `src/` is the library, verified with Verus: memory access through a small `Kernel` trait, value
  and text scans, byte snapshots, the pointer map, the reverse pointer scan and the joint scan of
  two roots.
- `app/` binds the library to macOS: the mach calls, the list of running processes, and the scan
  for floating-point values.
- `tests/` runs the library against small memories made up for the purpose.

## Where to read

| Subject | Modules |
| --- | --- |
| The kernel's replies, and what is read from them | `task`, `chunks`, `procmem`, `macho`, `process` |
| Bytes, text, numbers | `bytes`, `text`, `path`, `lines` |
| Regions, pointers, sorting | `region`, `pointers`, `sort` |
| Scans of memory | `scan`, `snapshot`, `findings` |
| What stays the same between two readings | `steady` |
| Chains of pointers | `reverse`, `chain`, `bounds`, `resolve`, `joint`, `shared` |

Nothing is assumed of the kernel's replies: a process may change its memory between any two reads.
A contract says which questions are asked and what each reply leads to. The laws in `chain` and
`shared` say what the scans find: every chain they report is there, and the shortest come first.
Where no budget or cap cuts a scan short, the joint scan finds a path whenever one is shared, and the
reverse scan misses none of the chains that leave the image at their first dereference and come by
no address twice.
`bounds` says how scans under different bounds relate, `steady` what holds as long as the system
does not change.
