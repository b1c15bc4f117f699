# earth

A local-first folder sharing tool for the devices of one account. Each device keeps its own copy
of a shared folder, can be used offline, and syncs when it meets another device of the account on
the local network. Text files are merged line by line; other files are kept by the hash of their
content.

The crate is a library whose logic is verified with Verus, and a thin program around it.

## Layout

`src/` is the verified library. Everything in it takes and returns plain values: the program reads
and writes the files and the sockets.

- `text`, `order`, `ordmap`, `decimal`, `codec`, `table`, `entries`, `bytes`, `paths`: strings,
  sorted maps, numbers, escapes, tab-separated files, paths.
- `lcs`, `tree`, `textdoc`, `docfile`: text documents, how they are edited, merged and stored.
- `doc_laws`, `edit_laws`, `diff_laws`, `reading`, `history`: what holds of them.
- `hash`, `auth`, `clock`: hashes, passwords and account ids, the time.
- `home`, `config`, `accounts`: where things are kept, the settings of an account, which account a
  command works with, and the ports of the accounts.
- `ignore`, `visible`, `scan`: which files are left alone, when files are written, what a scan of a
  shared folder changes.
- `shares`, `manifest`, `snapshot`, `import`, `import_laws`, `reimport_laws`, `export_laws`: the
  shares of an account, what they hold, and how devices exchange it.
- `protocol`, `daemon`, `cli`, `commands`: what devices say to each other, what the daemon does,
  the command line, and what the commands say.

`app/` is the program, `tests/` runs the library on concrete values.

## What is proved

Functions state what they return for every input; the functions whose names begin with `law_`
state what holds of several of them. Among these:

- what is saved is read back: settings, shares, manifests, text documents, snapshots;
- documents that were edited on several devices agree, merging them is commutative, associative
  and idempotent, and after a sync both devices hold the same document and the same manifest;
- a text that was taken over is shown exactly as it was saved, and an edit adds and deletes no more
  lines than it must;
- a snapshot that comes in again changes nothing, those that devices make of their own files among
  them;
- an account gets the least port that can be bound and that no other account has;
- a scan lists exactly the files that were found and are not left alone, and a second scan changes
  nothing;
- a file that holds what it should is not written again, and none is written while an editor has
  it open;
- the daemon writes out shared folders only after a sync, never right after a scan;
- only devices of the account are admitted and found.

What the library takes on trust are the calls into `argon2`, `sha2`, `base64` and a few functions
of the standard library; each stands in a small function of its own that says what is relied on.

## Notes

- Of lines that were written below the same line, the one with the later name is shown first, with
  all that stands below it. A new line has the largest number, so it is shown right behind the line
  that it was typed behind.
- A text that ends in a carriage return loses it where it is the last column of a line in a file.
- `list`, `clone` and `sync` look for peers on the network unless `--peer` names one.
