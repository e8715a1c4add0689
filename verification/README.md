# sngram

Sparse n-gram extraction for regular-expression search indexing, verified with
Verus.

A weight table gives every byte pair a weight, high for rare pairs and low for
common ones. A scan extracts every substring whose two border pairs weigh
strictly more than every pair between them. A regex folds into a boolean plan
over such grams that every matching document satisfies, so an index that holds
the grams can narrow a search without ever losing a match.

## What is proved

- A scan emits every gram of a text and nothing else, with the hash of its
  bytes, however the text is cut into chunks, and no document leaks into the
  next (`extract`, `extract::replay`).
- A changed byte, leading zeros and another key always change a hash
  (`hashing::distinct`).
- The covering grams of a literal are grams of every text that contains it, and
  a literal as long as a gram always has some (`extract::cover`).
- A plan never misses: where a pattern matches a document, the document's grams,
  where they stand, and its summary satisfy the plan, in the folded space too,
  with line sentinels and without (`query::soundness`).
- The gram algebra keeps truth, and tuning a plan by document frequencies only
  widens it and never takes its last constraint (`query::algebra`,
  `query::plan::tune`, `query::plan::kept`).
- Counting never pairs bytes of two values, and counts add up in any order and
  grouping; checkpoints and tables read back as what was written (`learn`,
  `learn::sums`, `table`).

## Layout

- `src/` is the library.
- `tests/` runs it.
- `app/` is ordinary Rust around it: messages for errors, formatting, readers
  and threads.
