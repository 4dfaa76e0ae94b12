# aifs

A semantic file system. Documents in a folder are tagged by a language
model, embedded, and stored in a vector database. A FUSE mount then offers:

- `ask`: write a question into it;
- `results/`: symlinks to the files that match the last question;
- `answer.txt`: the generated answer;
- `tags/<tag>/`: symlinks to the files that carry each tag.

## Layout

- `src/` is the verified library (Verus). It holds the inode layout and the
  replies to every file-system request (`fs`), the tag view rebuilt from
  the store (`tags`), the text of office documents read from their zip
  archives (`archive`), the decisions made while indexing (`indexer`),
  which changed files are indexed again (`watcher`), what a search prints
  (`searcher`), text and path utilities (`text`, `path`), and the
  properties that span requests (`laws`).
- `app/` is the program around it: argument handling, the FUSE glue, the
  HTTP client for the model server, the vector store, directory walking,
  and file watching.
- `tests/` runs the library on concrete inputs.
