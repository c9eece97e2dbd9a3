# Chat Extractor for Signal

Extracts selected chats from a Signal Desktop plaintext export, offline, as
Markdown or JSON, with or without media. It is not affiliated with Signal
Messenger LLC.

## Layout

- `src/` is the library, verified with Verus. It decides and computes, and touches
  no file: it indexes an archive (`archive`, `parser`, `model`), whatever the order
  of its lines (`permutation`), plans an export (`plan`, `names`, `path`), tells its
  messages (`message`, `payload`, `media`, `copier`), frames its documents
  (`markdown`, `documents`, `json`) and says what their whole text is (`assembly`),
  keeps count of it (`staging`), runs it (`run`), and puts it in place so that a
  failure leaves everything as it was (`install`, `transaction`). `wizard` holds the
  rules of the four steps that the user is led through.
- `app/` is the program around it: a GTK window, and the files and folders that
  the library asks for.
- `tests/` runs the library, whole exports on files held in memory among them.

Text, dates and orders have modules of their own (`text`, `words`, `order`,
`calendar`). What the library believes of the standard library and of other crates
stands where it is called, most of it in `text`, `calendar`, `json` and `media`, each
with a comment that says what it is.

Paths are those of Unix, and text: the program runs on Debian and Ubuntu, and a path
that is not UTF-8 is refused.
