# inkpage

The logic of a note-taking application, verified with
[Verus](https://github.com/verus-lang/verus): what a Markdown page means and how
it is shown, the forms of PDF files, and a whiteboard.

- `src/` is the library. Every function states what it does in `requires` and
  `ensures`, over mathematical models of its data, and is proved to do so. Laws
  that relate several functions are public proof functions whose names begin
  with `law_`.
- `tests/` run the library on concrete values.
- `app/` is what surrounds it: floating point, JSON, and the state that a process
  shares.

## Pages

Questions of syntax (links, anchors, properties, callouts, tables, lists, writing
direction) have a module each. `parse` turns a page into a document tree with the
`markdown` crate; `cache` keeps the trees of the pages that were used last.
`inline`, `rows`, `blocks` and `render` say what a page is shown as: a sequence of
steps (`ops`) that a host carries out. `find`, `search` and `overlay` search what
is visible, `clicks` maps a click back.

## Forms

`pdf` reads and writes files with the `lopdf` crate, without that crate's default
features: it then loads a file on one thread, and the same bytes always give the
same document. Encrypted files are left alone. `forms` lists the fields of a
file; `form_edits` fills them in and gives widgets an appearance.

## The board

`board` holds a scene, its selection and its history. Where an element lies is the
host's: the library knows a place by a key, and answers presses (`press`), moves
(`drags`) and keys (`keys`, `editing`) with what is to be done. `mindmap`,
`diagrams`, `segments` and `zorder` keep the elements together; `layers` and
`controls` say what is shown.
