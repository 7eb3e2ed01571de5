# mdcli

Renders Markdown in the terminal: coloured headings, bold, italic and inline code,
faint code blocks, numbered and bulleted lists, links with their address, image text,
and tables drawn with Unicode box characters.

- `src/` is the library, verified with Verus. `text` measures what a terminal shows of
  text with ANSI escape sequences; `style` holds the style codes; `table` pads cells and
  draws tables; `event` is the document model; `render` turns events into text; and
  `markdown` reads Markdown into events with pulldown-cmark.
- `app/` is the command-line program: it reads a file or standard input, renders it and
  writes the result, through a pager when a long document goes to a terminal.
- `tests/` holds the tests.
