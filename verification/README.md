# lazymd

A terminal Markdown previewer, as a verified library and a thin program
around it.

- `src/` is the library, checked by Verus: Markdown parsed by comrak and read
  back into a tree (`doc`), word wrapping (`wrap`), the renderer with its
  canvas, tables, inline styling and images (`render`), syntax highlighting
  through syntect (`highlight`), the scrolling view (`app`), key handling
  (`input`), the event loop's decisions (`events`), the log's location (`logdir`), the status line (`status`)
  and the command line's values (`cli`).
  Each step of rendering has a spec function, and `render_document` is proved
  to compute their composition; `render::laws` proves what every block keeps.
  Reading comrak's XML back is proved both ways: a tree comes back exactly
  when the XML is the printing of one, and it prints as that XML.
- `app/` is the program: clap arguments, the terminal, the file watcher, the
  event loop, logging, image decoding and drawing with ratatui.
- `tests/` runs the library on concrete documents.
