# translator

A terminal tool for annotating a text line by line: each line can carry, at
positions of its own, a sentence translation and a description. The library
(`src/`) holds everything the tool decides, each function with a contract that
states what it returns:

- `structure`: texts, lines, words and commentary, and their models;
- `converter`: splitting a text into lines and lines into words;
- `session`: the editing session as a state machine (`AppState::handle_input`);
- `render`: the screen text of a session, with the cursor marked by escape codes;
- `page`: the layout of a text as a page of translated pieces;
- `pdf`: a PDF made with `pdf_oxide`.

`app/` is the terminal program around it: it reads keys with `crossterm`,
draws with `ratatui`, picks files with `ratatui-explorer` and builds HTML
with the `html` crate.
