# rc9

A small interactive command shell. The library (`src/`) holds everything the
shell decides, each function with a proved contract:

- `tokenize`: splitting a line into words and the operators `( ) = < > >> | || && ;`,
  with quotes and backslash escapes, and `needs_more_input` for continuation lines;
- `shell`: the variable store, the environment snapshot, and the expansion of `$NAME`;
- `command`: reading a command and its redirections from its tokens;
- `pipeline`: reading a pipeline, recognising `cd`, and planning each process's
  program, arguments, input and output;
- `input`: assignments (`x = a b`, `x = (a b)`) and chains joined by `&&`, `||`, `;`;
- `lines`: trimming, and the commands of the start-up file `~/.rc9rc`;
- `token_laws`: laws of the tokenizer (what survives it, quoting, re-tokenizing,
  and splitting a line at a space).

`app/` is the program around it: line editing with `rustyline`, history, reading
the environment and the start-up file, and spawning and waiting for processes.
