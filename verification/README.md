# desktop_utils

Three small desktop utilities, with their logic verified by Verus:

- a line relay between processes over a Unix socket (`ipc`), whose server can
  keep the latest lines in memory for new clients;
- a command scheduler (`schedule`) that runs a command at an interval and on
  each line of input;
- a text animator (`text-animator`) that shows JSON-described text growing
  or shrinking, character by character, with markup kept around its parts.

`src/` is the verified library:

- `memory`: the bounded memory of complete lines and the line splitting of a
  byte stream, with laws on how writes compose and that no byte is lost;
- `observer`: the trait through which a writer reports what it writes;
- `forward`: the decisions of the line forwarder (write, stop or go on);
- `outputs`: removal of the output streams whose write failed;
- `read_state`: the request and buffer bookkeeping of a reader fed by a
  helper thread;
- `content`: text content, its visible length and what it shows under a
  limit of visible characters;
- `animation`: the limits that the frames of an animation show;
- `command`: the command line that the scheduler runs.

`app/` holds the programs around it: argument parsing, sockets, processes,
threads, timers and terminal output.
