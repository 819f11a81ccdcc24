# herdr_terminal

Raises the terminal container (a kitty window, an iTerm2 session) that shows a
Herdr session, before a notification click activates the bound terminal.

- `src/` is the verified library: finding a session's client socket, parsing
  `lsof -F pdn` output, `ps` tty output and `KERN_PROCARGS2` buffers, ordering
  clients by recent input, the terminal adapters, and the step-by-step
  decisions of raising a container and of running a focus command.
- `app/` runs those decisions against the system: it lists processes, reads
  their environments with `sysctl`, and runs the focus commands with a
  deadline.
- `tests/` exercises the library on concrete inputs.
