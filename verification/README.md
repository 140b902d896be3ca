# termfilechooser

A terminal-backed backend for the XDG Desktop Portal FileChooser interface.
`src/` is a Verus library that holds every decision the backend makes;
`app/` is the process around it (command line, D-Bus service, terminal
processes, files).

- `config` — configuration defaults, quoted command strings (`shlex`),
  validation, and how a configuration file that was looked for resolves.
- `options` — the portal call's options table and the decoding of boolean,
  byte-string and byte-array options.
- `chooser` — the chooser's and the terminal's command lines.
- `selection` — the chooser's output read as paths, and their checks.
- `response` — the OpenFile, SaveFile and SaveFiles requests and answers,
  response codes, and what a terminal poll means.
- `paths` — Unix paths as bytes: absoluteness, `join`, `parent`,
  components, plain file names, `file:` URIs.
- `portal_config` — the portal-policy rewrite, policy directories,
  desktop names, and the choice of the policy file to edit.
- `cancel` — the cancellation flag shared with the request object.
- `lines`, `text` — line splitting and character helpers.

Proved laws include: the policy rewrite changes nothing but the FileChooser
preference, always starts it on a line of its own, and is idempotent; percent-decoding
a `file:` URI gives back the path bytes; a plain SaveFiles name joins as one
child component of the chosen directory; only nonempty chooser output with
the right count of absolute paths is accepted, and every other answer carries
no results.
