# deimos-agent

An agent that runs beside a game under Windows or Wine. It lists processes,
opens sessions on them, reads, scans and changes their memory, puts detours into
their code, starts and ends the game, logs in, and sends keys and clicks to its
windows, all on behalf of a host.

`src/` is the library. It holds every rule and every procedure, written in Verus
with contracts. What the platform answers comes in through the traits of
`backend`; where a procedure has to wait, the library says what comes next and
the program sleeps in between.

- `text`, `codec`, `order`, `ordered`, `threads`: text, bytes, sorting and maps.
- `protocol`, `rpc`: requests, responses and failures.
- `backend`, `process`, `clients`: the platform, sessions and game clients.
- `memory`, `signature`, `scan`, `search`: reads, signatures, scans and pointers.
- `mutation`, `steps`, `probe`, `calls`: changes, and logs of operations.
- `x64`, `assembly`, `hook`, `core_hook`: instructions and detours.
- `exports`, `payload`, `feature_template`, `feature_hook`, `feature_error`:
  hooks for movement, mouse, chat and dance.
- `game_process`, `game_login`, `window_input`: the game and its windows.
- `windows_process`, `inspection`, `arguments`, `instance`, `service`: what the
  program decides.

`app/` is the program: the command line, the connection, JSON and Windows.
`tests/` runs the library over backends that keep their memory in vectors.
