# agent_sim

A runtime for firmware compiled as a shared library: it loads the library,
drives its signals and simulated time from the command line, joins several
instances into an env with shared CAN buses, and preloads flash images.

- `src/` is the library, verified with Verus: CAN frames and DBC bit
  layouts, Intel HEX and S-record parsing, flash memory images, signal
  selectors and catalogs, simulated time, the instance and env daemons'
  decisions (CAN schedules, traces, worker reads), the CLI's parsing rules
  and the retry policy of the local transport. Each public function states
  what it returns in its contract; laws about a single function stand in
  its contract, and those that relate several results stand as public
  proof functions.
- `tests/` exercises the library on concrete values.
- `app/` is the program around it: argument parsing, configuration files,
  local sockets, the daemons' event loops, the foreign-function calls into
  the loaded project, SocketCAN links and output tables.
