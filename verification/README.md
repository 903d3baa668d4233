# waydapt

A proxy between Wayland clients and a Wayland server. It understands the protocols that both sides
speak, as far as it has been given their XML descriptions, lets through only the globals and versions
that a file of limits names, and has handlers see the messages that they ask for. A handler can change
a message, drop it, or send it on.

`src/` is a library that is verified with Verus. It reads protocols, limits and arguments, and decides
what becomes of each message, session and event. It performs no input or output: it says what is to be
sent, received, closed or printed, and hears what came of it.

- Protocols: `xml` and `parse` read descriptions; `postparse`, `limits` and `linkup` work out which
  interfaces and messages are active, and `actives` holds them; `dump` lists them.
- Messages: `header`, `args` and `message` take them apart and put them together; `chunk`, `buffers`
  and `outbuffer` hold what has come in and what waits to be sent.
- Handlers: `for_handlers` is what they see; `handlers`, `builtin`, `addons` and `gather` say which of
  them see which messages.
- Sessions: `map` knows the live objects, `mediator` decides on each message, `session` runs one
  client, `debug` puts messages into words.
- The program: `options`, `setup`, `listener`, `socket_events`, `event_loop`, `terminator`, `streams`
  and `version_info`.

What holds across functions stands in public proof functions whose names begin with `law_`, partly in
modules of their own (`limit_laws`, `message_laws`, `session_laws`).

`app/` is the program around the library: sockets, files, signals, processes. `tests/` runs the library
on concrete values.
