# asciibear

The logic behind a stream overlay that shows an ASCII bear: viewers recolour
it from Twitch chat with commands such as `!bear head: red`, and the page is
also sent thinned-out keyboard, mouse and microphone events.

- `src/` is the verified library: `text` (white space and trimming),
  `color` (CSS colour lookup through the `color-name` crate), `grammar`
  (the chat-command grammar as functions on characters), `command` (the
  command types and their parser), `events` (event throttling) and `chat`
  (what the chat listener remembers).
- `app/` is the server around it: websocket, Twitch client, input devices,
  and the serde copies of the library's types that are written to the page.
- `tests/` exercises the library, and checks the parser against the same
  grammar written with nom's combinators.
