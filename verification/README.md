# turbo-debug-console

A Turbo Vision monitor for model-token streams. Clients on the same machine
name a session over the control port (7878), get a data port to stream at, and
each session is shown in a window of its own, with its scrollback kept across
reconnects.

    printf 'HELLO 1 tokens build\n' | nc 127.0.0.1 7878

A session is a stream of model tokens (`tokens`) or of JSON-lines trace records
(`trace`). A first line that is no `HELLO` starts an anonymous token stream,
called `anon-1`, `anon-2` and so on, leaving out names that are taken.

## Layout

- `src/` is the library, verified with Verus:
  - `proto` reads the handshake line;
  - `registry` keeps the sessions, their ports and their one writer each;
  - `ansiasm`, `pipeline` and `tracefmt` turn bytes into lines of cells;
  - `streamview` is the scrollback: columns, scrolling, autoscroll, painting;
  - `session` and `console` hold the sessions and decide what events and
    commands mean for the windows;
  - `screen`, `text` and `cmd` are what the others share.
- `app/` is the program: sockets and threads (`net`), windows (`desk`), and the
  main loop. It reports what happened and does what the library decides.
- `tests/` runs the library.

Functions of other crates that the library calls stand behind small wrappers,
each with a comment on what is taken for granted about them. Text without
markup is known to come out of the token renderer as it is. What the renderer
makes of other text follows from its options and the text, however the text is
cut into pieces, as long as no tool call in it writes a file and no tag ends
thinking once a call has begun. Nothing is stated of what it writes beyond
that: the banner of a call that writes a file says whether the file is already
there. All that the renderer writes reaches the view.
