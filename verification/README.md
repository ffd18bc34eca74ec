# secure_chat_lib

A small peer-to-peer chat over TCP. The library in `src/` holds the logic,
verified with Verus: message values, the length-prefixed wire framing and
the receive loop over a connection's buffer, the token table of an I/O
worker, how the listening worker spreads connections over I/O workers and
routes messages, the console's commands and help text, the filing of
received messages with known peers, and the arithmetic of the timing test.

`app/` is the program around it: sockets (mio), threads and channels, the
console (text_io) and logging (log, simplelog).
