# udcp

A UDP control protocol (UDCP) file server: a client names a file, the server sends
it back over UDP with a sliding window of numbered frames, cumulative
acknowledgements, retransmission on duplicate acknowledgements and on timeout,
after a `SYN` / `SYN-ACK<port>` / `ACK` handshake that gives each client a socket
of its own.

- `src/` is the verified library (Verus): frame and acknowledgement formats, the
  sender's window, the listener's handshake, and the recorders of transfer events.
  Its functions decide; they perform no I/O.
- `app/` is the server program: tokio sockets and timers that carry out what the
  library decides, the tracing layers that feed the library's recorders, the
  floating-point throughput and round-trip estimates, and the trace plots.
- `tests/` runs the library on concrete values.
