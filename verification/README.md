# round_robin

A connection's bytes are cut into numbered frames, the frames travel over several
tunnels at once, and the other end puts them back in order.

```
client -> SOCKS5 -> splitter -> N tunnels -> reassembler -> SOCKS5 -> target
```

The library in `src/` holds what decides or computes, verified with Verus: the wire
format, the reorder window, the SOCKS5 handshakes, the rules of both ends, which tunnels
a frame is offered to and what follows each outcome, and the configuration. It does no
I/O: frames, outcomes and the time go in, actions come out. The program in `app/` opens
sockets and files, runs the tasks, and carries the actions out. One computation stands
in `app/` too, because it is floating point: the measured rates of the tunnels, and the
weights by which one of the tunnels that may take a frame is chosen.

| module        | what it holds                                                  |
|---------------|----------------------------------------------------------------|
| `frame`       | frames, their wire format, the decoder of a byte stream        |
| `reorder`     | the reorder window                                             |
| `splitter`    | the near end: client connections, their ids, closing, sweeping |
| `reassembler` | the far end: waiting frames, egress connections, half-close    |
| `exchange`    | both ends together: a request, its end, and the response       |
| `tunnel`      | the pool of tunnels, sending, and what is lost with a tunnel   |
| `socks5`      | SOCKS5 messages and both sides of the handshake                |
| `config`      | defaults, limits, port lists                                   |
| `logging`     | dates and names of log files                                   |
| `addr`        | IP addresses and their text forms                              |
| `text`        | decimal and hexadecimal numbers, splitting and trimming        |
| `wire`        | big-endian numbers                                             |
| `clock`       | spans of time                                                  |
| `sums`        | totals over maps                                               |
| `buf`         | what is taken from `bytes`                                     |
| `tables`      | what is taken from `dashmap`                                   |

What holds of the library as a whole is stated by the proof functions whose names begin
with `law_`.
