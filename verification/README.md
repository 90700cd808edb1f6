# CopierR

CopierR copies trades. It takes the events of a master account, makes commands
of them by its routes, and hands these to the accounts that follow, on MT4, MT5
and cTrader.

- `src/` is the library: the wire protocol, the copy rules, the journal and what
  it amounts to, the daemon's decisions, the two venues that are reached
  directly, and the number arithmetic below them. All of it is verified with
  Verus: each function's contract says what it returns, and the functions named
  `law_...` state what holds of several together.
- `tests/` runs the library on concrete values.
- `app/` is the program around it: arguments, files, sockets, processes and the
  control page. It performs what the library asks for and hands back what came
  of it.

What the library believes without proof stands in few places: the digests of
the sha2 crate (`src/digest.rs`), the JSON reader and writer of serde_json
(`src/json.rs`), the system's clock (`src/clock.rs`) and `String::push`
(`src/text.rs`).

## Safety model

A command is recorded as queued, and then as dispatched, before it is handed to
a session. If the session goes away before it acknowledges the command, the
outcome is unknown, and the command is not sent again by itself. Queued commands
wait until their account is connected.

An account that is reached directly is refused where clients connect: its orders
come from its venue alone.

The volume of an opening lies within its route's bounds, in whole steps wherever
a whole number of steps lies there.

Volumes are numbers of double precision. The library computes with them by
integer arithmetic and proves each operation against its definition: the number
nearest to the exact result, and the even one of two that are equally near.

## Use

```
copierr validate --config copierr.toml
copierr daemon --config copierr.toml
copierr ui --listen 127.0.0.1:48180
```
