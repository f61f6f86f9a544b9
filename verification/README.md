# N1MM Bridge

A daemon that lets [N1MM+](https://n1mm.hamdocs.com/) logging stations and the contact database
of FD Logger work together over the local network, as a library verified with
[Verus](https://github.com/verus-lang/verus) and a thin program around it.

| Port | Protocol | Purpose |
|------|----------|---------|
| 12070 UDP | `<station>%<ip>%<port>%<version>%<station>%%` | each station announces itself every 20 seconds |
| 12070 TCP | `DATA__00%<sender>%<command>%<fields>%~__DATA` | keepalive, status, counts and contacts |
| 12060 UDP | `<contactinfo>` documents | contacts, broadcast to all stations |

## Layout

`src/` is the library. Every function in it states what it returns, and Verus proves it, except of
the few that call out: there it believes the statement. They are `local_now`, `utc_now`,
`format_time` and `format_rfc3339` in `clock` (chrono), `read_xml` in `xml` (roxmltree), and
`lossy_text` and the statements about `String::push` and `str::to_uppercase` in `text` (the standard
library).

| Module | Contents |
|--------|----------|
| `text` | strings as sequences of characters: trimming, splitting, comparing, spelling numbers |
| `rounding`, `number` | decimal numbers in text, read with the precision of binary64 in whole-number arithmetic |
| `band` | bands and modes, as the database and as N1MM+ name them |
| `clock` | the local clock and how moments are written |
| `config` | what the operator sets |
| `message` | messages between stations: framing, parsing, what is sent and what is answered |
| `contact` | contacts, and how they travel in messages |
| `reader` | cutting a byte stream into frames |
| `xml` | contacts as XML documents |
| `discovery` | announces, addresses, and which stations are connected to |
| `store` | which contacts of other stations go into the database |
| `watcher` | which contacts of the database go out, and under which identity |
| `session` | what to do on each thing that happens to a connection |

`app/` holds the sockets, the timers, the command line and the SQLite statements. `tests/` runs the
library with the crates that it calls: `chrono` for the clock and `roxmltree` for XML.

## What is proved

- A message that is framed is read back as it was sent, in whatever segments it travels.
- A contact that is sent over TCP is the contact that the receiver stores; so is one that is
  broadcast as XML, where its texts hold no markup.
- An echo request is answered with its own date and time, and no answer is answered.
- A message with counts has exactly 33 data fields.
- A station passes over its own announces and hears those of stations with another name.
- A connection that this station opened gives its address free when it ends, for whatever reason.
- In one run no contact is sent twice, and no two contacts share an identity.
- A contact that is in the database is entered by no later copy, be it a repeated datagram or the
  echo of what was sent.

## Running

```
n1mm_bridge --callsign KB3GTN --station WA3NAN-REMOTE --local-ip 192.168.1.17
```

`--station` must be the NetBIOS name of the machine. `--contest`, `--broadcast` and `--db` have
defaults.
