# fsend

Sends files over an encrypted datagram channel. One side serves a directory, the
other downloads a file from it: it asks for the byte ranges that it lacks, takes
the parts in as they come, in whatever order, and asks again for what got lost.

The library under `src/` decides; it does no input or output and is verified with
Verus. The program under `app/` performs what it decides.

- `src/lib.rs`: the events that the two sides exchange
- `src/progress.rs`, `src/progress/`: the byte ranges that have arrived: adding one
  (`merge`), finding the gaps (`invert`), counting bytes
- `src/client.rs`: the decisions of the downloading side, as a state machine
- `src/server.rs`: the decisions of the serving side, as a state machine
- `src/in_flight.rs`: the identifiers of the requests that are being served
- `src/exchange.rs`: what the two sides achieve together

Public proof functions whose names start with `law_` state what holds of the
library as a whole, such as that a download that ends has every byte of the file.
