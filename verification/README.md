# whereami

A Wi-Fi geolocation daemon (`whereamid`) and its command-line client
(`whereami`). The daemon scans Wi-Fi in the background, debounces the
access points it sees, resolves their positions through Apple WPS and
WiGLE, caches them in SQLite and answers "where am I?" over a TCP
JSON-lines protocol.

## Layout

- `src/` — the verified library (Verus). Every decision the daemon and
  the client make lives here with its contract: parsing of `nmcli` and
  `iw` output, the debounce window, the Apple WPS protobuf codec, the
  provider-chain state machine, the daily API quota, the address cache,
  the `history` range arithmetic, request checks and answers, and the
  client's argument handling. Laws that span several calls are public
  `proof fn`s named `lemma_*`.
- `tests/` — tests of the library on concrete values.
- `app/` — the program around it: clap flags, SQLite, HTTP clients,
  the tokio server and loops, and the floating-point geometry
  (trilateration, stay-point segmentation) that the library cannot hold.
  Run as `whereami` it is the client; under any other name, the daemon.
