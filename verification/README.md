# ti82_link

Verified logic for a TI-82 link bridge: an Arduino that talks to the
calculator over its two-wire D-BUS port, and a host tool that talks to the
bridge over a serial line.

- `src/` — the library, verified with Verus:
  - `number` — the 9-byte real-number format, integer encoding, host reading;
  - `encoding` — list and string payloads;
  - `variables` — variable headers;
  - `packet` — packet framing and checksums;
  - `link` — bit order and line rules of the two-wire link;
  - `transfer` — the request and send exchanges as event-driven scripts;
  - `tokens` — program token decoding;
  - `host`, `bridge`, `text` — the serial protocol between host and bridge;
  - `buffers` — the `heapless` buffers the protocol uses, behind wrappers.
- `app/` — the host command-line tool (`main.rs`) and the bridge's pin,
  serial and delay handling (`bridge.rs`), unverified.
- `tests/` — tests of the library.

A note on the real-number example of the tool's documentation: it shows the
bytes `00 82 42 00 00 00 00 00 00` as 42.0. That example is a slip. The
exponent byte is biased by 0x80, so 0x82 is exponent 2 and those bytes are
4.2 × 10² = 420, which is how the firmware's own code reads and writes them
(42 is written `00 81 42 00 00 00 00 00 00`). The library follows the code:
`parse_real_parts` reads exponent byte − 0x80, and `encode_integer` writes
0x81 for a two-digit number.
