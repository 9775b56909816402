# govee

A command-line controller for Govee lights on Linux (LAN API over UDP, cloud login and
scenes, screen-following "DreamView"), split into a library whose logic is verified
with Verus and a thin program around it.

- `src/` — the verified library:
  - `base64`: padded base64 encoder and the lenient decoder, with the round-trip law;
  - `packet`: BLE lines and `razer` packets with their XOR checksums;
  - `scene`: cloud scene catalogue, scene lookup, and the LAN `ptReal` upload lines;
  - `screen`, `sides`, `dreamview`: frame files, screen areas and bands, grouping of
    segments by area, target parsing and the per-frame send decisions;
  - `cloud`: identities, `curl`/`openssl` command lines, headers, token expiry, login
    steps;
  - `color`, `parse`, `text`, `effect`, `lan`: hex colours, number and text parsing,
    effect names and palettes, ports and brightness.
- `app/main.rs` — the program: argument parsing, sockets, files, processes, and the
  floating-point colour maths.
- `tests/` — tests of the library on concrete values.
