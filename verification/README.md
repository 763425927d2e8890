# rust_link

Verified logic of a USB debug probe that is at once a CMSIS-DAP SWD probe, a
PPK2-compatible power profiler and a USB to UART bridge.

- `src/` — the library, verified with Verus:
  - `hex` — upper-case hexadecimal serial numbers;
  - `ppk2` — the measurement word, the command set, the streaming session,
    the metadata text and the DFU version reply;
  - `dap` — the bit-banged SWD engine over user pins and delay, with a ghost
    history of every pin action, counter reading and wait that the contracts
    speak of;
  - `uart` — the decisions of the USB/UART bridge;
  - `board` — delay arithmetic, LED and pin levels, the stand-in ADC pattern.
- `app/` — the async USB tasks and the `dap-rs` / `embassy-usb` trait
  implementations that drive the library.
- `tests/` — tests of the library, with a simulated SWD target.
