# hello_serial

Firmware for an STM32F407 that asks, over UART4, for a name and greets it.

- `src/` is the verified library (Verus). Each piece of control flow that
  alternates with hardware or with an executor is a state machine whose
  transitions are proved against spec functions:
  - `executor`: the decisions of `block_on` and the executor's wake-up flag;
  - `utils::io`: the `Read`/`Write` traits, the byte-at-a-time fill and
    transfer of a serial port, `write_all` and `read_until`;
  - `app`: the greeting dialogue.
  The `Read` and `Write` traits let an implementation keep a log of its
  calls (what each was handed and answered) and of the bytes that went
  through it. For such an implementation, the polls of `write_all` and
  `read_until` state which calls they made and that their result is the spec
  run over those calls' answers. Laws that span several steps are public
  proof functions next to the machines, over those spec runs.
- `app/main.rs` is the firmware: clocks, pins, the UART, interrupts, the
  waker vtable and the futures that drive the machines.
- `tests/` replay the machines on concrete inputs.
