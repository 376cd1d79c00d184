# w10_bridge

The logic of a bridge to the Dreame Bot W10 robot vacuum, verified with Verus.

The robot's navigation daemon owns the serial ports of the motor controller and of the
lidar. The bridge either listens in on that daemon or takes its place:

- a **tap** inside the daemon mirrors its serial traffic into rings in shared memory,
  and can swap a client's speeds into the daemon's motor commands;
- a **relay** serves each ring over TCP and takes drive requests;
- a **decoder** shows what the streams hold;
- a **driver** reads the relay, or opens the ports itself and drives the robot.

## Layout

`src/` is the library. All of it is verified, against contracts that say what each
function returns or changes.

| module | what it holds |
|---|---|
| `ring`, `shm` | the byte ring, and the region of four rings and a control block |
| `tap`, `control` | which traffic is mirrored where; replacing motor commands |
| `relay` | the served channels, and a client's place in its stream |
| `frame`, `message` | the motor controller's packets and messages |
| `lds`, `sweep` | the lidar's packets, and gathering them into sweeps |
| `command`, `transmit`, `receive`, `link`, `driver`, `device` | the driver and its factory |
| `options`, `decode`, `volatility`, `hexdump` | the decoder |
| `sensors`, `float32`, `text` | named values, floats by their bit pattern, text |

Functions named `law_...` state what holds across functions: what a reader of a ring
gets back of a write, that a packet sent is the packet received, that no motor command
exceeds the limits, that an old command stops the robot.

The library holds floats by their bit pattern. It compares and limits them; it does no
arithmetic on them. One function of the standard library, `String::push`, is taken at its
documented word.

`app/` is the code around the library: sockets, serial ports, shared memory, threads,
and what needs floating-point arithmetic. `tests/` runs the library on given values.
