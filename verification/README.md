# cornea

Debugging a Cortex-M core in an Arm Fast Models simulation from gdb, over the Iris debug
connection: registers, memory, breakpoints and watchpoints, and SEGGER RTT in both
directions.

`src/` is the library, written in Verus. It holds all decisions and no I/O: an operation
that needs the target, the simulation or a socket asks for one access at a time, and goes
on when it is told what came of it. What each operation does is stated in its contract;
what they come to together is stated in the public proof functions.

| Module | What it is about |
| --- | --- |
| `memory`, `access` | memory accesses, and bytes packed into words |
| `dialogue` | conversations with the target's memory, and the memory that answers |
| `ring`, `up`, `down` | the ring buffers of RTT, draining and filling one |
| `scan`, `locate` | finding the control block |
| `rtt` | the state of RTT, and the commands that change it |
| `outputs`, `inputs`, `pump` | a round over all channels and sockets |
| `delivery`, `flow` | what a round comes to as a whole |
| `text`, `numbers`, `monitor`, `console` | monitor commands |
| `registers`, `transfer` | gdb's register block, and the core's registers |
| `stub`, `resume` | the debug session: breakpoints, memory, letting the target run |
| `pipe` | gdb on the other end of a pipe |
| `error` | what can go wrong with RTT |

`app/` is ordinary Rust around it: the gdbstub target, the TCP sockets and the pipe. It
takes any connection that implements its `Iris` trait.
