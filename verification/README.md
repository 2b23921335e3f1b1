# codetracer-miden-recorder

A recorder for Miden VM programs. It assembles a MASM program, executes it in
the Miden VM, and turns the VM's states into a CodeTracer trace: steps, calls,
returns, variables and events. It also traces transactions on a simulated chain
and replays transactions from their captured inputs.

The library under `src/` is written in Verus: what each function does is stated
in its contract and proved.

| Module           | Purpose                                                       |
| ---------------- | ------------------------------------------------------------- |
| `tracer`         | From a program's source to the operations of its trace        |
| `source_map`     | From byte offsets to line numbers                             |
| `kernel_procs`   | Which procedures belong to the kernel                         |
| `mockchain`      | A simulated chain, execution contexts, sessions               |
| `client_replay`  | Inputs of transactions, the store that holds them, the replay |
| `cli`            | What the command line decides                                 |
| `json`, `path`   | Calls into `serde_json` and into std's paths                  |
| `text`, `number` | Reading and writing text and numerals                         |
| `table`, `list`  | Small collections                                             |

Inside `tracer`: `vm` holds the VM's states and the calls that assemble and
execute a program, `syntax` says which sources they take without a panic, on
the `tokens` of a source, its `constants`, and the `operands` that its
instructions find on the stack, `declarations` and `call_graph` read the source, `model` says what a trace is,
`machine` computes it, `program` puts the parts together, and `laws` and
`nesting` prove what holds of every trace.

A source that the assembler or the VM would answer with a panic is an error.
`syntax` decides this on the text alone, and so it refuses more than that:

- an instruction on a Merkle tree, a circuit or a Falcon dividend where the text
  does not show that its depth, its wires or its lower half fit. The number has
  to be pushed, or moved by stack instructions, directly before it, to be
  declared as the operand stack of the main body, or to be handed over by every
  call of the procedure that begins with the instruction;
- a call of a procedure by its root, and `dynexec` and `dyncall` other than
  behind `procref.f mem_storew.n dropw push.n`;
- the modules `fri` and `stark` of the standard library and `mod_12289`, which
  work on operands of that kind, and an `emit` of their events or of an unknown
  one;
- `debug.mem` and `debug.local` without an address, and a `//` whose divisor is
  not known.

A program that asks for too much memory, time or nesting is not refused.

What is not proved is listed where it stands: the functions marked
`external_body` and the `assume_specification` items call the Miden crates,
`serde_json` and std, and their contracts say what is taken for granted.

`app/` is the command line program: arguments, files, and the trace writer.
