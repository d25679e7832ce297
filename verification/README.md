# qleave

A verified compiler library for quantum architectures with a large memory code block
and a smaller processor code block. It takes QASM2 circuits to sequences of Pauli
product measurements, and those to stabilizer checks and physical circuits.

The passes, in order:

1. **Partition** the circuit into subcircuits that fit the processor (`partition`
   greedily, `sat_partition` and `mip_partition` by what a solver finds).
2. Insert **loads and stores** between subcircuits (`load_store`).
3. Turn gates, loads and stores into **Pauli product** rotations and measurements
   (`compile`, `pbc`).
4. Optionally resolve conditional rotations, and **absorb** Clifford rotations.
5. Build a **surgery graph** for every measurement (`expander`, `cellulation`,
   `surgery`, `bridge`), and its checks (`graph_to_checks`, `circuit_to_checks`).
6. **Lower** the checks to a physical circuit (`lowering`, `pipeline`), with syndrome
   extraction scheduled in layers (`sec_schedule`), and write it as stim text (`stim`).

## Layout

- `src/` is the library, verified but for the trusted functions named below; its contracts
  are stated over the spec functions of its modules. Modules that hold laws rather than code:
  `replay` (load/store programs run their subcircuits), `fewest_moves`,
  `best_partition` and `best_solution` (evicting by furthest next use moves the fewest
  qubits, and so do the partition that a complete SAT solver finds and a cheapest solution
  of the mixed-integer program), `conjugation` and `clifford`
  (what absorbing rotations means), `merged_code` and `measured` (the merged checks
  commute and measure the operator), `bridge`, `extraction`, `layers`, `completeness`
  and `pool` (what lowering syndrome extraction keeps), `cycle_space` (cycle bases of grown
  graphs), `turns` (frames turn by turn), and `round_trip` and `whole_text` (a written
  program is read back; batches of a text add up to the parsed program).
- `tests/` runs the library on concrete inputs.
- `app/` is the command-line program around it: arguments, files, the SAT and MIP
  solvers, the external helper scripts, and the spectral estimates that use floating
  point.

Calls into petgraph, ndarray, rand and rustsat stand behind small trusted functions in
`graph`, `matrix`, `random`, `compile` and `sat_partition`; the doc comment of each says
what is taken on trust.
