# protostar_works

Protostar / ProtoGalaxy folding over a generic arithmetization, written in
Verus. The library's functions carry contracts that Verus proves, resting on
trusted wrappers around the calls into `halo2curves`, `ff` and `num-bigint`,
whose contracts are believed, not proved. The contracts of the gadgets state
the structure of what they build (their gates and operations); for the
Poseidon gadgets, proof functions (`law_*_sound` in `src/gadgets/poseidon.rs`)
go on to show that a witness on which every constraint holds gives their
outputs the Poseidon rounds, and the hash, of their inputs. The elliptic
curve gadgets state their gates only. For the combination of cross terms,
`law_extend_val_extrapolates`, `law_merge_vals` and `law_pair_merge` show
that extending and merging values is extrapolating and adding polynomials,
and `law_combine_polys` that the rounds leave the values of
`sum_i p_i prod_{bit k of i set} l_k`.

## Layout

- `src/field.rs`, `src/field_utils.rs`: the BN254 scalar field as canonical
  little-endian bytes, modelled by its value modulo the field's modulus; the
  field operations call `halo2curves` behind trusted wrappers.
- `src/constraint_system.rs`, `src/witness.rs`, `src/gate.rs`: variables,
  rounds, constraints, gates and witnesses.
- `src/gatelib.rs`, `src/advice.rs`: the kinds of gates and of advice that the
  gadgets use, each with the polynomial or computation it stands for.
- `src/circuit.rs`: building a circuit (advice, polynomial maps, constraints),
  executing it round by round and checking the witness.
- `src/gadgets/`: arithmetic, bits, chunks, limbs and range checks, lookups,
  Poseidon, elliptic curve operations and the base-9 scalar multiplication,
  and the cyclefold circuit.
- `src/cross_terms.rs`, `src/combine.rs`, `src/weighted.rs`, `src/prover.rs`,
  `src/run.rs`, `src/folding/`: cross terms, error terms, the folding
  challenges and the Poseidon hash.
- `src/annwfn/`, `src/exec_graph.rs`, `src/executor.rs`: typed circuit storage,
  a typed execution graph and the scheduling of a single-threaded executor.
- `tests/`: tests of the library on concrete values.
- `app/`: the development command line that writes the precomputed tables.
