# timely_fpga

Progress tracking for timely dataflow in which some operators run on an FPGA. The operators on
the device do not run on the host: nodes that are never scheduled stand in the dataflow graph for
them, and one operator on the host, the wrapper, exchanges frontiers, data and progress reports
with the device for all of them.

- `src/` is the library, written and proved in Verus.
  - `change_batch`, `frontier`, `order`, `location`: counted changes, frontiers, times, places.
  - `shared_progress`, `statements`, `active`, `reachability`, `per_operator`: what operators
    report, and what becomes of it.
  - `subgraph_builder`, `registration`, `assembly`, `ports`, `validation`: putting a scope together,
    and testing whether its parts fit.
  - `logging`: what there is to log.
  - `subgraph`: the steps of a round of scheduling.
  - `words`, `access`, `device`, `emulation`, `naming`, `fakeoperator`: what wrappers share.
  - `fpga_wrapper`, `fpga_wrapper_eci`, `fpga_wrapper_pci`, `fpga_wrapper_simulation`: the ways to
    the device. Accesses to shared memory are planned here, as lists of `Access`.
  - `delay`, `bloom`, `bloom_hard`: further operators.
  - `execute`: the parameters of a run, and the workers that it takes.
- `tests/` runs the library on concrete values.
- `app/` is ordinary Rust around it: threads, shared memory, and the operators that perform the
  planned accesses.

A proof function whose name starts with `law_` states a property that spans several functions.
