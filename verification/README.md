# hfq_rs

Margin analysis for superconducting HFQ/SFQ circuits simulated with JoSIM.
A netlist marks the parameters to study with `#!name` after their value
(`.param bias=20 #!bias`); the margin of each parameter is the range of values
over which the circuit still switches at the same times as with the initial
value.

## Layout

* `src/` — the library, verified with Verus:
  * `annotations` — reading `#!` annotations (each parameter once, with the
    value of its first annotation) and removing them before simulation;
  * `substitute` — setting one annotated parameter to a new value, which is
    read back where the parameter was first assigned;
  * `transient` — preparing a netlist whose results JoSIM writes to a CSV file;
  * `josim` — turning JoSIM's printed result table into CSV text;
  * `search` — the bisection decisions of the upper and lower margin searches,
    with the laws that they stay in range, converge on the bound and never
    narrow the margin of a circuit that passes more often;
  * `timing` — finding a switching event and pairing timing tables by
    element name, whatever order they come in;
  * `config` — TOML settings; `flux` — the flux-quantum kind;
  * `scan`, `text` — character classes, runs and string helpers.
* `app/` — the program around it: running JoSIM, DataFrames (polars),
  floating-point switch detection and comparison, threads and progress bars.
* `tests/` — tests of the library, among them comparisons of the netlist
  functions with the same patterns run by the `regex` crate.
