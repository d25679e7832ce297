//! The record of a compiled circuit's statistics.

use vstd::prelude::*;
use vstd::string::*;

use crate::lowering::CircuitStats;
use crate::surgery::SurgeryGraphConfig;
use crate::text::{push_decimal, push_decimal_u64};
#[allow(unused_imports)]
use crate::text::decimal;

verus! {

/// How many ancillas the written circuit has: the pool where the syndrome is extracted
/// with ancillas, and none otherwise.
pub open spec fn ancillas(stats: CircuitStats, extracted: bool) -> nat {
    if extracted {
        stats.sec_ancilla_pool as nat
    } else {
        0
    }
}

/// All qubits of the written circuit.
pub open spec fn qubit_total(stats: CircuitStats, extracted: bool) -> nat {
    (stats.code_qubits + stats.edge_qubits + ancillas(stats, extracted)) as nat
}

/// The parameters of the surgery graphs.
pub open spec fn config_text(c: SurgeryGraphConfig) -> Seq<char> {
    "  \"config\": {\n    \"expander_trials\": "@ + decimal(c.trials as nat)
        + ",\n    \"expander_reset_period\": "@ + decimal(c.reset_period as nat)
        + ",\n    \"expander_max_iterations\": "@ + decimal(c.max_iterations as nat)
        + ",\n    \"expander_qubit_degree\": "@ + decimal(c.qubit_degree as nat)
        + ",\n    \"surgery_seed\": "@ + decimal(c.seed as nat)
        + ",\n    \"cellulation_degree\": "@ + decimal(c.max_check_degree as nat) + "\n  },\n"@
}

/// The qubit counts.
pub open spec fn qubits_text(stats: CircuitStats, extracted: bool) -> Seq<char> {
    "  \"qubits\": {\n    \"code\": "@ + decimal(stats.code_qubits as nat) + ",\n    \"edge\": "@
        + decimal(stats.edge_qubits as nat) + ",\n    \"ancilla\": "@ + decimal(
        ancillas(stats, extracted),
    ) + ",\n    \"total\": "@ + decimal(qubit_total(stats, extracted)) + "\n  },\n"@
}

/// The record as JSON.
pub open spec fn record_text(
    arch: Seq<char>,
    rounds: usize,
    c: SurgeryGraphConfig,
    stats: CircuitStats,
    extracted: bool,
) -> Seq<char> {
    "{\n  \"arch\": \""@ + arch + "\",\n  \"rounds\": "@ + decimal(rounds as nat) + ",\n"@
        + config_text(c) + qubits_text(stats, extracted) + "  \"syndrome_cycles\": "@ + decimal(
        stats.syndrome_cycles as nat,
    ) + ",\n  \"sec_depth\": "@ + decimal(stats.sec_depth as nat) + "\n}\n"@
}

fn push_config(out: &mut String, c: &SurgeryGraphConfig)
    ensures
        final(out)@ == old(out)@ + config_text(*c),
{
    let ghost before = out@;
    out.append("  \"config\": {\n    \"expander_trials\": ");
    push_decimal(out, c.trials);
    out.append(",\n    \"expander_reset_period\": ");
    push_decimal(out, c.reset_period);
    out.append(",\n    \"expander_max_iterations\": ");
    push_decimal(out, c.max_iterations);
    out.append(",\n    \"expander_qubit_degree\": ");
    push_decimal(out, c.qubit_degree);
    out.append(",\n    \"surgery_seed\": ");
    push_decimal_u64(out, c.seed);
    out.append(",\n    \"cellulation_degree\": ");
    push_decimal(out, c.max_check_degree);
    out.append("\n  },\n");
    assert(out@ =~= before + config_text(*c));
}

fn push_qubits(out: &mut String, stats: &CircuitStats, extracted: bool)
    requires
        qubit_total(*stats, extracted) <= usize::MAX,
    ensures
        final(out)@ == old(out)@ + qubits_text(*stats, extracted),
{
    let ghost before = out@;
    let extra: usize = if extracted {
        stats.sec_ancilla_pool
    } else {
        0
    };
    out.append("  \"qubits\": {\n    \"code\": ");
    push_decimal(out, stats.code_qubits);
    out.append(",\n    \"edge\": ");
    push_decimal(out, stats.edge_qubits);
    out.append(",\n    \"ancilla\": ");
    push_decimal(out, extra);
    out.append(",\n    \"total\": ");
    push_decimal(out, stats.code_qubits + stats.edge_qubits + extra);
    out.append("\n  },\n");
    assert(out@ =~= before + qubits_text(*stats, extracted));
}

/// The record of a compiled circuit: the architecture, the rounds, the parameters of the
/// surgery graphs, the qubit counts and the depths.
pub fn stats_record(
    arch: &str,
    rounds: usize,
    config: &SurgeryGraphConfig,
    stats: &CircuitStats,
    extracted: bool,
) -> (r: String)
    requires
        qubit_total(*stats, extracted) <= usize::MAX,
    ensures
        r@ == record_text(arch@, rounds, *config, *stats, extracted),
{
    let mut out = String::new();
    out.append("{\n  \"arch\": \"");
    out.append(arch);
    out.append("\",\n  \"rounds\": ");
    push_decimal(&mut out, rounds);
    out.append(",\n");
    push_config(&mut out, config);
    push_qubits(&mut out, stats, extracted);
    out.append("  \"syndrome_cycles\": ");
    push_decimal(&mut out, stats.syndrome_cycles);
    out.append(",\n  \"sec_depth\": ");
    push_decimal(&mut out, stats.sec_depth);
    out.append("\n}\n");
    assert(out@ =~= record_text(arch@, rounds, *config, *stats, extracted));
    out
}

} // verus!
