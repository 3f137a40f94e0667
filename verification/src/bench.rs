//! Plain records used by the measurement harness around the library:
//! sample descriptors, counter readings, and query statistics. They
//! carry no logic of their own; their constructors pin every field.

use vstd::prelude::*;

verus! {

/// Which access pattern a measurement run exercises.
#[derive(Clone, Copy, Debug, PartialEq, Eq)]
pub enum BenchmarkType {
    PositionUpdate,
    MixedNodes,
    LightNodes,
    HeavyNodes,
    AllNodes,
}

impl BenchmarkType {
    /// The stable name of the pattern.
    pub fn as_str(&self) -> (r: &'static str)
        ensures
            r@ == match *self {
                BenchmarkType::PositionUpdate => "position_update"@,
                BenchmarkType::MixedNodes => "mixed_nodes"@,
                BenchmarkType::LightNodes => "light_nodes"@,
                BenchmarkType::HeavyNodes => "heavy_nodes"@,
                BenchmarkType::AllNodes => "all_nodes"@,
            },
    {
        match self {
            BenchmarkType::PositionUpdate => "position_update",
            BenchmarkType::MixedNodes => "mixed_nodes",
            BenchmarkType::LightNodes => "light_nodes",
            BenchmarkType::HeavyNodes => "heavy_nodes",
            BenchmarkType::AllNodes => "all_nodes",
        }
    }
}

/// One measured sample: wall time in nanoseconds, hardware counter
/// readings, and how many iterations the sample covered.
#[derive(Clone, Copy, Debug, PartialEq, Eq)]
pub struct PerfMeasurement {
    pub wall_time_nanos: u64,
    pub instructions: u64,
    pub cycles: u64,
    pub iterations: u64,
}

impl PerfMeasurement {
    /// Wrap the four readings of one sample.
    pub fn new(wall_time_nanos: u64, instructions: u64, cycles: u64, iterations: u64) -> (r:
        PerfMeasurement)
        ensures
            r.wall_time_nanos == wall_time_nanos,
            r.instructions == instructions,
            r.cycles == cycles,
            r.iterations == iterations,
    {
        PerfMeasurement { wall_time_nanos, instructions, cycles, iterations }
    }
}

/// Counters collected while instrumenting a radius query.
#[derive(Clone, Copy, Debug, PartialEq, Eq)]
pub struct Statistics {
    pub num_comparionsons: usize,
    pub actual_matches: usize,
    pub num_splits: usize,
    pub num_reductions: usize,
}

impl Default for Statistics {
    /// All counters start at zero.
    fn default() -> (r: Self)
        ensures
            r.num_comparionsons == 0,
            r.actual_matches == 0,
            r.num_splits == 0,
            r.num_reductions == 0,
    {
        Statistics { num_comparionsons: 0, actual_matches: 0, num_splits: 0, num_reductions: 0 }
    }
}

/// Where an external graph generator reads and writes its files.
#[derive(Clone, Debug, PartialEq, Eq)]
pub struct GraphGenerator {
    pub girgs_path: String,
    pub output_path: String,
}

impl GraphGenerator {
    /// Record the two paths.
    pub fn new(girgs_path: String, output_path: String) -> (r: GraphGenerator)
        ensures
            r.girgs_path@ == girgs_path@,
            r.output_path@ == output_path@,
    {
        GraphGenerator { girgs_path, output_path }
    }
}

} // verus!
