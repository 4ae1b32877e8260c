use vstd::prelude::*;

use crate::scalar::is_scalar;

verus! {

/// Shared simulation configuration for rip field-based models, in
/// micro-unit fixed point: initial field strength, decay rate per unit
/// time, time step size, and total simulated time.
#[derive(Clone, Copy, Debug, PartialEq, Eq, Structural)]
pub struct SimulationConfig {
    /// Initial rip field strength, micro-units.
    pub rip_initial: u64,
    /// Decay rate of the rip field per unit time, micro-units.
    pub rip_decay_rate: u64,
    /// Time step size per simulation iteration, micro-units.
    pub time_step_size: u64,
    /// Maximum simulation time, micro-units.
    pub max_simulation_time: u64,
}

impl SimulationConfig {
    /// Default rip inflation configuration: strength ten thousand, decay
    /// five, steps of a hundredth, ten units of time.
    pub fn default() -> (c: SimulationConfig)
        ensures
            c.rip_initial == 10_000_000_000,
            c.rip_decay_rate == 5_000_000,
            c.time_step_size == 10_000,
            c.max_simulation_time == 10_000_000,
            c.wf(),
    {
        SimulationConfig {
            rip_initial: 10_000_000_000,
            rip_decay_rate: 5_000_000,
            time_step_size: 10_000,
            max_simulation_time: 10_000_000,
        }
    }

    /// Faster rip decay for short inflation.
    pub fn fast_inflation() -> (c: SimulationConfig)
        ensures
            c.rip_initial == 10_000_000_000,
            c.rip_decay_rate == 7_000_000,
            c.time_step_size == 10_000,
            c.max_simulation_time == 5_000_000,
            c.wf(),
    {
        SimulationConfig {
            rip_initial: 10_000_000_000,
            rip_decay_rate: 7_000_000,
            time_step_size: 10_000,
            max_simulation_time: 5_000_000,
        }
    }

    /// Slower rip decay for long inflation.
    pub fn slow_inflation() -> (c: SimulationConfig)
        ensures
            c.rip_initial == 10_000_000_000,
            c.rip_decay_rate == 2_000_000,
            c.time_step_size == 10_000,
            c.max_simulation_time == 20_000_000,
            c.wf(),
    {
        SimulationConfig {
            rip_initial: 10_000_000_000,
            rip_decay_rate: 2_000_000,
            time_step_size: 10_000,
            max_simulation_time: 20_000_000,
        }
    }

    /// Build a custom configuration.
    pub fn from_parameters(
        rip_initial: u64,
        rip_decay_rate: u64,
        time_step_size: u64,
        max_simulation_time: u64,
    ) -> (c: SimulationConfig)
        ensures
            c.rip_initial == rip_initial,
            c.rip_decay_rate == rip_decay_rate,
            c.time_step_size == time_step_size,
            c.max_simulation_time == max_simulation_time,
    {
        SimulationConfig {
            rip_initial,
            rip_decay_rate,
            time_step_size,
            max_simulation_time,
        }
    }

    /// A configuration whose scalars are representable.
    pub open spec fn wf(self) -> bool {
        &&& is_scalar(self.rip_initial)
        &&& is_scalar(self.rip_decay_rate)
        &&& is_scalar(self.time_step_size)
        &&& is_scalar(self.max_simulation_time)
    }

    /// How many whole time steps fit into the configured simulation time.
    pub fn num_steps(&self) -> (n: u64)
        requires
            self.time_step_size > 0,
        ensures
            n == self.max_simulation_time as int / self.time_step_size as int,
    {
        self.max_simulation_time / self.time_step_size
    }
}

/// The output mode the orchestrating program was asked for.
#[derive(Clone, Copy, Debug, PartialEq, Eq, Structural)]
pub enum OutputMode {
    Structure,
    Inflation,
    All,
}

/// The bytes of the word `structure`.
pub open spec fn structure_word() -> Seq<u8> {
    seq![115u8, 116u8, 114u8, 117u8, 99u8, 116u8, 117u8, 114u8, 101u8]
}

/// The bytes of the word `inflation`.
pub open spec fn inflation_word() -> Seq<u8> {
    seq![105u8, 110u8, 102u8, 108u8, 97u8, 116u8, 105u8, 111u8, 110u8]
}

/// The bytes of the word `all`.
pub open spec fn all_word() -> Seq<u8> {
    seq![97u8, 108u8, 108u8]
}

/// Which mode a selector argument names, if any.
pub open spec fn parse_mode_spec(arg: Seq<u8>) -> Option<OutputMode> {
    if arg == structure_word() {
        Some(OutputMode::Structure)
    } else if arg == inflation_word() {
        Some(OutputMode::Inflation)
    } else if arg == all_word() {
        Some(OutputMode::All)
    } else {
        None
    }
}

/// Parse the positional mode selector: `structure`, `inflation` or `all`;
/// anything else selects no mode.
pub fn parse_mode(arg: &Vec<u8>) -> (r: Option<OutputMode>)
    ensures
        r == parse_mode_spec(arg@),
{
    if arg.len() == 9
        && arg[0] == 115 && arg[1] == 116 && arg[2] == 114 && arg[3] == 117 && arg[4] == 99
        && arg[5] == 116 && arg[6] == 117 && arg[7] == 114 && arg[8] == 101
    {
        proof {
            assert(arg@ =~= structure_word());
        }
        Some(OutputMode::Structure)
    } else if arg.len() == 9
        && arg[0] == 105 && arg[1] == 110 && arg[2] == 102 && arg[3] == 108 && arg[4] == 97
        && arg[5] == 116 && arg[6] == 105 && arg[7] == 111 && arg[8] == 110
    {
        proof {
            assert(arg@ =~= inflation_word());
        }
        Some(OutputMode::Inflation)
    } else if arg.len() == 3 && arg[0] == 97 && arg[1] == 108 && arg[2] == 108 {
        proof {
            assert(arg@ =~= all_word());
        }
        Some(OutputMode::All)
    } else {
        proof {
            if arg@ == structure_word() {
                assert(arg@.len() == 9);
                assert(arg@[0] == 115u8 && arg@[1] == 116u8 && arg@[2] == 114u8
                    && arg@[3] == 117u8 && arg@[4] == 99u8 && arg@[5] == 116u8
                    && arg@[6] == 117u8 && arg@[7] == 114u8 && arg@[8] == 101u8);
            }
            if arg@ == inflation_word() {
                assert(arg@.len() == 9);
                assert(arg@[0] == 105u8 && arg@[1] == 110u8 && arg@[2] == 102u8
                    && arg@[3] == 108u8 && arg@[4] == 97u8 && arg@[5] == 116u8
                    && arg@[6] == 105u8 && arg@[7] == 111u8 && arg@[8] == 110u8);
            }
            if arg@ == all_word() {
                assert(arg@.len() == 3);
                assert(arg@[0] == 97u8 && arg@[1] == 108u8 && arg@[2] == 108u8);
            }
        }
        None
    }
}

} // verus!
