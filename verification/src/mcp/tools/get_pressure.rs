//! `get_pressure`: the pressure stall information of one cgroup.

use crate::collector::error::{FileRead, ReadError, ReadErrorView, optional_read};
use crate::collector::pressure::{pressure_text, Pressure, PressureView};
use crate::collector::resource_stats::{optional_pressure, pressure_opt_view};
use vstd::prelude::*;

verus! {

/// What the caller asks for.
#[derive(Clone, Debug)]
pub struct GetPressureParams {
    /// The cgroup, relative to the cgroup root; empty for the root, which
    /// gives the system-wide pressure.
    pub path: String,
}

/// The answer: each pressure file, `None` where the controller is not
/// enabled.
#[derive(Clone, Debug)]
pub struct GetPressureResponse {
    /// The cgroup, as asked.
    pub path: String,
    pub memory: Option<Pressure>,
    pub cpu: Option<Pressure>,
    pub io: Option<Pressure>,
}

/// The answer for the cgroup at `path` whose pressure files read `memory`,
/// `cpu` and `io`, or the first error among them in that order: a missing
/// file is `None`, one that could not be read or does not parse is an
/// error.
pub open spec fn pressure_response(
    memory: FileRead,
    cpu: FileRead,
    io: FileRead,
) -> Result<(Option<PressureView>, Option<PressureView>, Option<PressureView>), ReadErrorView> {
    match optional_read(memory@, |s: Seq<char>| pressure_text(s)) {
        Err(e) => Err(e),
        Ok(m) => match optional_read(cpu@, |s: Seq<char>| pressure_text(s)) {
            Err(e) => Err(e),
            Ok(c) => match optional_read(io@, |s: Seq<char>| pressure_text(s)) {
                Err(e) => Err(e),
                Ok(i) => Ok((m, c, i)),
            },
        },
    }
}

/// A pressure file that may not exist: `None` where it is missing.
pub fn optional_psi(file: &FileRead) -> (r: Result<Option<Pressure>, ReadError>)
    ensures
        match r {
            Ok(v) => optional_read(file@, |s: Seq<char>| pressure_text(s)) == Ok::<
                Option<PressureView>,
                ReadErrorView,
            >(pressure_opt_view(v)),
            Err(e) => optional_read(file@, |s: Seq<char>| pressure_text(s)) == Err::<
                Option<PressureView>,
                ReadErrorView,
            >(e@),
        },
{
    optional_pressure(file)
}

/// The pressure of the cgroup asked for, from what reading its
/// `memory.pressure`, `cpu.pressure` and `io.pressure` gave.
pub fn run(params: GetPressureParams, memory: &FileRead, cpu: &FileRead, io: &FileRead) -> (r:
    Result<GetPressureResponse, ReadError>)
    ensures
        match r {
            Ok(resp) => resp.path@ == params.path@ && pressure_response(*memory, *cpu, *io) == Ok::<
                (Option<PressureView>, Option<PressureView>, Option<PressureView>),
                ReadErrorView,
            >(
                (
                    pressure_opt_view(resp.memory),
                    pressure_opt_view(resp.cpu),
                    pressure_opt_view(resp.io),
                ),
            ),
            Err(e) => pressure_response(*memory, *cpu, *io) == Err::<
                (Option<PressureView>, Option<PressureView>, Option<PressureView>),
                ReadErrorView,
            >(e@),
        },
{
    let m = optional_psi(memory)?;
    let c = optional_psi(cpu)?;
    let i = optional_psi(io)?;
    Ok(GetPressureResponse { path: params.path, memory: m, cpu: c, io: i })
}

/// Each stanza of the answer comes from its own file: `memory` from the
/// `memory.pressure` reading, `cpu` from `cpu.pressure`, `io` from
/// `io.pressure`. The answer is an error exactly when one of the readings
/// is, and then it is the error of the first such reading in that order.
pub proof fn lemma_pressure_stanzas(memory: FileRead, cpu: FileRead, io: FileRead)
    ensures
        pressure_response(memory, cpu, io) matches Ok((m, c, i)) ==> {
            &&& optional_read(memory@, |s: Seq<char>| pressure_text(s)) == Ok::<
                Option<PressureView>,
                ReadErrorView,
            >(m)
            &&& optional_read(cpu@, |s: Seq<char>| pressure_text(s)) == Ok::<
                Option<PressureView>,
                ReadErrorView,
            >(c)
            &&& optional_read(io@, |s: Seq<char>| pressure_text(s)) == Ok::<
                Option<PressureView>,
                ReadErrorView,
            >(i)
        },
        pressure_response(memory, cpu, io) is Ok <==> (optional_read(
            memory@,
            |s: Seq<char>| pressure_text(s),
        ) is Ok && optional_read(cpu@, |s: Seq<char>| pressure_text(s)) is Ok && optional_read(
            io@,
            |s: Seq<char>| pressure_text(s),
        ) is Ok),
        pressure_response(memory, cpu, io) matches Err(e) ==> {
            ||| optional_read(memory@, |s: Seq<char>| pressure_text(s)) == Err::<
                Option<PressureView>,
                ReadErrorView,
            >(e)
            ||| (optional_read(memory@, |s: Seq<char>| pressure_text(s)) is Ok && optional_read(
                cpu@,
                |s: Seq<char>| pressure_text(s),
            ) == Err::<Option<PressureView>, ReadErrorView>(e))
            ||| (optional_read(memory@, |s: Seq<char>| pressure_text(s)) is Ok && optional_read(
                cpu@,
                |s: Seq<char>| pressure_text(s),
            ) is Ok && optional_read(io@, |s: Seq<char>| pressure_text(s)) == Err::<
                Option<PressureView>,
                ReadErrorView,
            >(e))
        },
{
}

} // verus!
