//! Winning a run: which machines are escape objectives, what the escape
//! records, how a run is closed, and the gateway recipe its discovery unlocks.

use vstd::prelude::*;
use crate::research::TechTreeProgress;
use crate::scenario::DifficultyTier;
use crate::strmap::str_views;
use crate::text::{owned, str_eq};

verus! {

/// Whether the run is still going.
#[derive(Clone, Copy, Debug, PartialEq, Eq, Structural, Default)]
pub enum RunState {
    #[default]
    InProgress,
    Completed,
}

/// The status saved with a run.
#[derive(Clone, Copy, Debug, PartialEq, Eq, Structural, Default)]
pub enum RunStatus {
    #[default]
    InProgress,
    Completed,
}

/// The saved header of a run. The play time is the bits of an `f64` count
/// of seconds.
#[derive(Clone, Debug)]
pub struct RunSaveHeader {
    pub run_id: String,
    pub seed_text: String,
    pub difficulty: DifficultyTier,
    pub status: RunStatus,
    pub start_time_secs: u64,
    pub end_time_secs: Option<u64>,
    pub total_playtime_secs_bits: u64,
}

/// What the completion screen shows. The play time is the bits of an `f64`
/// count of seconds.
#[derive(Clone, Debug)]
pub struct EscapeStats {
    pub archetype: String,
    pub seed_text: String,
    pub playtime_secs_bits: u64,
}

/// The machine types whose recipe completion wins the run.
pub open spec fn escape_machine_type(t: Seq<char>) -> bool {
    t == "launch_site"@
}

/// Whether a placed machine of type `machine_type` is an escape objective.
pub fn is_escape_machine(machine_type: &str) -> (b: bool)
    ensures
        b == escape_machine_type(machine_type@),
{
    str_eq(machine_type, "launch_site")
}

/// Records an escape: the run is completed, its saved header (if there is
/// one) is marked completed and lends its seed text and play time to the
/// completion screen, and the planet (if there is one) lends its archetype.
pub fn record_escape(run_state: &mut RunState, header: &mut Option<RunSaveHeader>, stats: &mut EscapeStats, archetype: Option<&str>)
    ensures
        *final(run_state) == RunState::Completed,
        match *old(header) {
            Some(h) => (*final(header) matches Some(g) && g.status == RunStatus::Completed
                && g.run_id == h.run_id && g.seed_text == h.seed_text && g.difficulty == h.difficulty
                && g.start_time_secs == h.start_time_secs && g.end_time_secs == h.end_time_secs
                && g.total_playtime_secs_bits == h.total_playtime_secs_bits)
                && final(stats).seed_text@ == h.seed_text@
                && final(stats).playtime_secs_bits == h.total_playtime_secs_bits,
            None => *final(header) is None && final(stats).seed_text == old(stats).seed_text
                && final(stats).playtime_secs_bits == old(stats).playtime_secs_bits,
        },
        match archetype {
            Some(a) => final(stats).archetype@ == a@,
            None => final(stats).archetype == old(stats).archetype,
        },
{
    *run_state = RunState::Completed;
    match header.take() {
        Some(h) => {
            let mut g = h;
            g.status = RunStatus::Completed;
            stats.seed_text = owned(g.seed_text.as_str());
            stats.playtime_secs_bits = g.total_playtime_secs_bits;
            *header = Some(g);
        },
        None => {},
    }
    match archetype {
        Some(a) => {
            stats.archetype = owned(a);
        },
        None => {},
    }
}

/// Closes a run when it ends: completed, ending at `now_secs`.
pub fn finish_run(header: &mut RunSaveHeader, now_secs: u64)
    ensures
        final(header).status == RunStatus::Completed,
        final(header).end_time_secs == Some(now_secs),
        final(header).run_id == old(header).run_id,
        final(header).seed_text == old(header).seed_text,
        final(header).start_time_secs == old(header).start_time_secs,
        final(header).total_playtime_secs_bits == old(header).total_playtime_secs_bits,
{
    header.status = RunStatus::Completed;
    header.end_time_secs = Some(now_secs);
}

/// A run is saved on leaving play (and auto-saved) only while in progress.
pub fn saves_on_exit(header: &RunSaveHeader) -> (b: bool)
    ensures
        b == (header.status == RunStatus::InProgress),
{
    header.status == RunStatus::InProgress
}

/// Discovering the gateway ruins unlocks the gateway activation recipe;
/// nothing else changes.
pub fn unlock_gateway_on_discovery(discoveries: &Vec<String>, progress: &mut TechTreeProgress)
    ensures
        final(progress)@.unlocked_recipes == if str_views(discoveries@).contains("gateway_ruins"@) {
            old(progress)@.unlocked_recipes.insert("activate_gateway"@)
        } else {
            old(progress)@.unlocked_recipes
        },
        final(progress)@.unlocked_nodes == old(progress)@.unlocked_nodes,
        final(progress)@.unlocked_machines == old(progress)@.unlocked_machines,
        final(progress)@.disabled_nodes == old(progress)@.disabled_nodes,
{
    let mut i: usize = 0;
    let ghost start = progress@;
    while i < discoveries.len()
        invariant
            i <= discoveries@.len(),
            progress@.unlocked_recipes == if str_views(discoveries@.subrange(0, i as int)).contains("gateway_ruins"@) {
                start.unlocked_recipes.insert("activate_gateway"@)
            } else {
                start.unlocked_recipes
            },
            progress@.unlocked_nodes == start.unlocked_nodes,
            progress@.unlocked_machines == start.unlocked_machines,
            progress@.disabled_nodes == start.disabled_nodes,
        decreases discoveries@.len() - i,
    {
        let ghost before = str_views(discoveries@.subrange(0, i as int));
        proof {
            assert(str_views(discoveries@.subrange(0, i + 1)) =~= before.push(discoveries@[i as int]@));
        }
        if str_eq(discoveries[i].as_str(), "gateway_ruins") {
            progress.unlocked_recipes.insert(owned("activate_gateway"));
            proof {
                let after = str_views(discoveries@.subrange(0, i + 1));
                assert(after[i as int] == "gateway_ruins"@);
                assert(after.contains("gateway_ruins"@));
                assert(start.unlocked_recipes.insert("activate_gateway"@).insert("activate_gateway"@) =~= start.unlocked_recipes.insert("activate_gateway"@));
            }
        } else {
            proof {
                let after = str_views(discoveries@.subrange(0, i + 1));
                if after.contains("gateway_ruins"@) {
                    let t = choose|t: int| 0 <= t < after.len() && after[t] == "gateway_ruins"@;
                    if t < i {
                        assert(before[t] == after[t]);
                    }
                }
                if before.contains("gateway_ruins"@) {
                    let t = choose|t: int| 0 <= t < before.len() && before[t] == "gateway_ruins"@;
                    assert(after[t] == before[t]);
                }
            }
        }
        i += 1;
    }
    proof {
        assert(discoveries@.subrange(0, discoveries@.len() as int) =~= discoveries@);
    }
}

/// How many of the completed jobs ran on escape objectives, counting from the
/// front of `completed`.
pub open spec fn escape_count(completed: Seq<u64>, objectives: Seq<u64>) -> nat
    decreases completed.len(),
{
    if completed.len() == 0 {
        0
    } else {
        escape_count(completed.drop_last(), objectives) + if objectives.contains(completed.last()) { 1nat } else { 0nat }
    }
}

/// The number of escapes this frame: one for each completed job (given by
/// its machine) that ran on an escape-objective machine.
pub fn escape_completions(completed: &Vec<u64>, objectives: &Vec<u64>) -> (n: usize)
    ensures
        n == escape_count(completed@, objectives@),
{
    let mut n: usize = 0;
    let mut i: usize = 0;
    while i < completed.len()
        invariant
            i <= completed@.len(),
            n == escape_count(completed@.subrange(0, i as int), objectives@),
            n <= i,
        decreases completed@.len() - i,
    {
        proof {
            assert(completed@.subrange(0, i + 1).drop_last() =~= completed@.subrange(0, i as int));
        }
        let m = completed[i];
        let mut found = false;
        let mut j: usize = 0;
        while j < objectives.len()
            invariant
                j <= objectives@.len(),
                found == (exists|t: int| 0 <= t < j && objectives@[t] == m),
            decreases objectives@.len() - j,
        {
            if objectives[j] == m {
                found = true;
            }
            j += 1;
        }
        if found {
            n += 1;
        }
        i += 1;
    }
    proof {
        assert(completed@.subrange(0, completed@.len() as int) =~= completed@);
    }
    n
}

} // verus!
