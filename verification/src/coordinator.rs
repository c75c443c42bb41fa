//! The watch/debounce coordinator and the build-generation counter: the
//! state machine that turns bursts of filesystem events into single
//! rebuilds and advances the generation the live-reload endpoint serves.
use vstd::prelude::*;

use crate::text::decimal_string;
use crate::text::spec_decimal;

verus! {

/// The ceiling past which the build generation wraps to zero, bounding
/// the counter's representation.
pub const GENERATION_CEILING: i32 = 999999;

/// The generation after one successful rebuild: one more, wrapping to
/// zero past the ceiling.
pub open spec fn spec_next_generation(g: int) -> int {
    if g == GENERATION_CEILING as int {
        0
    } else {
        g + 1
    }
}

/// Advance the shared build-generation counter after a successful
/// rebuild.
pub fn refresh_refresher_token(token: &mut i32)
    requires
        0 <= *old(token) <= GENERATION_CEILING,
    ensures
        *final(token) == spec_next_generation(*old(token) as int),
        0 <= *final(token) <= GENERATION_CEILING,
{
    if *token == GENERATION_CEILING {
        *token = 0;
    } else {
        *token = *token + 1;
    }
}

/// The two states of the watch coordinator.
#[derive(Clone, Copy, Debug, PartialEq, Eq, Structural)]
pub enum WatchState {
    Idle,
    Building,
}

/// What the watch loop observes: a filesystem change, or the completion
/// of the rebuild it spawned.
#[derive(Clone, Copy, Debug, PartialEq, Eq, Structural)]
pub enum WatchEvent {
    Changed,
    Completed { success: bool },
}

/// The watch/debounce coordinator: it owns the build-in-progress state
/// and the generation counter, spawns one rebuild for the first change
/// seen while idle, drops changes seen while building, and advances the
/// generation only when a rebuild completes successfully.
pub struct Coordinator {
    pub state: WatchState,
    pub generation: i32,
}

/// The coordinator's invariant: the generation stays within its bounds.
pub open spec fn coordinator_inv(c: Coordinator) -> bool {
    0 <= c.generation <= GENERATION_CEILING
}

/// One step of the coordinator: the next state, and whether a rebuild is
/// spawned. A change spawns exactly when the coordinator is idle; a
/// completion returns it to idle and, on success, advances the
/// generation.
pub open spec fn spec_step(c: Coordinator, e: WatchEvent) -> (Coordinator, bool) {
    match e {
        WatchEvent::Changed => {
            if c.state == WatchState::Idle {
                (Coordinator { state: WatchState::Building, generation: c.generation }, true)
            } else {
                (c, false)
            }
        },
        WatchEvent::Completed { success } => {
            (
                Coordinator {
                    state: WatchState::Idle,
                    generation: if success {
                        spec_next_generation(c.generation as int) as i32
                    } else {
                        c.generation
                    },
                },
                false,
            )
        },
    }
}

/// The coordinator after a sequence of events.
pub open spec fn run_events(c: Coordinator, es: Seq<WatchEvent>) -> Coordinator
    decreases es.len(),
{
    if es.len() == 0 {
        c
    } else {
        spec_step(run_events(c, es.drop_last()), es.last()).0
    }
}

/// How many rebuilds a sequence of events spawns.
pub open spec fn spawn_count(c: Coordinator, es: Seq<WatchEvent>) -> nat
    decreases es.len(),
{
    if es.len() == 0 {
        0
    } else {
        spawn_count(c, es.drop_last()) + if spec_step(run_events(c, es.drop_last()), es.last()).1 {
            1nat
        } else {
            0nat
        }
    }
}

/// How many rebuild completions a sequence of events carries.
pub open spec fn completed_count(es: Seq<WatchEvent>) -> nat
    decreases es.len(),
{
    if es.len() == 0 {
        0
    } else {
        completed_count(es.drop_last()) + if es.last() matches WatchEvent::Completed { .. } {
            1nat
        } else {
            0nat
        }
    }
}

impl Coordinator {
    /// A fresh coordinator: idle, at generation zero. The surrounding
    /// tool runs one full synchronous build before it starts watching,
    /// so the output tree is never stale when the loop begins.
    pub fn new() -> (r: Coordinator)
        ensures
            r.state == WatchState::Idle,
            r.generation == 0,
            coordinator_inv(r),
    {
        Coordinator { state: WatchState::Idle, generation: 0 }
    }

    /// A filesystem change arrived: spawn one rebuild if idle, drop the
    /// event if a rebuild is already in flight.
    pub fn on_fs_event(&mut self) -> (spawn: bool)
        ensures
            *final(self) == spec_step(*old(self), WatchEvent::Changed).0,
            spawn == spec_step(*old(self), WatchEvent::Changed).1,
            spawn == (old(self).state == WatchState::Idle),
            final(self).state == WatchState::Building,
            final(self).generation == old(self).generation,
    {
        match self.state {
            WatchState::Idle => {
                self.state = WatchState::Building;
                true
            },
            WatchState::Building => false,
        }
    }

    /// The spawned rebuild finished: return to idle; only a successful
    /// rebuild advances the generation, so clients are never told to
    /// reload onto a broken tree.
    pub fn on_build_complete(&mut self, success: bool)
        requires
            coordinator_inv(*old(self)),
        ensures
            *final(self) == spec_step(*old(self), WatchEvent::Completed { success }).0,
            final(self).state == WatchState::Idle,
            success ==> final(self).generation == spec_next_generation(
                old(self).generation as int,
            ),
            !success ==> final(self).generation == old(self).generation,
            coordinator_inv(*final(self)),
    {
        self.state = WatchState::Idle;
        if success {
            refresh_refresher_token(&mut self.generation);
        }
    }
}

/// Debounce: a burst of filesystem changes, with no completion among
/// them, spawns at most one rebuild, however many changes arrive; and
/// none at all while a rebuild is already in flight.
pub proof fn lemma_debounce(c: Coordinator, es: Seq<WatchEvent>)
    requires
        forall|i: int| 0 <= i < es.len() ==> es[i] == WatchEvent::Changed,
    ensures
        spawn_count(c, es) <= 1,
        c.state == WatchState::Building ==> spawn_count(c, es) == 0,
        c.state == WatchState::Building ==> run_events(c, es) == c,
        spawn_count(c, es) + completed_count(es) > 0 ==> run_events(c, es).state
            == WatchState::Building,
    decreases es.len(),
{
    if es.len() > 0 {
        lemma_debounce(c, es.drop_last());
    }
}

/// How many rebuilds are in flight: one while building, none while
/// idle. That this never exceeds one is the coordinator's guarantee.
pub open spec fn in_flight(c: Coordinator) -> nat {
    if c.state == WatchState::Building {
        1nat
    } else {
        0nat
    }
}

/// At most one rebuild is outstanding at any instant: every spawn moves
/// the coordinator to building and every completion returns it to idle,
/// so over any events the rebuilds spawned never exceed the completions
/// observed plus the one build the coordinator may still have in flight.
pub proof fn lemma_at_most_one_in_flight(c: Coordinator, es: Seq<WatchEvent>)
    ensures
        spawn_count(c, es) + in_flight(c) <= completed_count(es) + in_flight(run_events(c, es)),
        spawn_count(c, es) <= completed_count(es) + if c.state == WatchState::Idle {
            1nat
        } else {
            0nat
        },
    decreases es.len(),
{
    if es.len() > 0 {
        lemma_at_most_one_in_flight(c, es.drop_last());
    }
}

/// How many successful rebuild completions a sequence of events carries.
pub open spec fn success_count(es: Seq<WatchEvent>) -> nat
    decreases es.len(),
{
    if es.len() == 0 {
        0
    } else {
        success_count(es.drop_last()) + if es.last() == (WatchEvent::Completed {
            success: true,
        }) {
            1nat
        } else {
            0nat
        }
    }
}

/// Generation monotonicity: across any events whose successful
/// completions never meet the wrap ceiling, the generation advances by
/// exactly one per successful rebuild; in particular the value a polling
/// client observes is non-decreasing.
pub proof fn lemma_generation_monotonic(c: Coordinator, es: Seq<WatchEvent>)
    requires
        coordinator_inv(c),
        forall|i: int|
            0 <= i < es.len() && (#[trigger] es[i]) == (WatchEvent::Completed { success: true })
                ==> run_events(c, es.take(i)).generation < GENERATION_CEILING,
    ensures
        coordinator_inv(run_events(c, es)),
        run_events(c, es).generation == c.generation + success_count(es),
        run_events(c, es).generation >= c.generation,
    decreases es.len(),
{
    if es.len() > 0 {
        assert(es.take(es.len() - 1) =~= es.drop_last());
        assert(forall|i: int|
            0 <= i < es.drop_last().len() ==> #[trigger] es.drop_last().take(i) =~= es.take(i));
        lemma_generation_monotonic(c, es.drop_last());
    }
}

/// A failed rebuild leaves the generation unchanged: with no successful
/// completion among the events, a client keeps reading the old value.
pub proof fn lemma_generation_unchanged_without_success(c: Coordinator, es: Seq<WatchEvent>)
    requires
        forall|i: int|
            0 <= i < es.len() ==> (#[trigger] es[i]) != (WatchEvent::Completed { success: true }),
    ensures
        run_events(c, es).generation == c.generation,
    decreases es.len(),
{
    if es.len() > 0 {
        lemma_generation_unchanged_without_success(c, es.drop_last());
    }
}

/// The text body the live-reload endpoint serves for one poll: the
/// current generation in decimal, nothing more.
pub fn generation_text(generation: i32) -> (r: String)
    requires
        0 <= generation,
    ensures
        r@ == spec_decimal(generation as int),
{
    decimal_string(generation)
}

} // verus!
