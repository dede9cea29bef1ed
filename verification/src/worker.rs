//! The threads that compute tiles: when they work, sleep and stop, and what they count.

use crate::coord::TileCoord;
use vstd::prelude::*;

verus! {

/// What the workers are to do.
#[derive(Debug, Clone, Copy, PartialEq, Eq, Structural)]
pub enum WorkerState {
    Idle,
    Work,
    Finish,
}

/// Something that happens to the workers' state.
pub enum Signal {
    Check,
    Exit,
    Idle,
}

/// The state after a signal.
pub open spec fn after_signal(state: WorkerState, signal: Signal) -> WorkerState {
    match signal {
        Signal::Check => if state is Idle {
            WorkerState::Work
        } else {
            state
        },
        Signal::Exit => WorkerState::Finish,
        Signal::Idle => if state is Work {
            WorkerState::Idle
        } else {
            state
        },
    }
}

impl WorkerState {
    /// There may be something to do: wakes idle workers.
    pub fn signal_check(&mut self)
        ensures
            *final(self) == after_signal(*old(self), Signal::Check),
    {
        if *self == WorkerState::Idle {
            *self = WorkerState::Work;
        }
    }

    /// The workers are to stop.
    pub fn signal_exit(&mut self)
        ensures
            *final(self) == after_signal(*old(self), Signal::Exit),
    {
        *self = WorkerState::Finish;
    }

    /// There is nothing to do.
    pub fn go_idle(&mut self)
        ensures
            *final(self) == after_signal(*old(self), Signal::Idle),
    {
        if *self == WorkerState::Work {
            *self = WorkerState::Idle;
        }
    }
}

/// The state after several signals.
pub open spec fn after_signals(state: WorkerState, signals: Seq<Signal>) -> WorkerState
    decreases signals.len(),
{
    if signals.len() == 0 {
        state
    } else {
        after_signal(after_signals(state, signals.drop_last()), signals.last())
    }
}

/// Workers that were told to stop are never told otherwise.
pub proof fn law_finish_is_final(state: WorkerState, signals: Seq<Signal>)
    ensures
        after_signals(WorkerState::Finish, signals) is Finish,
        (exists|i: int| 0 <= i < signals.len() && #[trigger] signals[i] is Exit) ==> after_signals(
            state,
            signals,
        ) is Finish,
    decreases signals.len(),
{
    if signals.len() > 0 {
        law_finish_is_final(state, signals.drop_last());
        if exists|i: int| 0 <= i < signals.len() && #[trigger] signals[i] is Exit {
            let i = choose|i: int| 0 <= i < signals.len() && #[trigger] signals[i] is Exit;
            if i < signals.len() - 1 {
                assert(signals.drop_last()[i] is Exit);
            }
        }
    }
}

/// A wake-up is not lost to a worker that goes idle before it.
pub proof fn law_check_after_idle(state: WorkerState)
    requires
        !(state is Finish),
    ensures
        after_signal(after_signal(state, Signal::Idle), Signal::Check) is Work,
{
}

/// What a worker has found out.
pub enum WorkerInput {
    /// What the workers are to do.
    State(WorkerState),
    /// The size of the window.
    Size { width: u32, height: u32 },
    /// The tile to compute next.
    Found(Option<TileCoord>),
    /// The tile is computed; the tree took it, or did not wait for it any more.
    Computed { inserted: bool },
}

/// What a worker does next.
pub enum WorkerStep {
    /// Report, and sleep until there may be something to do.
    Wait,
    /// Stop.
    Stop,
    /// Look at the size of the window.
    ReadSize,
    /// Look for a tile to compute for a window of this size.
    Search { width: u32, height: u32 },
    /// Say that there is nothing to do, and look at the state again.
    GoIdle,
    /// Compute the tile and put it into the tree.
    Compute(TileCoord),
    /// Wake the workers, count the tile and have the window redrawn, and look at the state again.
    Announce { lost: bool },
}

/// What a worker does next.
pub open spec fn next_step(input: WorkerInput) -> WorkerStep {
    match input {
        WorkerInput::State(WorkerState::Idle) => WorkerStep::Wait,
        WorkerInput::State(WorkerState::Work) => WorkerStep::ReadSize,
        WorkerInput::State(WorkerState::Finish) => WorkerStep::Stop,
        WorkerInput::Size { width, height } => if width == 0 || height == 0 {
            WorkerStep::GoIdle
        } else {
            WorkerStep::Search { width, height }
        },
        WorkerInput::Found(None) => WorkerStep::GoIdle,
        WorkerInput::Found(Some(coord)) => WorkerStep::Compute(coord),
        WorkerInput::Computed { inserted } => WorkerStep::Announce { lost: !inserted },
    }
}

/// What a worker does next.
pub fn worker_step(input: WorkerInput) -> (r: WorkerStep)
    ensures
        r == next_step(input),
{
    match input {
        WorkerInput::State(state) => match state {
            WorkerState::Idle => WorkerStep::Wait,
            WorkerState::Work => WorkerStep::ReadSize,
            WorkerState::Finish => WorkerStep::Stop,
        },
        WorkerInput::Size { width, height } => if width == 0 || height == 0 {
            WorkerStep::GoIdle
        } else {
            WorkerStep::Search { width, height }
        },
        WorkerInput::Found(found) => match found {
            None => WorkerStep::GoIdle,
            Some(coord) => WorkerStep::Compute(coord),
        },
        WorkerInput::Computed { inserted } => WorkerStep::Announce { lost: !inserted },
    }
}

/// What a worker has done since its last report.
#[derive(Debug, Clone, Copy, PartialEq, Eq, Structural)]
pub struct SeriesCounter {
    pub worker_id: usize,
    pub tile_count: u32,
    pub cull_count: u32,
}

/// What a worker reports.
#[derive(Debug, Clone, Copy, PartialEq, Eq, Structural)]
pub struct SeriesReport {
    pub worker_id: usize,
    pub tile_count: u32,
    pub cull_count: u32,
}

/// How many of the four are set.
pub open spec fn count_set(blocks: Seq<bool>) -> int
    decreases blocks.len(),
{
    if blocks.len() == 0 {
        0
    } else {
        count_set(blocks.drop_last()) + (if blocks.last() {
            1int
        } else {
            0
        })
    }
}

impl SeriesCounter {
    pub fn new(worker_id: usize) -> (r: Self)
        ensures
            r == (SeriesCounter { worker_id, tile_count: 0, cull_count: 0 }),
    {
        SeriesCounter { worker_id, tile_count: 0, cull_count: 0 }
    }

    /// Counts a tile and its blocked quarters.
    pub fn count_tile(&mut self, blocks: [bool; 4])
        requires
            old(self).tile_count < u32::MAX,
            old(self).cull_count + count_set(blocks@) <= u32::MAX,
        ensures
            final(self).worker_id == old(self).worker_id,
            final(self).tile_count == old(self).tile_count + 1,
            final(self).cull_count == old(self).cull_count + count_set(blocks@),
            counted(*old(self), blocks@, *final(self)),
    {
        let mut i: usize = 0;
        let ghost start = self.cull_count as int;
        assert(blocks@.take(0).len() == 0);
        while i < 4
            invariant
                i <= 4,
                blocks@.len() == 4,
                start + count_set(blocks@) <= u32::MAX,
                self.worker_id == old(self).worker_id,
                self.tile_count == old(self).tile_count,
                self.cull_count == start + count_set(blocks@.take(i as int)),
            decreases 4 - i,
        {
            proof {
                lemma_count_take(blocks@, (i + 1) as int);
                assert(blocks@.take(i + 1).drop_last() =~= blocks@.take(i as int));
                assert(blocks@.take(i + 1).last() == blocks@[i as int]);
            }
            if blocks[i] {
                self.cull_count = self.cull_count + 1;
            }
            i = i + 1;
        }
        assert(blocks@.take(4) =~= blocks@);
        self.tile_count = self.tile_count + 1;
    }

    /// What there is to report, if a tile was computed; counting starts anew then.
    pub fn report(&mut self) -> (r: Option<SeriesReport>)
        ensures
            if old(self).tile_count == 0 {
                r is None && *final(self) == *old(self)
            } else {
                &&& r == Some(
                    SeriesReport {
                        worker_id: old(self).worker_id,
                        tile_count: old(self).tile_count,
                        cull_count: old(self).cull_count,
                    },
                )
                &&& *final(self) == (SeriesCounter {
                    worker_id: old(self).worker_id,
                    tile_count: 0,
                    cull_count: 0,
                })
            },
            reported(*old(self), r, *final(self)),
    {
        if self.tile_count == 0 {
            return None;
        }
        let report = SeriesReport {
            worker_id: self.worker_id,
            tile_count: self.tile_count,
            cull_count: self.cull_count,
        };
        self.tile_count = 0;
        self.cull_count = 0;
        Some(report)
    }
}

/// A part of a sequence has no more set than the whole.
proof fn lemma_count_take(blocks: Seq<bool>, n: int)
    requires
        0 <= n <= blocks.len(),
    ensures
        count_set(blocks.take(n)) <= count_set(blocks),
    decreases blocks.len(),
{
    if n < blocks.len() {
        lemma_count_take(blocks.drop_last(), n);
        assert(blocks.drop_last().take(n) =~= blocks.take(n));
    } else {
        assert(blocks.take(n) =~= blocks);
    }
}

/// What signals do: unless the workers were told to stop, after a check they work and after idling
/// they are idle; being told to stop, they stop.
pub proof fn law_signals(state: WorkerState)
    ensures
        after_signal(state, Signal::Check) is Work <==> !(state is Finish),
        after_signal(state, Signal::Idle) is Idle <==> !(state is Finish),
        after_signal(state, Signal::Exit) is Finish,
        after_signal(state, Signal::Check) is Finish <==> state is Finish,
        after_signal(state, Signal::Idle) is Finish <==> state is Finish,
{
}

/// A worker stops just when it is told to, sleeps just when there is nothing to do, looks for a tile
/// only for a window with area, of that size, computes the tile that was found, and tells of a tile
/// that was lost just if the tree did not take it.
pub proof fn law_steps(input: WorkerInput)
    ensures
        next_step(input) is Stop <==> input == WorkerInput::State(WorkerState::Finish),
        next_step(input) is Wait <==> input == WorkerInput::State(WorkerState::Idle),
        next_step(input) is ReadSize <==> input == WorkerInput::State(WorkerState::Work),
        next_step(input) matches WorkerStep::Search { width, height } ==> width > 0 && height > 0
            && input == (WorkerInput::Size { width, height }),
        input matches WorkerInput::Size { width, height } ==> (next_step(input) is GoIdle <==> width
            * height == 0) && (next_step(input) is Search <==> width * height != 0),
        next_step(input) matches WorkerStep::Compute(c) ==> input == WorkerInput::Found(Some(c)),
        input matches WorkerInput::Found(f) ==> (next_step(input) is Compute <==> f is Some) && (
        next_step(input) is GoIdle <==> f is None),
        input matches WorkerInput::Computed { inserted } ==> next_step(input) == (
        WorkerStep::Announce { lost: !inserted }),
{
    if input is Size {
        let (w, h) = (input->width as int, input->height as int);
        assert(w * h == 0 <==> w == 0 || h == 0) by (nonlinear_arith);
    }
}

/// The count is of those that are set: setting one more makes it one more, and of as many that are
/// not set there are none.
pub proof fn law_count_set(blocks: Seq<bool>, i: int)
    requires
        0 <= i < blocks.len(),
    ensures
        count_set(blocks.update(i, true)) == count_set(blocks.update(i, false)) + 1,
        (forall|k: int| 0 <= k < blocks.len() ==> !#[trigger] blocks[k]) ==> count_set(blocks) == 0,
        0 <= count_set(blocks) <= blocks.len(),
    decreases blocks.len(),
{
    let (on, off) = (blocks.update(i, true), blocks.update(i, false));
    let front = blocks.drop_last();
    if front.len() > 0 {
        let k = if i < front.len() {
            i
        } else {
            0
        };
        law_count_set(front, k);
        if forall|k: int| 0 <= k < blocks.len() ==> !#[trigger] blocks[k] {
            assert forall|k: int| 0 <= k < front.len() implies !#[trigger] front[k] by {
                assert(front[k] == blocks[k]);
            }
        }
    } else {
        assert(count_set(front) == 0);
    }
    if i < front.len() {
        assert(on.drop_last() =~= front.update(i, true));
        assert(off.drop_last() =~= front.update(i, false));
    } else {
        assert(on.drop_last() =~= front);
        assert(off.drop_last() =~= front);
    }
    assert(blocks.last() == blocks[blocks.len() - 1]);
}

/// `n` is what `s` is after a tile was counted.
pub open spec fn counted(s: SeriesCounter, blocks: Seq<bool>, n: SeriesCounter) -> bool {
    &&& n.worker_id == s.worker_id
    &&& n.tile_count == s.tile_count + 1
    &&& n.cull_count == s.cull_count + count_set(blocks)
}

/// `r` is what `s` has to report, and `n` what it is after that.
pub open spec fn reported(s: SeriesCounter, r: Option<SeriesReport>, n: SeriesCounter) -> bool {
    if s.tile_count == 0 {
        r is None && n == s
    } else {
        &&& r == Some(
            SeriesReport {
                worker_id: s.worker_id,
                tile_count: s.tile_count,
                cull_count: s.cull_count,
            },
        )
        &&& n == (SeriesCounter { worker_id: s.worker_id, tile_count: 0, cull_count: 0 })
    }
}

/// A report is of the tiles that were counted since the last one, each with its blocked quarters: with
/// one more tile, or one more quarter of it, there is one more; and after a report there is nothing
/// to report.
pub proof fn law_report(
    s: SeriesCounter,
    blocks: Seq<bool>,
    t: SeriesCounter,
    r: Option<SeriesReport>,
    u: SeriesCounter,
    again: Option<SeriesReport>,
    v: SeriesCounter,
)
    requires
        counted(s, blocks, t),
        reported(t, r, u),
        reported(u, again, v),
        blocks.len() == 4,
    ensures
        r matches Some(report) && {
            &&& report.worker_id == s.worker_id
            &&& report.tile_count == s.tile_count + 1
            &&& s.cull_count <= report.cull_count <= s.cull_count + 4
            &&& report.cull_count == s.cull_count <==> !blocks[0] && !blocks[1] && !blocks[2]
                && !blocks[3]
        },
        again is None,
        u.worker_id == s.worker_id,
        u.cull_count == 0,
{
    reveal_with_fuel(count_set, 5);
    assert(blocks.drop_last().drop_last().drop_last().drop_last().len() == 0);
}

} // verus!
