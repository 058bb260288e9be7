use vstd::prelude::*;
use vstd::pervasive::VecAdditionalExecFns;
use crate::config::Config;
use crate::config::EofPolicy;
use crate::error::RuntimeError;

verus! {

/// Mathematical model of one timeline: the tape contents, the program
/// counter, the active cursor set in order, the rollback history (most
/// recent snapshot last) and the liveness flag.
pub struct TimelineModel {
    pub tape: Seq<u64>,
    pub pc: usize,
    pub ptrs: Seq<usize>,
    pub ops: Seq<Seq<(usize, u64)>>,
    pub alive: bool,
}

/// One parallel execution context: fixed-length memory, an ordered set of
/// active positions acted on simultaneously ("superposition"), a program
/// counter, a stack of snapshots for reversible execution, and a liveness
/// flag cleared when the timeline is marked for removal.
pub struct Timeline {
    pub tape: Vec<u64>,
    pub pc: usize,
    pub ptrs: Vec<usize>,
    pub ops: Vec<Vec<(usize, u64)>>,
    pub alive: bool,
}

impl View for Timeline {
    type V = TimelineModel;

    open spec fn view(&self) -> TimelineModel {
        TimelineModel {
            tape: self.tape@,
            pc: self.pc,
            ptrs: self.ptrs@,
            ops: self.ops@.map_values(|v: Vec<(usize, u64)>| v@),
            alive: self.alive,
        }
    }
}

/// Every cursor lies inside the tape.
pub open spec fn ptrs_ok(ptrs: Seq<usize>, bound: int) -> bool {
    forall|k: int| 0 <= k < ptrs.len() ==> (#[trigger] ptrs[k]) < bound
}

/// Every cell value is representable under the configured cell width.
pub open spec fn tape_ok(tape: Seq<u64>, cell_max: u64) -> bool {
    forall|k: int| 0 <= k < tape.len() ==> (#[trigger] tape[k]) <= cell_max
}

/// Every recorded (position, value) pair of one snapshot is in range.
pub open spec fn snap_ok(pairs: Seq<(usize, u64)>, cfg: Config) -> bool {
    forall|m: int|
        0 <= m < pairs.len() ==> (#[trigger] pairs[m]).0 < cfg.cell_count && pairs[m].1
            <= cfg.cell_max
}

impl TimelineModel {
    /// Well-formedness against a configuration and a program length.
    pub open spec fn wf(self, cfg: Config, prog_len: int) -> bool {
        &&& self.tape.len() == cfg.cell_count
        &&& self.pc <= prog_len
        &&& ptrs_ok(self.ptrs, cfg.cell_count as int)
        &&& tape_ok(self.tape, cfg.cell_max)
        &&& forall|k: int| 0 <= k < self.ops.len() ==> snap_ok(#[trigger] self.ops[k], cfg)
    }
}

/// The root timeline: zeroed tape, the single cursor 0, counter 0, empty
/// history.
pub open spec fn root_model(cfg: Config) -> TimelineModel {
    TimelineModel {
        tape: Seq::new(cfg.cell_count as nat, |i: int| 0u64),
        pc: 0,
        ptrs: seq![0usize],
        ops: Seq::empty(),
        alive: true,
    }
}

/// The timeline a fork creates: the parent's tape and cursor set, a fresh
/// history, the given counter, alive.
pub open spec fn child_model(t: TimelineModel, pc: usize) -> TimelineModel {
    TimelineModel { tape: t.tape, pc, ptrs: t.ptrs, ops: Seq::empty(), alive: true }
}

/// The snapshot taken before a mutating instruction: each cursor paired with
/// its current cell value, in cursor order.
pub open spec fn snapshot_pairs(tape: Seq<u64>, ptrs: Seq<usize>) -> Seq<(usize, u64)> {
    ptrs.map_values(|p: usize| (p, tape[p as int]))
}

/// One increment or decrement under the configured overflow policy.
pub open spec fn bump_cell(v: u64, up: bool, cfg: Config) -> u64 {
    if up {
        if v < cfg.cell_max {
            (v + 1) as u64
        } else if cfg.wrap_cells {
            0u64
        } else {
            cfg.cell_max
        }
    } else {
        if v > 0 {
            (v - 1) as u64
        } else if cfg.wrap_cells {
            cfg.cell_max
        } else {
            0u64
        }
    }
}

/// The tape after bumping every cursor's cell, in cursor order.
pub open spec fn bump_tape(tape: Seq<u64>, ptrs: Seq<usize>, up: bool, cfg: Config) -> Seq<u64>
    decreases ptrs.len(),
{
    if ptrs.len() == 0 {
        tape
    } else {
        let p = ptrs[0] as int;
        bump_tape(tape.update(p, bump_cell(tape[p], up, cfg)), ptrs.drop_first(), up, cfg)
    }
}

/// Whether one cursor may move without falling off the tape.
pub open spec fn cursor_move_ok(p: usize, right: bool, cfg: Config) -> bool {
    cfg.wrap_pointer || (if right {
        p != cfg.cell_count - 1
    } else {
        p != 0
    })
}

pub open spec fn cursors_movable(ptrs: Seq<usize>, right: bool, cfg: Config) -> bool {
    forall|k: int| 0 <= k < ptrs.len() ==> cursor_move_ok(#[trigger] ptrs[k], right, cfg)
}

/// Where one cursor lands, wrapping at the edges when configured.
pub open spec fn moved_cursor(p: usize, right: bool, cfg: Config) -> usize {
    if right {
        if p == cfg.cell_count - 1 {
            0usize
        } else {
            (p + 1) as usize
        }
    } else {
        if p == 0 {
            (cfg.cell_count - 1) as usize
        } else {
            (p - 1) as usize
        }
    }
}

pub open spec fn moved_cursors(ptrs: Seq<usize>, right: bool, cfg: Config) -> Seq<usize> {
    ptrs.map_values(|p: usize| moved_cursor(p, right, cfg))
}

/// The tape after undoing one snapshot, restoring its pairs in order.
pub open spec fn restore_tape(tape: Seq<u64>, pairs: Seq<(usize, u64)>) -> Seq<u64>
    decreases pairs.len(),
{
    if pairs.len() == 0 {
        tape
    } else {
        restore_tape(tape.update(pairs[0].0 as int, pairs[0].1), pairs.drop_first())
    }
}

/// What an exhausted input leaves in a cell, by policy.
pub open spec fn eof_cell(v: u64, cfg: Config) -> u64 {
    match cfg.eof {
        EofPolicy::MaxValue => cfg.cell_max,
        EofPolicy::Zero => 0u64,
        EofPolicy::Unchanged => v,
    }
}

/// Tape and input position after consuming one input byte per cursor, in
/// cursor order, applying the end-of-input policy once the input runs out.
pub open spec fn read_tape(
    tape: Seq<u64>,
    ptrs: Seq<usize>,
    input: Seq<u8>,
    pos: usize,
    cfg: Config,
) -> (Seq<u64>, usize)
    decreases ptrs.len(),
{
    if ptrs.len() == 0 {
        (tape, pos)
    } else {
        let p = ptrs[0] as int;
        if pos < input.len() {
            read_tape(
                tape.update(p, input[pos as int] as u64),
                ptrs.drop_first(),
                input,
                (pos + 1) as usize,
                cfg,
            )
        } else {
            read_tape(tape.update(p, eof_cell(tape[p], cfg)), ptrs.drop_first(), input, pos, cfg)
        }
    }
}

/// The bytes a `Write` emits: the low byte of every cursor's cell, in
/// cursor order.
pub open spec fn output_bytes(tape: Seq<u64>, ptrs: Seq<usize>) -> Seq<u8> {
    ptrs.map_values(|p: usize| (tape[p as int] % 256) as u8)
}

/// Every active cursor's cell is zero (a conjunction over the whole active
/// set; vacuously true of an empty set).
pub open spec fn all_zero(tape: Seq<u64>, ptrs: Seq<usize>) -> bool {
    forall|k: int| 0 <= k < ptrs.len() ==> tape[(#[trigger] ptrs[k]) as int] == 0
}

/// At least one active cursor's cell is nonzero.
pub open spec fn any_nonzero(tape: Seq<u64>, ptrs: Seq<usize>) -> bool {
    exists|k: int| 0 <= k < ptrs.len() && tape[(#[trigger] ptrs[k]) as int] != 0
}

/// The two branch conditions are each other's negation.
pub proof fn lemma_nonzero_complement(tape: Seq<u64>, ptrs: Seq<usize>)
    ensures
        any_nonzero(tape, ptrs) <==> !all_zero(tape, ptrs),
{
    if !all_zero(tape, ptrs) {
        let k = choose|k: int| !(0 <= k < ptrs.len() ==> tape[(#[trigger] ptrs[k]) as int] == 0);
        assert(0 <= k < ptrs.len() && tape[ptrs[k] as int] != 0);
    }
}

impl Timeline {
    /// The root timeline of a fresh multiverse.
    pub fn new_root(cfg: &Config) -> (t: Timeline)
        requires
            cfg.wf(),
        ensures
            t@ == root_model(*cfg),
    {
        let mut tape: Vec<u64> = Vec::new();
        let mut k: usize = 0;
        while k < cfg.cell_count
            invariant
                k <= cfg.cell_count,
                tape@.len() == k,
                forall|j: int| 0 <= j < k ==> tape@[j] == 0u64,
            decreases cfg.cell_count - k,
        {
            tape.push(0);
            k = k + 1;
        }
        let mut ptrs: Vec<usize> = Vec::new();
        ptrs.push(0);
        let t = Timeline { tape, pc: 0, ptrs, ops: Vec::new(), alive: true };
        proof {
            assert(t@.tape =~= root_model(*cfg).tape);
            assert(t@.ptrs =~= root_model(*cfg).ptrs);
            assert(t@.ops =~= root_model(*cfg).ops);
        }
        t
    }

    /// Create a copy of this timeline for a fork: same tape and cursor set,
    /// fresh history, the given counter.
    pub fn duplicate(&self, pc: usize) -> (t: Timeline)
        ensures
            t@ == child_model(self@, pc),
    {
        let tape = clone_u64_vec(&self.tape);
        let ptrs = clone_usize_vec(&self.ptrs);
        let t = Timeline { tape, pc, ptrs, ops: Vec::new(), alive: true };
        proof {
            assert(t@.ops =~= child_model(self@, pc).ops);
        }
        t
    }

    /// Push a minimal snapshot of the tape onto the history, for
    /// reversibility: each cursor with its current value, in cursor order.
    pub fn snapshot(&mut self)
        requires
            ptrs_ok(old(self)@.ptrs, old(self)@.tape.len() as int),
        ensures
            final(self)@ == (TimelineModel {
                ops: old(self)@.ops.push(snapshot_pairs(old(self)@.tape, old(self)@.ptrs)),
                ..old(self)@
            }),
    {
        let ghost pairs_spec = snapshot_pairs(self@.tape, self@.ptrs);
        let mut pairs: Vec<(usize, u64)> = Vec::new();
        let count = self.ptrs.len();
        let mut k: usize = 0;
        while k < count
            invariant
                k <= count,
                count == self.ptrs@.len(),
                ptrs_ok(self@.ptrs, self@.tape.len() as int),
                pairs@.len() == k,
                forall|j: int|
                    0 <= j < k ==> pairs@[j] == (self.ptrs@[j], self.tape@[self.ptrs@[j] as int]),
            decreases count - k,
        {
            let p = self.ptrs[k];
            let v = self.tape[p];
            pairs.push((p, v));
            k = k + 1;
        }
        proof {
            assert(pairs@ =~= pairs_spec);
        }
        self.ops.push(pairs);
        proof {
            assert(self@.ops =~= old(self)@.ops.push(pairs_spec));
        }
    }

    /// Add or subtract one at every active cursor, wrapping or saturating
    /// according to the configured overflow policy.
    pub fn apply_bump(&mut self, up: bool, cfg: &Config)
        requires
            old(self)@.tape.len() == cfg.cell_count,
            ptrs_ok(old(self)@.ptrs, cfg.cell_count as int),
            tape_ok(old(self)@.tape, cfg.cell_max),
        ensures
            final(self)@ == (TimelineModel {
                tape: bump_tape(old(self)@.tape, old(self)@.ptrs, up, *cfg),
                ..old(self)@
            }),
            tape_ok(final(self)@.tape, cfg.cell_max),
    {
        proof {
            assert(self.ptrs@.skip(0) =~= self.ptrs@);
        }
        let count = self.ptrs.len();
        let mut k: usize = 0;
        while k < count
            invariant
                k <= count,
                count == self.ptrs@.len(),
                self.ptrs == old(self).ptrs,
                self.pc == old(self).pc,
                self.ops == old(self).ops,
                self.alive == old(self).alive,
                self.tape@.len() == cfg.cell_count,
                ptrs_ok(self.ptrs@, cfg.cell_count as int),
                tape_ok(self.tape@, cfg.cell_max),
                bump_tape(old(self)@.tape, old(self)@.ptrs, up, *cfg) == bump_tape(
                    self.tape@,
                    self.ptrs@.skip(k as int),
                    up,
                    *cfg,
                ),
            decreases count - k,
        {
            let ghost tail = self.ptrs@.skip(k as int);
            proof {
                assert(tail[0] == self.ptrs@[k as int]);
                assert(tail.drop_first() =~= self.ptrs@.skip(k as int + 1));
            }
            let p = self.ptrs[k];
            let v = self.tape[p];
            let nv = if up {
                if v < cfg.cell_max {
                    v + 1
                } else if cfg.wrap_cells {
                    0
                } else {
                    cfg.cell_max
                }
            } else {
                if v > 0 {
                    v - 1
                } else if cfg.wrap_cells {
                    cfg.cell_max
                } else {
                    0
                }
            };
            self.tape.set(p, nv);
            k = k + 1;
        }
        proof {
            assert(self.ptrs@.skip(count as int) =~= Seq::<usize>::empty());
        }
    }

    /// Shift every cursor one position. Under the fail policy a cursor at
    /// the edge is a fatal out-of-bounds error and nothing changes.
    pub fn move_cursors(&mut self, right: bool, cfg: &Config) -> (r: Result<(), RuntimeError>)
        requires
            cfg.wf(),
            ptrs_ok(old(self)@.ptrs, cfg.cell_count as int),
        ensures
            cursors_movable(old(self)@.ptrs, right, *cfg) ==> r == Ok::<(), RuntimeError>(())
                && final(self)@ == (TimelineModel {
                ptrs: moved_cursors(old(self)@.ptrs, right, *cfg),
                ..old(self)@
            }),
            !cursors_movable(old(self)@.ptrs, right, *cfg) ==> r == Err::<(), RuntimeError>(
                RuntimeError::PointerOutOfBounds,
            ) && *final(self) == *old(self),
            ptrs_ok(final(self)@.ptrs, cfg.cell_count as int),
    {
        let count = self.ptrs.len();
        let mut k: usize = 0;
        while k < count
            invariant
                k <= count,
                count == self.ptrs@.len(),
                ptrs_ok(self.ptrs@, cfg.cell_count as int),
                cfg.wf(),
                forall|j: int| 0 <= j < k ==> cursor_move_ok(#[trigger] self.ptrs@[j], right, *cfg),
            decreases count - k,
        {
            let p = self.ptrs[k];
            let stuck = if right {
                p == cfg.cell_count - 1 && !cfg.wrap_pointer
            } else {
                p == 0 && !cfg.wrap_pointer
            };
            if stuck {
                assert(!cursor_move_ok(self.ptrs@[k as int], right, *cfg));
                return Err(RuntimeError::PointerOutOfBounds);
            }
            k = k + 1;
        }
        assert(cursors_movable(self.ptrs@, right, *cfg));
        let mut k: usize = 0;
        while k < count
            invariant
                k <= count,
                count == self.ptrs@.len(),
                cfg.wf(),
                self.tape == old(self).tape,
                self.pc == old(self).pc,
                self.ops == old(self).ops,
                self.alive == old(self).alive,
                cursors_movable(old(self)@.ptrs, right, *cfg),
                forall|j: int| k <= j < count ==> self.ptrs@[j] == old(self)@.ptrs[j],
                forall|j: int|
                    0 <= j < k ==> self.ptrs@[j] == moved_cursor(
                        #[trigger] old(self)@.ptrs[j],
                        right,
                        *cfg,
                    ),
                ptrs_ok(old(self)@.ptrs, cfg.cell_count as int),
                ptrs_ok(self.ptrs@, cfg.cell_count as int),
            decreases count - k,
        {
            let p = self.ptrs[k];
            let np = if right {
                if p == cfg.cell_count - 1 {
                    0
                } else {
                    p + 1
                }
            } else {
                if p == 0 {
                    cfg.cell_count - 1
                } else {
                    p - 1
                }
            };
            self.ptrs.set(k, np);
            k = k + 1;
        }
        proof {
            assert(self.ptrs@ =~= moved_cursors(old(self)@.ptrs, right, *cfg));
        }
        Ok(())
    }

    /// Pop the most recent snapshot and restore every recorded (position,
    /// value) pair exactly; fails, changing nothing, when the history is
    /// empty.
    pub fn rewind(&mut self, cfg: &Config) -> (r: Result<(), RuntimeError>)
        requires
            old(self)@.tape.len() == cfg.cell_count,
            old(self)@.ops.len() > 0 ==> snap_ok(old(self)@.ops.last(), *cfg),
        ensures
            old(self)@.ops.len() == 0 ==> r == Err::<(), RuntimeError>(RuntimeError::EmptyHistory)
                && final(self)@ == old(self)@,
            old(self)@.ops.len() > 0 ==> r == Ok::<(), RuntimeError>(()) && final(self)@
                == (TimelineModel {
                tape: restore_tape(old(self)@.tape, old(self)@.ops.last()),
                ops: old(self)@.ops.drop_last(),
                ..old(self)@
            }),
            tape_ok(old(self)@.tape, cfg.cell_max) ==> tape_ok(final(self)@.tape, cfg.cell_max),
    {
        match self.ops.pop() {
            None => Err(RuntimeError::EmptyHistory),
            Some(pairs) => {
                proof {
                    assert(pairs@ == old(self)@.ops.last());
                    assert(self.ops@.map_values(|v: Vec<(usize, u64)>| v@) =~= old(
                        self,
                    )@.ops.drop_last());
                    assert(pairs@.skip(0) =~= pairs@);
                }
                let count = pairs.len();
                let mut k: usize = 0;
                while k < count
                    invariant
                        k <= count,
                        count == pairs@.len(),
                        snap_ok(pairs@, *cfg),
                        self.tape@.len() == cfg.cell_count,
                        self.ptrs == old(self).ptrs,
                        self.pc == old(self).pc,
                        self.alive == old(self).alive,
                        self.ops@.map_values(|v: Vec<(usize, u64)>| v@) == old(
                            self,
                        )@.ops.drop_last(),
                        restore_tape(old(self)@.tape, pairs@) == restore_tape(
                            self.tape@,
                            pairs@.skip(k as int),
                        ),
                        tape_ok(old(self)@.tape, cfg.cell_max) ==> tape_ok(
                            self.tape@,
                            cfg.cell_max,
                        ),
                    decreases count - k,
                {
                    let ghost tail = pairs@.skip(k as int);
                    proof {
                        assert(tail[0] == pairs@[k as int]);
                        assert(tail.drop_first() =~= pairs@.skip(k as int + 1));
                    }
                    let entry = pairs[k];
                    self.tape.set(entry.0, entry.1);
                    k = k + 1;
                }
                proof {
                    assert(pairs@.skip(count as int) =~= Seq::<(usize, u64)>::empty());
                }
                Ok(())
            },
        }
    }

    /// Consume one input byte per cursor, in cursor order, starting at the
    /// given input position; returns the new input position.
    pub fn do_read(&mut self, input: &Vec<u8>, pos: usize, cfg: &Config) -> (newpos: usize)
        requires
            cfg.wf(),
            old(self)@.tape.len() == cfg.cell_count,
            ptrs_ok(old(self)@.ptrs, cfg.cell_count as int),
            tape_ok(old(self)@.tape, cfg.cell_max),
            pos <= input@.len(),
        ensures
            ({
                let rt = read_tape(old(self)@.tape, old(self)@.ptrs, input@, pos, *cfg);
                &&& final(self)@ == (TimelineModel { tape: rt.0, ..old(self)@ })
                &&& newpos == rt.1
            }),
            newpos <= input@.len(),
            tape_ok(final(self)@.tape, cfg.cell_max),
    {
        proof {
            assert(self.ptrs@.skip(0) =~= self.ptrs@);
        }
        let count = self.ptrs.len();
        let mut k: usize = 0;
        let mut cur = pos;
        while k < count
            invariant
                k <= count,
                count == self.ptrs@.len(),
                cfg.wf(),
                self.ptrs == old(self).ptrs,
                self.pc == old(self).pc,
                self.ops == old(self).ops,
                self.alive == old(self).alive,
                self.tape@.len() == cfg.cell_count,
                ptrs_ok(self.ptrs@, cfg.cell_count as int),
                tape_ok(self.tape@, cfg.cell_max),
                cur <= input@.len(),
                read_tape(old(self)@.tape, old(self)@.ptrs, input@, pos, *cfg) == read_tape(
                    self.tape@,
                    self.ptrs@.skip(k as int),
                    input@,
                    cur,
                    *cfg,
                ),
            decreases count - k,
        {
            let ghost tail = self.ptrs@.skip(k as int);
            proof {
                assert(tail[0] == self.ptrs@[k as int]);
                assert(tail.drop_first() =~= self.ptrs@.skip(k as int + 1));
            }
            let p = self.ptrs[k];
            if cur < input.len() {
                let b = input[cur];
                self.tape.set(p, b as u64);
                cur = cur + 1;
            } else {
                let v = self.tape[p];
                let nv = match cfg.eof {
                    EofPolicy::MaxValue => cfg.cell_max,
                    EofPolicy::Zero => 0,
                    EofPolicy::Unchanged => v,
                };
                self.tape.set(p, nv);
            }
            k = k + 1;
        }
        proof {
            assert(self.ptrs@.skip(count as int) =~= Seq::<usize>::empty());
        }
        cur
    }

    /// Append the low byte of every cursor's cell to the output, in cursor
    /// order.
    pub fn do_write(&self, out: &mut Vec<u8>)
        requires
            ptrs_ok(self@.ptrs, self@.tape.len() as int),
        ensures
            final(out)@ == old(out)@ + output_bytes(self@.tape, self@.ptrs),
    {
        let count = self.ptrs.len();
        let mut k: usize = 0;
        while k < count
            invariant
                k <= count,
                count == self.ptrs@.len(),
                ptrs_ok(self@.ptrs, self@.tape.len() as int),
                out@.len() == old(out)@.len() + k,
                forall|j: int| 0 <= j < old(out)@.len() ==> out@[j] == old(out)@[j],
                forall|j: int|
                    0 <= j < k ==> out@[old(out)@.len() + j] == output_bytes(
                        self@.tape,
                        self@.ptrs,
                    )[j],
            decreases count - k,
        {
            let p = self.ptrs[k];
            let v = self.tape[p];
            let b = (v % 256) as u8;
            out.push(b);
            k = k + 1;
        }
        proof {
            assert(out@ =~= old(out)@ + output_bytes(self@.tape, self@.ptrs));
        }
    }

    /// Whether every active cursor's cell is zero.
    pub fn check_all_zero(&self) -> (r: bool)
        requires
            ptrs_ok(self@.ptrs, self@.tape.len() as int),
        ensures
            r == all_zero(self@.tape, self@.ptrs),
    {
        let count = self.ptrs.len();
        let mut k: usize = 0;
        while k < count
            invariant
                k <= count,
                count == self.ptrs@.len(),
                ptrs_ok(self@.ptrs, self@.tape.len() as int),
                forall|j: int| 0 <= j < k ==> self@.tape[(#[trigger] self@.ptrs[j]) as int] == 0,
            decreases count - k,
        {
            let p = self.ptrs[k];
            if self.tape[p] != 0 {
                return false;
            }
            k = k + 1;
        }
        true
    }

    /// Whether at least one active cursor's cell is nonzero.
    pub fn check_any_nonzero(&self) -> (r: bool)
        requires
            ptrs_ok(self@.ptrs, self@.tape.len() as int),
        ensures
            r == any_nonzero(self@.tape, self@.ptrs),
    {
        let count = self.ptrs.len();
        let mut k: usize = 0;
        while k < count
            invariant
                k <= count,
                count == self.ptrs@.len(),
                ptrs_ok(self@.ptrs, self@.tape.len() as int),
                forall|j: int| 0 <= j < k ==> self@.tape[(#[trigger] self@.ptrs[j]) as int] == 0,
            decreases count - k,
        {
            let p = self.ptrs[k];
            if self.tape[p] != 0 {
                return true;
            }
            k = k + 1;
        }
        proof {
            lemma_nonzero_complement(self@.tape, self@.ptrs);
        }
        false
    }

    /// Remove and return the whole cursor set, leaving it empty.
    pub fn take_ptrs(&mut self) -> (r: Vec<usize>)
        ensures
            r@ == old(self)@.ptrs,
            final(self)@ == (TimelineModel { ptrs: Seq::empty(), ..old(self)@ }),
    {
        let mut v: Vec<usize> = Vec::new();
        core::mem::swap(&mut self.ptrs, &mut v);
        v
    }

    /// Append the given cursors after the existing ones, keeping their
    /// order.
    pub fn extend_ptrs(&mut self, extra: &Vec<usize>)
        ensures
            final(self)@ == (TimelineModel { ptrs: old(self)@.ptrs + extra@, ..old(self)@ }),
    {
        let count = extra.len();
        let mut k: usize = 0;
        while k < count
            invariant
                k <= count,
                count == extra@.len(),
                self.tape == old(self).tape,
                self.pc == old(self).pc,
                self.ops == old(self).ops,
                self.alive == old(self).alive,
                self.ptrs@.len() == old(self)@.ptrs.len() + k,
                forall|j: int| 0 <= j < old(self)@.ptrs.len() ==> self.ptrs@[j] == old(self)@.ptrs[j],
                forall|j: int|
                    0 <= j < k ==> self.ptrs@[old(self)@.ptrs.len() + j] == extra@[j],
            decreases count - k,
        {
            let p = extra[k];
            self.ptrs.push(p);
            k = k + 1;
        }
        proof {
            assert(self@.ptrs =~= old(self)@.ptrs + extra@);
        }
    }
}

/// An element-for-element copy of a cell vector.
fn clone_u64_vec(v: &Vec<u64>) -> (r: Vec<u64>)
    ensures
        r@ == v@,
{
    let mut r: Vec<u64> = Vec::new();
    let count = v.len();
    let mut k: usize = 0;
    while k < count
        invariant
            k <= count,
            count == v@.len(),
            r@ == v@.take(k as int),
        decreases count - k,
    {
        r.push(v[k]);
        proof {
            assert(r@ =~= v@.take(k as int + 1));
        }
        k = k + 1;
    }
    proof {
        assert(v@.take(count as int) =~= v@);
    }
    r
}

/// An element-for-element copy of a cursor vector.
fn clone_usize_vec(v: &Vec<usize>) -> (r: Vec<usize>)
    ensures
        r@ == v@,
{
    let mut r: Vec<usize> = Vec::new();
    let count = v.len();
    let mut k: usize = 0;
    while k < count
        invariant
            k <= count,
            count == v@.len(),
            r@ == v@.take(k as int),
        decreases count - k,
    {
        r.push(v[k]);
        proof {
            assert(r@ =~= v@.take(k as int + 1));
        }
        k = k + 1;
    }
    proof {
        assert(v@.take(count as int) =~= v@);
    }
    r
}

/// A snapshot of a well-formed timeline is itself well-formed.
pub proof fn lemma_snapshot_pairs_ok(tape: Seq<u64>, ptrs: Seq<usize>, cfg: Config)
    requires
        tape.len() == cfg.cell_count,
        ptrs_ok(ptrs, cfg.cell_count as int),
        tape_ok(tape, cfg.cell_max),
    ensures
        snap_ok(snapshot_pairs(tape, ptrs), cfg),
{
    let pairs = snapshot_pairs(tape, ptrs);
    assert forall|m: int| 0 <= m < pairs.len() implies (#[trigger] pairs[m]).0 < cfg.cell_count
        && pairs[m].1 <= cfg.cell_max by {
        assert(pairs[m] == (ptrs[m], tape[ptrs[m] as int]));
    }
}

/// Bumping keeps the tape length and the cell bound.
pub proof fn lemma_bump_tape_wf(tape: Seq<u64>, ptrs: Seq<usize>, up: bool, cfg: Config)
    requires
        ptrs_ok(ptrs, tape.len() as int),
        tape_ok(tape, cfg.cell_max),
    ensures
        bump_tape(tape, ptrs, up, cfg).len() == tape.len(),
        tape_ok(bump_tape(tape, ptrs, up, cfg), cfg.cell_max),
    decreases ptrs.len(),
{
    if ptrs.len() > 0 {
        let p0 = ptrs[0] as int;
        let tape2 = tape.update(p0, bump_cell(tape[p0], up, cfg));
        let rest = ptrs.drop_first();
        assert forall|k: int| 0 <= k < rest.len() implies (#[trigger] rest[k]) < tape2.len() by {
            assert(rest[k] == ptrs[k + 1]);
        }
        assert(tape_ok(tape2, cfg.cell_max));
        lemma_bump_tape_wf(tape2, rest, up, cfg);
    }
}

/// Reading keeps the tape length and the cell bound, and moves the input
/// position forward, never past the end.
pub proof fn lemma_read_tape_wf(
    tape: Seq<u64>,
    ptrs: Seq<usize>,
    input: Seq<u8>,
    pos: usize,
    cfg: Config,
)
    requires
        cfg.wf(),
        ptrs_ok(ptrs, tape.len() as int),
        tape_ok(tape, cfg.cell_max),
        pos <= input.len(),
        input.len() <= usize::MAX as int,
    ensures
        read_tape(tape, ptrs, input, pos, cfg).0.len() == tape.len(),
        tape_ok(read_tape(tape, ptrs, input, pos, cfg).0, cfg.cell_max),
        pos <= read_tape(tape, ptrs, input, pos, cfg).1 <= input.len(),
    decreases ptrs.len(),
{
    if ptrs.len() > 0 {
        let p0 = ptrs[0] as int;
        let rest = ptrs.drop_first();
        if pos < input.len() {
            let tape2 = tape.update(p0, input[pos as int] as u64);
            assert forall|k: int| 0 <= k < rest.len() implies (#[trigger] rest[k])
                < tape2.len() by {
                assert(rest[k] == ptrs[k + 1]);
            }
            assert(tape_ok(tape2, cfg.cell_max));
            lemma_read_tape_wf(tape2, rest, input, (pos + 1) as usize, cfg);
        } else {
            let tape2 = tape.update(p0, eof_cell(tape[p0], cfg));
            assert forall|k: int| 0 <= k < rest.len() implies (#[trigger] rest[k])
                < tape2.len() by {
                assert(rest[k] == ptrs[k + 1]);
            }
            assert(tape_ok(tape2, cfg.cell_max));
            lemma_read_tape_wf(tape2, rest, input, pos, cfg);
        }
    }
}

/// Restoring a well-formed snapshot keeps the tape length and cell bound.
pub proof fn lemma_restore_tape_wf(tape: Seq<u64>, pairs: Seq<(usize, u64)>, cfg: Config)
    requires
        tape.len() == cfg.cell_count,
        tape_ok(tape, cfg.cell_max),
        snap_ok(pairs, cfg),
    ensures
        restore_tape(tape, pairs).len() == tape.len(),
        tape_ok(restore_tape(tape, pairs), cfg.cell_max),
    decreases pairs.len(),
{
    if pairs.len() > 0 {
        let tape2 = tape.update(pairs[0].0 as int, pairs[0].1);
        let rest = pairs.drop_first();
        assert forall|m: int| 0 <= m < rest.len() implies (#[trigger] rest[m]).0 < cfg.cell_count
            && rest[m].1 <= cfg.cell_max by {
            assert(rest[m] == pairs[m + 1]);
        }
        assert(tape_ok(tape2, cfg.cell_max));
        lemma_restore_tape_wf(tape2, rest, cfg);
    }
}

/// Moved cursors stay inside the tape.
pub proof fn lemma_moved_cursors_ok(ptrs: Seq<usize>, right: bool, cfg: Config)
    requires
        cfg.wf(),
        ptrs_ok(ptrs, cfg.cell_count as int),
    ensures
        moved_cursors(ptrs, right, cfg).len() == ptrs.len(),
        ptrs_ok(moved_cursors(ptrs, right, cfg), cfg.cell_count as int),
{
    let moved = moved_cursors(ptrs, right, cfg);
    assert forall|k: int| 0 <= k < moved.len() implies (#[trigger] moved[k])
        < cfg.cell_count as int by {
        assert(moved[k] == moved_cursor(ptrs[k], right, cfg));
        assert(ptrs[k] < cfg.cell_count);
    }
}

/// Position `q` is recorded by some pair of the snapshot.
pub open spec fn pair_positions_contain(pairs: Seq<(usize, u64)>, q: int) -> bool {
    exists|m: int| 0 <= m < pairs.len() && (#[trigger] pairs[m]).0 == q
}

/// Restoring pairs that all record `tape0`'s value at their position yields
/// `tape0` at every recorded position and the base elsewhere.
proof fn lemma_restore_pointwise(base: Seq<u64>, pairs: Seq<(usize, u64)>, tape0: Seq<u64>)
    requires
        base.len() == tape0.len(),
        forall|m: int|
            0 <= m < pairs.len() ==> (#[trigger] pairs[m]).0 < tape0.len() && pairs[m].1
                == tape0[pairs[m].0 as int],
    ensures
        restore_tape(base, pairs).len() == base.len(),
        forall|q: int|
            0 <= q < base.len() ==> #[trigger] restore_tape(base, pairs)[q] == (
            if pair_positions_contain(pairs, q) {
                tape0[q]
            } else {
                base[q]
            }),
    decreases pairs.len(),
{
    if pairs.len() == 0 {
        assert(forall|q: int| !pair_positions_contain(pairs, q));
    } else {
        let p0 = pairs[0].0 as int;
        let base2 = base.update(p0, pairs[0].1);
        let rest = pairs.drop_first();
        assert forall|m: int| 0 <= m < rest.len() implies (#[trigger] rest[m]).0 < tape0.len()
            && rest[m].1 == tape0[rest[m].0 as int] by {
            assert(rest[m] == pairs[m + 1]);
        }
        lemma_restore_pointwise(base2, rest, tape0);
        assert forall|q: int| 0 <= q < base.len() implies #[trigger] restore_tape(base, pairs)[q]
            == (if pair_positions_contain(pairs, q) {
            tape0[q]
        } else {
            base[q]
        }) by {
            assert(restore_tape(base, pairs) == restore_tape(base2, rest));
            if pair_positions_contain(rest, q) {
                let m = choose|m: int| 0 <= m < rest.len() && (#[trigger] rest[m]).0 == q;
                assert(pairs[m + 1].0 == q);
                assert(pair_positions_contain(pairs, q));
            } else if q == p0 {
                assert(base2[q] == tape0[q]);
                assert(pair_positions_contain(pairs, q));
            } else {
                assert(base2[q] == base[q]);
                if pair_positions_contain(pairs, q) {
                    let m = choose|m: int| 0 <= m < pairs.len() && (#[trigger] pairs[m]).0 == q;
                    assert(m >= 1);
                    assert(rest[m - 1].0 == q);
                    assert(pair_positions_contain(rest, q));
                }
            }
        }
    }
}

/// Position `q` is one of the cursors.
pub open spec fn cursors_contain(ptrs: Seq<usize>, q: int) -> bool {
    exists|k: int| 0 <= k < ptrs.len() && (#[trigger] ptrs[k]) == q
}

/// Bumping touches only the cursors' cells.
proof fn lemma_bump_untouched(tape: Seq<u64>, ptrs: Seq<usize>, up: bool, cfg: Config)
    requires
        ptrs_ok(ptrs, tape.len() as int),
    ensures
        bump_tape(tape, ptrs, up, cfg).len() == tape.len(),
        forall|q: int|
            0 <= q < tape.len() && !cursors_contain(ptrs, q) ==> #[trigger] bump_tape(
                tape,
                ptrs,
                up,
                cfg,
            )[q] == tape[q],
    decreases ptrs.len(),
{
    if ptrs.len() == 0 {
    } else {
        let p0 = ptrs[0] as int;
        let tape2 = tape.update(p0, bump_cell(tape[p0], up, cfg));
        let rest = ptrs.drop_first();
        assert forall|k: int| 0 <= k < rest.len() implies (#[trigger] rest[k]) < tape2.len() by {
            assert(rest[k] == ptrs[k + 1]);
        }
        lemma_bump_untouched(tape2, rest, up, cfg);
        assert forall|q: int|
            0 <= q < tape.len() && !cursors_contain(ptrs, q) implies #[trigger] bump_tape(
            tape,
            ptrs,
            up,
            cfg,
        )[q] == tape[q] by {
            assert(!cursors_contain(rest, q)) by {
                if cursors_contain(rest, q) {
                    let m = choose|m: int| 0 <= m < rest.len() && (#[trigger] rest[m]) == q;
                    assert(ptrs[m + 1] == q);
                    assert(cursors_contain(ptrs, q));
                }
            }
            assert(ptrs[0] != q);
            assert(tape2[q] == tape[q]);
        }
    }
}

/// Law: bumping every active cursor (an Increment or a Decrement) and then
/// restoring the snapshot taken just before yields the original tape back
/// exactly, at the cursors and everywhere else.
pub proof fn lemma_bump_then_restore(tape: Seq<u64>, ptrs: Seq<usize>, up: bool, cfg: Config)
    requires
        ptrs_ok(ptrs, tape.len() as int),
    ensures
        restore_tape(bump_tape(tape, ptrs, up, cfg), snapshot_pairs(tape, ptrs)) == tape,
{
    let bumped = bump_tape(tape, ptrs, up, cfg);
    let pairs = snapshot_pairs(tape, ptrs);
    lemma_bump_untouched(tape, ptrs, up, cfg);
    assert forall|m: int| 0 <= m < pairs.len() implies (#[trigger] pairs[m]).0 < tape.len()
        && pairs[m].1 == tape[pairs[m].0 as int] by {
        assert(pairs[m] == (ptrs[m], tape[ptrs[m] as int]));
    }
    lemma_restore_pointwise(bumped, pairs, tape);
    assert forall|q: int| 0 <= q < tape.len() implies restore_tape(bumped, pairs)[q] == tape[q] by {
        if pair_positions_contain(pairs, q) {
        } else {
            assert(!cursors_contain(ptrs, q)) by {
                if cursors_contain(ptrs, q) {
                    let m = choose|m: int| 0 <= m < ptrs.len() && (#[trigger] ptrs[m]) == q;
                    assert(pairs[m].0 == q);
                    assert(pair_positions_contain(pairs, q));
                }
            }
        }
    }
    assert(restore_tape(bumped, pairs) =~= tape);
}

} // verus!
