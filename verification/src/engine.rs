use vstd::prelude::*;
use crate::config::Config;
use crate::error::RuntimeError;
use crate::program::{Token, prog_wf, target_ok};
use crate::timeline::{
    Timeline, TimelineModel, all_zero, any_nonzero, bump_tape, child_model, cursors_movable,
    moved_cursors, output_bytes, read_tape, restore_tape, root_model, snapshot_pairs,
};

verus! {

/// Mathematical model of the whole engine: the immutable program and
/// configuration, the ordered sequence of live timelines, and the byte
/// ports (input with its read position, and the output collected so far).
pub struct MvModel {
    pub prog: Seq<Token>,
    pub cfg: Config,
    pub tls: Seq<TimelineModel>,
    pub input: Seq<u8>,
    pub in_pos: usize,
    pub out: Seq<u8>,
}

impl MvModel {
    pub open spec fn wf(self) -> bool {
        &&& self.cfg.wf()
        &&& prog_wf(self.prog)
        &&& self.prog.len() <= usize::MAX as int
        &&& self.input.len() <= usize::MAX as int
        &&& self.tls.len() <= usize::MAX as int
        &&& self.in_pos <= self.input.len()
        &&& forall|k: int|
            0 <= k < self.tls.len() ==> (#[trigger] self.tls[k]).wf(
                self.cfg,
                self.prog.len() as int,
            )
    }
}

/// The multiverse: an ordered sequence of timelines stepped one instruction
/// per tick, together with the program, the configuration and the two byte
/// ports. Structural changes (forks, deaths) are applied only between
/// ticks.
pub struct Multiverse {
    pub program: Vec<Token>,
    pub cfg: Config,
    pub timelines: Vec<Timeline>,
    pub input: Vec<u8>,
    pub in_pos: usize,
    pub output: Vec<u8>,
}

pub open spec fn tl_views(s: Seq<Timeline>) -> Seq<TimelineModel> {
    s.map_values(|t: Timeline| t@)
}

impl View for Multiverse {
    type V = MvModel;

    open spec fn view(&self) -> MvModel {
        MvModel {
            prog: self.program@,
            cfg: self.cfg,
            tls: tl_views(self.timelines@),
            input: self.input@,
            in_pos: self.in_pos,
            out: self.output@,
        }
    }
}

/// What one timeline's step does: the timelines afterwards, the input
/// position and output afterwards, at most one pending fork, at most one
/// fatal error, and whether the whole run ends (the root past the program
/// end).
pub struct StepEffect {
    pub tls: Seq<TimelineModel>,
    pub in_pos: usize,
    pub out: Seq<u8>,
    pub spawn: Option<(usize, usize)>,
    pub err: Option<RuntimeError>,
    pub exit: bool,
}

/// An effect that only replaces timeline state, touching no port.
pub open spec fn quiet_effect(m: MvModel, tls: Seq<TimelineModel>) -> StepEffect {
    StepEffect { tls, in_pos: m.in_pos, out: m.out, spawn: None, err: None, exit: false }
}

/// An effect that fails, leaving everything as it stands.
pub open spec fn fail_effect(m: MvModel, er: RuntimeError) -> StepEffect {
    StepEffect {
        tls: m.tls,
        in_pos: m.in_pos,
        out: m.out,
        spawn: None,
        err: Some(er),
        exit: false,
    }
}

/// One timeline's step at index `i`: exactly one instruction at its current
/// counter, unless it stands past the end of the program. Only the
/// neighbor-transfer instructions touch (exactly one) other timeline.
pub open spec fn step_at_spec(m: MvModel, i: int) -> StepEffect {
    let t = m.tls[i];
    let count = m.tls.len() as int;
    let pc = t.pc as int;
    if pc >= m.prog.len() {
        if i == 0 {
            StepEffect {
                tls: m.tls,
                in_pos: m.in_pos,
                out: m.out,
                spawn: None,
                err: None,
                exit: true,
            }
        } else {
            quiet_effect(m, m.tls.update(i, TimelineModel { alive: false, ..t }))
        }
    } else {
        match m.prog[pc] {
            Token::Inc => {
                let t1 = TimelineModel { ops: t.ops.push(snapshot_pairs(t.tape, t.ptrs)), ..t };
                quiet_effect(
                    m,
                    m.tls.update(
                        i,
                        TimelineModel {
                            tape: bump_tape(t1.tape, t1.ptrs, true, m.cfg),
                            pc: (t.pc + 1) as usize,
                            ..t1
                        },
                    ),
                )
            },
            Token::Dec => {
                let t1 = TimelineModel { ops: t.ops.push(snapshot_pairs(t.tape, t.ptrs)), ..t };
                quiet_effect(
                    m,
                    m.tls.update(
                        i,
                        TimelineModel {
                            tape: bump_tape(t1.tape, t1.ptrs, false, m.cfg),
                            pc: (t.pc + 1) as usize,
                            ..t1
                        },
                    ),
                )
            },
            Token::Right => {
                if cursors_movable(t.ptrs, true, m.cfg) {
                    quiet_effect(
                        m,
                        m.tls.update(
                            i,
                            TimelineModel {
                                ptrs: moved_cursors(t.ptrs, true, m.cfg),
                                pc: (t.pc + 1) as usize,
                                ..t
                            },
                        ),
                    )
                } else {
                    fail_effect(m, RuntimeError::PointerOutOfBounds)
                }
            },
            Token::Left => {
                if cursors_movable(t.ptrs, false, m.cfg) {
                    quiet_effect(
                        m,
                        m.tls.update(
                            i,
                            TimelineModel {
                                ptrs: moved_cursors(t.ptrs, false, m.cfg),
                                pc: (t.pc + 1) as usize,
                                ..t
                            },
                        ),
                    )
                } else {
                    fail_effect(m, RuntimeError::PointerOutOfBounds)
                }
            },
            Token::Read => {
                let t1 = TimelineModel { ops: t.ops.push(snapshot_pairs(t.tape, t.ptrs)), ..t };
                let rt = read_tape(t1.tape, t1.ptrs, m.input, m.in_pos, m.cfg);
                StepEffect {
                    tls: m.tls.update(
                        i,
                        TimelineModel { tape: rt.0, pc: (t.pc + 1) as usize, ..t1 },
                    ),
                    in_pos: rt.1,
                    out: m.out,
                    spawn: None,
                    err: None,
                    exit: false,
                }
            },
            Token::Write => {
                StepEffect {
                    tls: m.tls.update(i, TimelineModel { pc: (t.pc + 1) as usize, ..t }),
                    in_pos: m.in_pos,
                    out: m.out + output_bytes(t.tape, t.ptrs),
                    spawn: None,
                    err: None,
                    exit: false,
                }
            },
            Token::JumpZero(n) => {
                let npc = if all_zero(t.tape, t.ptrs) {
                    (n + 1) as usize
                } else {
                    (t.pc + 1) as usize
                };
                quiet_effect(m, m.tls.update(i, TimelineModel { pc: npc, ..t }))
            },
            Token::JumpNonzero(n) => {
                let npc = if any_nonzero(t.tape, t.ptrs) {
                    (n + 1) as usize
                } else {
                    (t.pc + 1) as usize
                };
                quiet_effect(m, m.tls.update(i, TimelineModel { pc: npc, ..t }))
            },
            Token::Back => {
                if t.ops.len() == 0 {
                    fail_effect(m, RuntimeError::EmptyHistory)
                } else {
                    quiet_effect(
                        m,
                        m.tls.update(
                            i,
                            TimelineModel {
                                tape: restore_tape(t.tape, t.ops.last()),
                                ops: t.ops.drop_last(),
                                pc: (t.pc + 1) as usize,
                                ..t
                            },
                        ),
                    )
                }
            },
            Token::Up => {
                if i == 0 {
                    quiet_effect(
                        m,
                        m.tls.update(
                            i,
                            TimelineModel {
                                ptrs: Seq::empty(),
                                pc: (t.pc + 1) as usize,
                                ..t
                            },
                        ),
                    )
                } else {
                    let t2 = TimelineModel { ptrs: Seq::empty(), pc: (t.pc + 1) as usize, ..t };
                    let nb2 = TimelineModel {
                        ptrs: m.tls[i - 1].ptrs + t.ptrs,
                        ..m.tls[i - 1]
                    };
                    quiet_effect(m, m.tls.update(i, t2).update(i - 1, nb2))
                }
            },
            Token::Down => {
                if i == count - 1 {
                    quiet_effect(
                        m,
                        m.tls.update(
                            i,
                            TimelineModel {
                                ptrs: Seq::empty(),
                                pc: (t.pc + 1) as usize,
                                ..t
                            },
                        ),
                    )
                } else {
                    let t2 = TimelineModel { ptrs: Seq::empty(), pc: (t.pc + 1) as usize, ..t };
                    let nb2 = TimelineModel {
                        ptrs: m.tls[i + 1].ptrs + t.ptrs,
                        ..m.tls[i + 1]
                    };
                    quiet_effect(m, m.tls.update(i, t2).update(i + 1, nb2))
                }
            },
            Token::Await => {
                let npc = if i != count - 1 && m.tls[i + 1].ptrs.len() != 0 {
                    t.pc
                } else {
                    (t.pc + 1) as usize
                };
                quiet_effect(m, m.tls.update(i, TimelineModel { pc: npc, ..t }))
            },
            Token::Spawn(n) => {
                StepEffect {
                    tls: m.tls.update(i, TimelineModel { pc: (n + 1) as usize, ..t }),
                    in_pos: m.in_pos,
                    out: m.out,
                    spawn: Some((i as usize, (t.pc + 1) as usize)),
                    err: None,
                    exit: false,
                }
            },
            Token::Kill => {
                quiet_effect(
                    m,
                    m.tls.update(
                        i,
                        TimelineModel { alive: false, pc: (t.pc + 1) as usize, ..t },
                    ),
                )
            },
        }
    }
}

/// The outcome of stepping timelines `i..` of one tick: the state reached,
/// the pending forks collected so far, the first error met, and whether the
/// run ended.
pub struct TickRun {
    pub tls: Seq<TimelineModel>,
    pub in_pos: usize,
    pub out: Seq<u8>,
    pub pend: Seq<(usize, usize)>,
    pub err: Option<RuntimeError>,
    pub exit: bool,
}

/// Step timelines `i..count` in ascending index order against the count
/// fixed at tick start, stopping at the first error or exit.
pub open spec fn run_steps(m: MvModel, i: int, pend: Seq<(usize, usize)>) -> TickRun
    decreases m.tls.len() - i,
{
    if i < 0 || i >= m.tls.len() {
        TickRun { tls: m.tls, in_pos: m.in_pos, out: m.out, pend, err: None, exit: false }
    } else {
        let e = step_at_spec(m, i);
        if e.err is Some {
            TickRun { tls: e.tls, in_pos: e.in_pos, out: e.out, pend, err: e.err, exit: false }
        } else if e.exit {
            TickRun { tls: e.tls, in_pos: e.in_pos, out: e.out, pend, err: None, exit: true }
        } else {
            let m2 = MvModel { tls: e.tls, in_pos: e.in_pos, out: e.out, ..m };
            let pend2 = match e.spawn {
                Some(s) => pend.push(s),
                None => pend,
            };
            run_steps(m2, i + 1, pend2)
        }
    }
}

/// Insert each pending fork's child immediately after its parent, in
/// descending parent order, so earlier insertions do not shift later
/// parents.
pub open spec fn apply_spawns(tls: Seq<TimelineModel>, pend: Seq<(usize, usize)>) -> Seq<
    TimelineModel,
>
    decreases pend.len(),
{
    if pend.len() == 0 {
        tls
    } else {
        let last = pend.last();
        apply_spawns(
            tls.insert(last.0 + 1, child_model(tls[last.0 as int], last.1)),
            pend.drop_last(),
        )
    }
}

/// Remove every timeline flagged dead, keeping the order of the rest.
pub open spec fn remove_dead(tls: Seq<TimelineModel>) -> Seq<TimelineModel>
    decreases tls.len(),
{
    if tls.len() == 0 {
        Seq::empty()
    } else if tls.first().alive {
        seq![tls.first()] + remove_dead(tls.drop_first())
    } else {
        remove_dead(tls.drop_first())
    }
}

/// What a tick reports when it does not fail: the run goes on, or the root
/// ran off the program end and the whole run is over.
#[derive(Clone, Copy, PartialEq, Eq, Structural, Debug)]
pub enum TickStatus {
    Running,
    Halted,
}

pub struct TickOut {
    pub m: MvModel,
    pub r: Result<TickStatus, RuntimeError>,
}

/// One whole tick: every timeline steps once, in index order, against the
/// count at tick start; then pending forks are inserted (descending parent
/// order) and dead timelines removed. An empty multiverse is a fatal
/// invariant violation. A fatal error of any step halts the tick at once,
/// with forks dropped and deaths not yet applied.
pub open spec fn tick_spec(m: MvModel) -> TickOut {
    if m.tls.len() == 0 {
        TickOut { m, r: Err(RuntimeError::EmptyMultiverse) }
    } else {
        let tr = run_steps(m, 0, Seq::empty());
        let m1 = MvModel { tls: tr.tls, in_pos: tr.in_pos, out: tr.out, ..m };
        match tr.err {
            Some(er) => TickOut { m: m1, r: Err(er) },
            None => {
                if tr.exit {
                    TickOut { m: m1, r: Ok(TickStatus::Halted) }
                } else {
                    TickOut {
                        m: MvModel { tls: remove_dead(apply_spawns(tr.tls, tr.pend)), ..m1 },
                        r: Ok(TickStatus::Running),
                    }
                }
            },
        }
    }
}

/// Every pending fork names a parent inside the tick-start count and a
/// child counter inside the program bounds.
pub open spec fn pend_ok(pend: Seq<(usize, usize)>, count: int, plen: int) -> bool {
    forall|k: int|
        0 <= k < pend.len() ==> (#[trigger] pend[k]).0 < count && pend[k].1 <= plen
}

proof fn lemma_seq_update_wf(
    tls: Seq<TimelineModel>,
    cfg: Config,
    plen: int,
    i: int,
    t2: TimelineModel,
)
    requires
        forall|k: int| 0 <= k < tls.len() ==> (#[trigger] tls[k]).wf(cfg, plen),
        0 <= i < tls.len(),
        t2.wf(cfg, plen),
    ensures
        forall|k: int|
            0 <= k < tls.update(i, t2).len() ==> (#[trigger] tls.update(i, t2)[k]).wf(cfg, plen),
{
    assert forall|k: int| 0 <= k < tls.update(i, t2).len() implies (#[trigger] tls.update(
        i,
        t2,
    )[k]).wf(cfg, plen) by {
        if k != i {
            assert(tls.update(i, t2)[k] == tls[k]);
        }
    }
}

/// Stepping one timeline preserves well-formedness of everything, keeps the
/// timeline count, and records at most one in-bounds pending fork.
pub proof fn lemma_step_wf(m: MvModel, i: int)
    requires
        m.wf(),
        0 <= i < m.tls.len(),
    ensures
        ({
            let e = step_at_spec(m, i);
            &&& e.tls.len() == m.tls.len()
            &&& forall|k: int|
                0 <= k < e.tls.len() ==> (#[trigger] e.tls[k]).wf(m.cfg, m.prog.len() as int)
            &&& e.in_pos <= m.input.len()
            &&& (match e.spawn {
                Some(s) => s.0 == i && s.1 <= m.prog.len(),
                None => true,
            })
        }),
{
    let t = m.tls[i];
    let e = step_at_spec(m, i);
    let cfg = m.cfg;
    let plen = m.prog.len() as int;
    let pc = t.pc as int;
    assert(t.wf(cfg, plen));
    if pc >= m.prog.len() {
        if i != 0 {
            lemma_seq_update_wf(m.tls, cfg, plen, i, TimelineModel { alive: false, ..t });
        }
    } else {
        assert(target_ok(m.prog[pc], plen));
        match m.prog[pc] {
            Token::Inc => {
                crate::timeline::lemma_snapshot_pairs_ok(t.tape, t.ptrs, cfg);
                crate::timeline::lemma_bump_tape_wf(t.tape, t.ptrs, true, cfg);
                let t1 = TimelineModel { ops: t.ops.push(snapshot_pairs(t.tape, t.ptrs)), ..t };
                let t2 = TimelineModel {
                    tape: bump_tape(t1.tape, t1.ptrs, true, m.cfg),
                    pc: (t.pc + 1) as usize,
                    ..t1
                };
                assert forall|k: int| 0 <= k < t2.ops.len() implies crate::timeline::snap_ok(
                    #[trigger] t2.ops[k],
                    cfg,
                ) by {
                    if k < t.ops.len() {
                        assert(t2.ops[k] == t.ops[k]);
                    }
                }
                lemma_seq_update_wf(m.tls, cfg, plen, i, t2);
            },
            Token::Dec => {
                crate::timeline::lemma_snapshot_pairs_ok(t.tape, t.ptrs, cfg);
                crate::timeline::lemma_bump_tape_wf(t.tape, t.ptrs, false, cfg);
                let t1 = TimelineModel { ops: t.ops.push(snapshot_pairs(t.tape, t.ptrs)), ..t };
                let t2 = TimelineModel {
                    tape: bump_tape(t1.tape, t1.ptrs, false, m.cfg),
                    pc: (t.pc + 1) as usize,
                    ..t1
                };
                assert forall|k: int| 0 <= k < t2.ops.len() implies crate::timeline::snap_ok(
                    #[trigger] t2.ops[k],
                    cfg,
                ) by {
                    if k < t.ops.len() {
                        assert(t2.ops[k] == t.ops[k]);
                    }
                }
                lemma_seq_update_wf(m.tls, cfg, plen, i, t2);
            },
            Token::Right => {
                if cursors_movable(t.ptrs, true, cfg) {
                    crate::timeline::lemma_moved_cursors_ok(t.ptrs, true, cfg);
                    lemma_seq_update_wf(
                        m.tls,
                        cfg,
                        plen,
                        i,
                        TimelineModel {
                            ptrs: moved_cursors(t.ptrs, true, cfg),
                            pc: (t.pc + 1) as usize,
                            ..t
                        },
                    );
                }
            },
            Token::Left => {
                if cursors_movable(t.ptrs, false, cfg) {
                    crate::timeline::lemma_moved_cursors_ok(t.ptrs, false, cfg);
                    lemma_seq_update_wf(
                        m.tls,
                        cfg,
                        plen,
                        i,
                        TimelineModel {
                            ptrs: moved_cursors(t.ptrs, false, cfg),
                            pc: (t.pc + 1) as usize,
                            ..t
                        },
                    );
                }
            },
            Token::Read => {
                crate::timeline::lemma_snapshot_pairs_ok(t.tape, t.ptrs, cfg);
                crate::timeline::lemma_read_tape_wf(t.tape, t.ptrs, m.input, m.in_pos, cfg);
                let t1 = TimelineModel { ops: t.ops.push(snapshot_pairs(t.tape, t.ptrs)), ..t };
                let rt = read_tape(t1.tape, t1.ptrs, m.input, m.in_pos, m.cfg);
                let t2 = TimelineModel { tape: rt.0, pc: (t.pc + 1) as usize, ..t1 };
                assert forall|k: int| 0 <= k < t2.ops.len() implies crate::timeline::snap_ok(
                    #[trigger] t2.ops[k],
                    cfg,
                ) by {
                    if k < t.ops.len() {
                        assert(t2.ops[k] == t.ops[k]);
                    }
                }
                lemma_seq_update_wf(m.tls, cfg, plen, i, t2);
            },
            Token::Write => {
                lemma_seq_update_wf(
                    m.tls,
                    cfg,
                    plen,
                    i,
                    TimelineModel { pc: (t.pc + 1) as usize, ..t },
                );
            },
            Token::JumpZero(n) => {
                let npc = if all_zero(t.tape, t.ptrs) {
                    (n + 1) as usize
                } else {
                    (t.pc + 1) as usize
                };
                lemma_seq_update_wf(m.tls, cfg, plen, i, TimelineModel { pc: npc, ..t });
            },
            Token::JumpNonzero(n) => {
                let npc = if any_nonzero(t.tape, t.ptrs) {
                    (n + 1) as usize
                } else {
                    (t.pc + 1) as usize
                };
                lemma_seq_update_wf(m.tls, cfg, plen, i, TimelineModel { pc: npc, ..t });
            },
            Token::Back => {
                if t.ops.len() > 0 {
                    crate::timeline::lemma_restore_tape_wf(t.tape, t.ops.last(), cfg);
                    let t2 = TimelineModel {
                        tape: restore_tape(t.tape, t.ops.last()),
                        ops: t.ops.drop_last(),
                        pc: (t.pc + 1) as usize,
                        ..t
                    };
                    assert forall|k: int| 0 <= k < t2.ops.len() implies crate::timeline::snap_ok(
                        #[trigger] t2.ops[k],
                        cfg,
                    ) by {
                        assert(t2.ops[k] == t.ops[k]);
                    }
                    lemma_seq_update_wf(m.tls, cfg, plen, i, t2);
                }
            },
            Token::Up => {
                let t2 = TimelineModel { ptrs: Seq::empty(), pc: (t.pc + 1) as usize, ..t };
                if i == 0 {
                    lemma_seq_update_wf(m.tls, cfg, plen, i, t2);
                } else {
                    let nb = m.tls[i - 1];
                    let nb2 = TimelineModel { ptrs: nb.ptrs + t.ptrs, ..nb };
                    assert forall|k: int| 0 <= k < nb2.ptrs.len() implies (#[trigger] nb2.ptrs[k])
                        < cfg.cell_count by {
                        if k < nb.ptrs.len() {
                            assert(nb2.ptrs[k] == nb.ptrs[k]);
                        } else {
                            assert(nb2.ptrs[k] == t.ptrs[k - nb.ptrs.len()]);
                        }
                    }
                    lemma_seq_update_wf(m.tls, cfg, plen, i, t2);
                    lemma_seq_update_wf(m.tls.update(i, t2), cfg, plen, i - 1, nb2);
                }
            },
            Token::Down => {
                let count = m.tls.len() as int;
                let t2 = TimelineModel { ptrs: Seq::empty(), pc: (t.pc + 1) as usize, ..t };
                if i == count - 1 {
                    lemma_seq_update_wf(m.tls, cfg, plen, i, t2);
                } else {
                    let nb = m.tls[i + 1];
                    let nb2 = TimelineModel { ptrs: nb.ptrs + t.ptrs, ..nb };
                    assert forall|k: int| 0 <= k < nb2.ptrs.len() implies (#[trigger] nb2.ptrs[k])
                        < cfg.cell_count by {
                        if k < nb.ptrs.len() {
                            assert(nb2.ptrs[k] == nb.ptrs[k]);
                        } else {
                            assert(nb2.ptrs[k] == t.ptrs[k - nb.ptrs.len()]);
                        }
                    }
                    lemma_seq_update_wf(m.tls, cfg, plen, i, t2);
                    lemma_seq_update_wf(m.tls.update(i, t2), cfg, plen, i + 1, nb2);
                }
            },
            Token::Await => {
                let count = m.tls.len() as int;
                let npc = if i != count - 1 && m.tls[i + 1].ptrs.len() != 0 {
                    t.pc
                } else {
                    (t.pc + 1) as usize
                };
                lemma_seq_update_wf(m.tls, cfg, plen, i, TimelineModel { pc: npc, ..t });
            },
            Token::Spawn(n) => {
                lemma_seq_update_wf(
                    m.tls,
                    cfg,
                    plen,
                    i,
                    TimelineModel { pc: (n + 1) as usize, ..t },
                );
            },
            Token::Kill => {
                lemma_seq_update_wf(
                    m.tls,
                    cfg,
                    plen,
                    i,
                    TimelineModel { alive: false, pc: (t.pc + 1) as usize, ..t },
                );
            },
        }
    }
}

proof fn lemma_remove_insert_is_update<A>(s: Seq<A>, i: int, x: A)
    requires
        0 <= i < s.len(),
    ensures
        s.remove(i).insert(i, x) =~= s.update(i, x),
{
    let r = s.remove(i);
    assert forall|j: int| 0 <= j < s.len() implies s.remove(i).insert(i, x)[j] == s.update(
        i,
        x,
    )[j] by {
        if j < i {
        } else if j == i {
        } else {
            assert(r[j - 1] == s[j]);
        }
    }
}

proof fn lemma_views_update(s0: Seq<Timeline>, i: int, t: Timeline)
    requires
        0 <= i < s0.len(),
    ensures
        tl_views(s0.update(i, t)) =~= tl_views(s0).update(i, t@),
{
}

proof fn lemma_views_insert(s0: Seq<Timeline>, i: int, t: Timeline)
    requires
        0 <= i <= s0.len(),
    ensures
        tl_views(s0.insert(i, t)) =~= tl_views(s0).insert(i, t@),
{
    let s1 = s0.insert(i, t);
    assert forall|j: int| 0 <= j < s1.len() implies tl_views(s1)[j] == tl_views(s0).insert(
        i,
        t@,
    )[j] by {
        if j < i {
            assert(s1[j] == s0[j]);
        } else if j == i {
            assert(s1[j] == t);
        } else {
            assert(s1[j] == s0[j - 1]);
        }
    }
}

impl Multiverse {
    /// A fresh multiverse: the given program, configuration and input, one
    /// root timeline, nothing read and nothing written yet.
    pub fn new(program: Vec<Token>, cfg: Config, input: Vec<u8>) -> (m: Multiverse)
        requires
            cfg.wf(),
            prog_wf(program@),
        ensures
            m@ == (MvModel {
                prog: program@,
                cfg,
                tls: seq![root_model(cfg)],
                input: input@,
                in_pos: 0,
                out: Seq::empty(),
            }),
            m@.wf(),
    {
        let plen = program.len();
        let ilen = input.len();
        let root = Timeline::new_root(&cfg);
        let mut timelines: Vec<Timeline> = Vec::new();
        timelines.push(root);
        let m = Multiverse { program, cfg, timelines, input, in_pos: 0, output: Vec::new() };
        proof {
            assert(m@.tls =~= seq![root_model(cfg)]);
            assert(m@.prog.len() == plen as int);
            assert(m@.input.len() == ilen as int);
            assert(root_model(cfg).tape.len() == cfg.cell_count);
            assert(forall|j: int|
                0 <= j < root_model(cfg).tape.len() ==> root_model(cfg).tape[j] == 0u64);
            assert(root_model(cfg).wf(cfg, m@.prog.len() as int));
            assert forall|k: int| 0 <= k < m@.tls.len() implies (#[trigger] m@.tls[k]).wf(
                cfg,
                m@.prog.len() as int,
            ) by {
                assert(m@.tls[k] == root_model(cfg));
            }
        }
        m
    }

    /// Step the timeline at index `i`, granting it access to at most one
    /// adjacent neighbor, and record a pending fork if it spawned. Returns
    /// `Ok(true)` when the root ran off the program end (the whole run is
    /// over), `Ok(false)` to continue, or the timeline's fatal error.
    #[verifier::rlimit(100)]
    #[verifier::spinoff_prover]
    pub fn step_at(&mut self, i: usize, pend: &mut Vec<(usize, usize)>) -> (r: Result<
        bool,
        RuntimeError,
    >)
        requires
            old(self)@.wf(),
            i < old(self)@.tls.len(),
        ensures
            final(self)@.wf(),
            final(self)@.prog == old(self)@.prog,
            final(self)@.cfg == old(self)@.cfg,
            final(self)@.input == old(self)@.input,
            ({
                let e = step_at_spec(old(self)@, i as int);
                &&& final(self)@.tls == e.tls
                &&& final(self)@.in_pos == e.in_pos
                &&& final(self)@.out == e.out
                &&& final(pend)@ == (match e.spawn {
                    Some(s) => old(pend)@.push(s),
                    None => old(pend)@,
                })
                &&& r == (match e.err {
                    Some(er) => Err::<bool, RuntimeError>(er),
                    None => Ok::<bool, RuntimeError>(e.exit),
                })
            }),
    {
        let ghost m0 = self@;
        let ghost e = step_at_spec(m0, i as int);
        proof {
            assert(m0.tls[i as int] == self.timelines@[i as int]@);
            lemma_step_wf(m0, i as int);
        }
        let count = self.timelines.len();
        let plen = self.program.len();
        let pc = self.timelines[i].pc;
        if pc >= plen {
            if i == 0 {
                return Ok(true);
            }
            let mut t = self.timelines.remove(i);
            t.alive = false;
            self.timelines.insert(i, t);
            proof {
                lemma_remove_insert_is_update(old(self).timelines@, i as int, t);
                lemma_views_update(old(self).timelines@, i as int, t);
            }
            return Ok(false);
        }
        let tok = self.program[pc];
        proof {
            assert(target_ok(m0.prog[pc as int], m0.prog.len() as int));
        }
        match tok {
            Token::Inc => {
                let mut t = self.timelines.remove(i);
                t.snapshot();
                t.apply_bump(true, &self.cfg);
                t.pc = pc + 1;
                self.timelines.insert(i, t);
                proof {
                    lemma_remove_insert_is_update(old(self).timelines@, i as int, t);
                    lemma_views_update(old(self).timelines@, i as int, t);
                }
                Ok(false)
            },
            Token::Dec => {
                let mut t = self.timelines.remove(i);
                t.snapshot();
                t.apply_bump(false, &self.cfg);
                t.pc = pc + 1;
                self.timelines.insert(i, t);
                proof {
                    lemma_remove_insert_is_update(old(self).timelines@, i as int, t);
                    lemma_views_update(old(self).timelines@, i as int, t);
                }
                Ok(false)
            },
            Token::Right => {
                let mut t = self.timelines.remove(i);
                match t.move_cursors(true, &self.cfg) {
                    Ok(()) => {
                        t.pc = pc + 1;
                        self.timelines.insert(i, t);
                        proof {
                            lemma_remove_insert_is_update(old(self).timelines@, i as int, t);
                            lemma_views_update(old(self).timelines@, i as int, t);
                        }
                        Ok(false)
                    },
                    Err(er) => {
                        self.timelines.insert(i, t);
                        proof {
                            lemma_remove_insert_is_update(old(self).timelines@, i as int, t);
                            lemma_views_update(old(self).timelines@, i as int, t);
                            assert(m0.tls.update(i as int, t@) =~= m0.tls);
                        }
                        Err(er)
                    },
                }
            },
            Token::Left => {
                let mut t = self.timelines.remove(i);
                match t.move_cursors(false, &self.cfg) {
                    Ok(()) => {
                        t.pc = pc + 1;
                        self.timelines.insert(i, t);
                        proof {
                            lemma_remove_insert_is_update(old(self).timelines@, i as int, t);
                            lemma_views_update(old(self).timelines@, i as int, t);
                        }
                        Ok(false)
                    },
                    Err(er) => {
                        self.timelines.insert(i, t);
                        proof {
                            lemma_remove_insert_is_update(old(self).timelines@, i as int, t);
                            lemma_views_update(old(self).timelines@, i as int, t);
                            assert(m0.tls.update(i as int, t@) =~= m0.tls);
                        }
                        Err(er)
                    },
                }
            },
            Token::Read => {
                let mut t = self.timelines.remove(i);
                t.snapshot();
                let newpos = t.do_read(&self.input, self.in_pos, &self.cfg);
                self.in_pos = newpos;
                t.pc = pc + 1;
                self.timelines.insert(i, t);
                proof {
                    lemma_remove_insert_is_update(old(self).timelines@, i as int, t);
                    lemma_views_update(old(self).timelines@, i as int, t);
                }
                Ok(false)
            },
            Token::Write => {
                let mut t = self.timelines.remove(i);
                t.do_write(&mut self.output);
                t.pc = pc + 1;
                self.timelines.insert(i, t);
                proof {
                    lemma_remove_insert_is_update(old(self).timelines@, i as int, t);
                    lemma_views_update(old(self).timelines@, i as int, t);
                }
                Ok(false)
            },
            Token::JumpZero(n) => {
                let mut t = self.timelines.remove(i);
                let cond = t.check_all_zero();
                t.pc = if cond {
                    n + 1
                } else {
                    pc + 1
                };
                self.timelines.insert(i, t);
                proof {
                    lemma_remove_insert_is_update(old(self).timelines@, i as int, t);
                    lemma_views_update(old(self).timelines@, i as int, t);
                }
                Ok(false)
            },
            Token::JumpNonzero(n) => {
                let mut t = self.timelines.remove(i);
                let cond = t.check_any_nonzero();
                t.pc = if cond {
                    n + 1
                } else {
                    pc + 1
                };
                self.timelines.insert(i, t);
                proof {
                    lemma_remove_insert_is_update(old(self).timelines@, i as int, t);
                    lemma_views_update(old(self).timelines@, i as int, t);
                }
                Ok(false)
            },
            Token::Back => {
                let mut t = self.timelines.remove(i);
                match t.rewind(&self.cfg) {
                    Ok(()) => {
                        t.pc = pc + 1;
                        self.timelines.insert(i, t);
                        proof {
                            lemma_remove_insert_is_update(old(self).timelines@, i as int, t);
                            lemma_views_update(old(self).timelines@, i as int, t);
                        }
                        Ok(false)
                    },
                    Err(er) => {
                        self.timelines.insert(i, t);
                        proof {
                            lemma_remove_insert_is_update(old(self).timelines@, i as int, t);
                            lemma_views_update(old(self).timelines@, i as int, t);
                            assert(m0.tls.update(i as int, t@) =~= m0.tls);
                        }
                        Err(er)
                    },
                }
            },
            Token::Up => {
                let mut t = self.timelines.remove(i);
                let moved = t.take_ptrs();
                t.pc = pc + 1;
                self.timelines.insert(i, t);
                proof {
                    lemma_remove_insert_is_update(old(self).timelines@, i as int, t);
                    lemma_views_update(old(self).timelines@, i as int, t);
                }
                if i > 0 {
                    let ghost mid = self.timelines@;
                    let mut nb = self.timelines.remove(i - 1);
                    nb.extend_ptrs(&moved);
                    self.timelines.insert(i - 1, nb);
                    proof {
                        lemma_remove_insert_is_update(mid, i as int - 1, nb);
                        lemma_views_update(mid, i as int - 1, nb);
                        assert(mid[i as int - 1]@ == tl_views(mid)[i as int - 1]);
                    }
                }
                Ok(false)
            },
            Token::Down => {
                let mut t = self.timelines.remove(i);
                let moved = t.take_ptrs();
                t.pc = pc + 1;
                self.timelines.insert(i, t);
                proof {
                    lemma_remove_insert_is_update(old(self).timelines@, i as int, t);
                    lemma_views_update(old(self).timelines@, i as int, t);
                }
                if i < count - 1 {
                    let ghost mid = self.timelines@;
                    let mut nb = self.timelines.remove(i + 1);
                    nb.extend_ptrs(&moved);
                    self.timelines.insert(i + 1, nb);
                    proof {
                        lemma_remove_insert_is_update(mid, i as int + 1, nb);
                        lemma_views_update(mid, i as int + 1, nb);
                        assert(mid[i as int + 1]@ == tl_views(mid)[i as int + 1]);
                    }
                }
                Ok(false)
            },
            Token::Await => {
                let repeat = if i < count - 1 {
                    self.timelines[i + 1].ptrs.len() > 0
                } else {
                    false
                };
                proof {
                    if i < count - 1 {
                        assert(m0.tls[i as int + 1] == self.timelines@[i as int + 1]@);
                    }
                }
                let mut t = self.timelines.remove(i);
                t.pc = if repeat {
                    pc
                } else {
                    pc + 1
                };
                self.timelines.insert(i, t);
                proof {
                    lemma_remove_insert_is_update(old(self).timelines@, i as int, t);
                    lemma_views_update(old(self).timelines@, i as int, t);
                }
                Ok(false)
            },
            Token::Spawn(n) => {
                pend.push((i, pc + 1));
                let mut t = self.timelines.remove(i);
                t.pc = n + 1;
                self.timelines.insert(i, t);
                proof {
                    lemma_remove_insert_is_update(old(self).timelines@, i as int, t);
                    lemma_views_update(old(self).timelines@, i as int, t);
                }
                Ok(false)
            },
            Token::Kill => {
                let mut t = self.timelines.remove(i);
                t.alive = false;
                t.pc = pc + 1;
                self.timelines.insert(i, t);
                proof {
                    lemma_remove_insert_is_update(old(self).timelines@, i as int, t);
                    lemma_views_update(old(self).timelines@, i as int, t);
                }
                Ok(false)
            },
        }
    }

    /// One tick: advance every live timeline by exactly one instruction, in
    /// index order against the count fixed at tick start, then insert the
    /// pending forks (descending parent order) and remove the dead. Forked
    /// timelines are invisible until the next tick.
    #[verifier::rlimit(50)]
    pub fn tick(&mut self) -> (r: Result<TickStatus, RuntimeError>)
        requires
            old(self)@.wf(),
        ensures
            final(self)@.wf(),
            ({
                let to = tick_spec(old(self)@);
                final(self)@ == to.m && r == to.r
            }),
    {
        let ghost m0 = self@;
        if self.timelines.len() == 0 {
            return Err(RuntimeError::EmptyMultiverse);
        }
        let count = self.timelines.len();
        let plen = self.program.len();
        let mut pend: Vec<(usize, usize)> = Vec::new();
        let mut i: usize = 0;
        while i < count
            invariant
                self@.wf(),
                i <= count,
                count == self@.tls.len(),
                count >= 1,
                plen == self@.prog.len(),
                self@.prog == m0.prog,
                self@.cfg == m0.cfg,
                self@.input == m0.input,
                pend_ok(pend@, count as int, plen as int),
                count as int == m0.tls.len(),
                m0 == old(self)@,
                run_steps(m0, 0, Seq::empty()) == run_steps(self@, i as int, pend@),
            decreases count - i,
        {
            let ghost m_pre = self@;
            let ghost pend_pre = pend@;
            let ghost e = step_at_spec(m_pre, i as int);
            let step = self.step_at(i, &mut pend);
            proof {
                let m2 = MvModel {
                    tls: e.tls,
                    in_pos: e.in_pos,
                    out: e.out,
                    ..m_pre
                };
                assert(self@ == m2);
                assert(e.tls.len() == m_pre.tls.len());
            }
            match step {
                Err(er) => {
                    proof {
                        assert(run_steps(m_pre, i as int, pend_pre) == TickRun {
                            tls: e.tls,
                            in_pos: e.in_pos,
                            out: e.out,
                            pend: pend_pre,
                            err: e.err,
                            exit: false,
                        });
                        assert(tick_spec(m0).r == Err::<TickStatus, RuntimeError>(er));
                        assert(self@ == tick_spec(m0).m);
                    }
                    return Err(er);
                },
                Ok(true) => {
                    proof {
                        assert(run_steps(m_pre, i as int, pend_pre) == TickRun {
                            tls: e.tls,
                            in_pos: e.in_pos,
                            out: e.out,
                            pend: pend_pre,
                            err: None::<RuntimeError>,
                            exit: true,
                        });
                        assert(tick_spec(m0).r == Ok::<TickStatus, RuntimeError>(
                            TickStatus::Halted,
                        ));
                        assert(self@ == tick_spec(m0).m);
                    }
                    return Ok(TickStatus::Halted);
                },
                Ok(false) => {
                    i = i + 1;
                },
            }
        }
        let ghost tr = run_steps(m0, 0, Seq::empty());
        proof {
            assert(tr == TickRun {
                tls: self@.tls,
                in_pos: self@.in_pos,
                out: self@.out,
                pend: pend@,
                err: None::<RuntimeError>,
                exit: false,
            });
        }
        let ghost stepped = self@.tls;
        // insert pending forks, highest parent index first
        let mut k = pend.len();
        proof {
            assert(pend@.take(k as int) =~= pend@);
        }
        while k > 0
            invariant
                self@.wf(),
                k <= pend@.len(),
                pend_ok(pend@, count as int, plen as int),
                count <= self@.tls.len(),
                self@.tls.len() == stepped.len() + (pend@.len() - k),
                stepped.len() == count,
                plen == self@.prog.len(),
                self@.prog == m0.prog,
                self@.cfg == m0.cfg,
                self@.input == m0.input,
                self@.in_pos == tr.in_pos,
                self@.out == tr.out,
                apply_spawns(stepped, pend@) == apply_spawns(self@.tls, pend@.take(k as int)),
            decreases k,
        {
            k = k - 1;
            let entry = pend[k];
            let pi = entry.0;
            let pcc = entry.1;
            let ghost pre = self@.tls;
            proof {
                assert(pend@.take(k as int + 1).last() == pend@[k as int]);
                assert(pend@.take(k as int + 1).drop_last() =~= pend@.take(k as int));
                assert(self.timelines@[pi as int]@ == pre[pi as int]);
            }
            let child = self.timelines[pi].duplicate(pcc);
            let ghost mid = self.timelines@;
            self.timelines.insert(pi + 1, child);
            proof {
                vstd::std_specs::vec::axiom_spec_len(&self.timelines);
                lemma_views_insert(mid, pi as int + 1, child);
                assert(self@.tls =~= pre.insert(pi as int + 1, child_model(pre[pi as int], pcc)));
                assert(child_model(pre[pi as int], pcc).wf(self@.cfg, plen as int));
                assert forall|j: int| 0 <= j < self@.tls.len() implies (#[trigger] self@.tls[j]).wf(
                    self@.cfg,
                    plen as int,
                ) by {
                    if j < pi as int + 1 {
                        assert(self@.tls[j] == pre[j]);
                    } else if j == pi as int + 1 {
                        assert(self@.tls[j] == child_model(pre[pi as int], pcc));
                    } else {
                        assert(self@.tls[j] == pre[j - 1]);
                    }
                }
            }
        }
        proof {
            assert(pend@.take(0) =~= Seq::<(usize, usize)>::empty());
            assert(apply_spawns(self@.tls, pend@.take(0)) == self@.tls);
        }
        let ghost grown = self@.tls;
        // remove the dead, keeping the order of the survivors
        let mut rest: Vec<Timeline> = Vec::new();
        core::mem::swap(&mut self.timelines, &mut rest);
        proof {
            assert(self.timelines@.len() == 0);
            assert(tl_views(self.timelines@) =~= Seq::<TimelineModel>::empty());
            assert(tl_views(rest@) == grown);
            assert forall|j: int| 0 <= j < rest@.len() implies (#[trigger] rest@[j]@).wf(
                self@.cfg,
                plen as int,
            ) by {
                assert(rest@[j]@ == grown[j]);
            }
            assert(Seq::<TimelineModel>::empty() + remove_dead(grown) =~= remove_dead(grown));
            assert(remove_dead(grown) == self@.tls + remove_dead(tl_views(rest@)));
        }
        while rest.len() > 0
            invariant
                self@.wf(),
                plen == self@.prog.len(),
                self@.prog == m0.prog,
                self@.cfg == m0.cfg,
                self@.input == m0.input,
                self@.in_pos == tr.in_pos,
                self@.out == tr.out,
                forall|j: int|
                    0 <= j < rest@.len() ==> (#[trigger] rest@[j]@).wf(self@.cfg, plen as int),
                remove_dead(grown) == self@.tls + remove_dead(tl_views(rest@)),
            decreases rest@.len(),
        {
            let ghost pre_tls = self@.tls;
            let ghost rv = tl_views(rest@);
            let ghost rest_pre = rest@;
            let t = rest.remove(0);
            proof {
                assert(rv.first() == t@);
                assert(tl_views(rest@) =~= rv.drop_first());
                assert forall|j: int| 0 <= j < rest@.len() implies (#[trigger] rest@[j]@).wf(
                    self@.cfg,
                    plen as int,
                ) by {
                    assert(rest@[j] == rest_pre[j + 1]);
                    assert(rest_pre[j + 1]@.wf(self@.cfg, plen as int));
                }
            }
            if t.alive {
                self.timelines.push(t);
                proof {
                    vstd::std_specs::vec::axiom_spec_len(&self.timelines);
                    assert(self@.tls =~= pre_tls.push(t@));
                    assert forall|j: int| 0 <= j < self@.tls.len() implies (
                    #[trigger] self@.tls[j]).wf(self@.cfg, plen as int) by {
                        if j < pre_tls.len() {
                            assert(self@.tls[j] == pre_tls[j]);
                        } else {
                            assert(self@.tls[j] == t@);
                            assert(t@ == rv.first());
                        }
                    }
                    assert(pre_tls.push(t@) + remove_dead(tl_views(rest@)) =~= pre_tls + (seq![
                        t@,
                    ] + remove_dead(tl_views(rest@))));
                }
            }
        }
        proof {
            assert(tl_views(rest@) =~= Seq::<TimelineModel>::empty());
            assert(remove_dead(tl_views(rest@)) == Seq::<TimelineModel>::empty());
            assert(self@.tls + Seq::<TimelineModel>::empty() =~= self@.tls);
            assert(self@.tls == remove_dead(apply_spawns(tr.tls, tr.pend)));
            assert(tick_spec(m0).r == Ok::<TickStatus, RuntimeError>(TickStatus::Running));
            assert(self@ == tick_spec(m0).m);
        }
        Ok(TickStatus::Running)
    }
}

/// How a bounded run ends when no fatal error occurs: the root ran off the
/// program end, or the tick budget ran out first.
#[derive(Clone, Copy, PartialEq, Eq, Structural, Debug)]
pub enum RunOutcome {
    Halted,
    OutOfFuel,
}

pub struct RunOut {
    pub m: MvModel,
    pub r: Result<RunOutcome, RuntimeError>,
}

/// Up to `fuel` whole ticks from state `m`, stopping early when the run
/// halts or fails.
pub open spec fn run_spec(m: MvModel, fuel: nat) -> RunOut
    decreases fuel,
{
    if fuel == 0 {
        RunOut { m, r: Ok(RunOutcome::OutOfFuel) }
    } else {
        let to = tick_spec(m);
        match to.r {
            Err(er) => RunOut { m: to.m, r: Err(er) },
            Ok(TickStatus::Halted) => RunOut { m: to.m, r: Ok(RunOutcome::Halted) },
            Ok(TickStatus::Running) => run_spec(to.m, (fuel - 1) as nat),
        }
    }
}

impl Multiverse {
    /// Run whole ticks until the root runs off the program end (`Halted`),
    /// a fatal error occurs, or `fuel` ticks have passed (`OutOfFuel`).
    pub fn run(&mut self, fuel: usize) -> (r: Result<RunOutcome, RuntimeError>)
        requires
            old(self)@.wf(),
        ensures
            final(self)@.wf(),
            final(self)@ == run_spec(old(self)@, fuel as nat).m,
            r == run_spec(old(self)@, fuel as nat).r,
    {
        let ghost m0 = self@;
        let mut left = fuel;
        while left > 0
            invariant
                self@.wf(),
                m0 == old(self)@,
                left <= fuel,
                run_spec(m0, fuel as nat) == run_spec(self@, left as nat),
            decreases left,
        {
            let ghost m_pre = self@;
            match self.tick() {
                Err(er) => {
                    proof {
                        assert(run_spec(m_pre, left as nat).r == Err::<RunOutcome, RuntimeError>(
                            er,
                        ));
                    }
                    return Err(er);
                },
                Ok(TickStatus::Halted) => {
                    return Ok(RunOutcome::Halted);
                },
                Ok(TickStatus::Running) => {
                    left = left - 1;
                },
            }
        }
        Ok(RunOutcome::OutOfFuel)
    }
}

proof fn lemma_remove_dead_all_alive(tls: Seq<TimelineModel>)
    requires
        forall|k: int| 0 <= k < tls.len() ==> (#[trigger] tls[k]).alive,
    ensures
        remove_dead(tls) == tls,
    decreases tls.len(),
{
    if tls.len() > 0 {
        let rest = tls.drop_first();
        assert forall|k: int| 0 <= k < rest.len() implies (#[trigger] rest[k]).alive by {
            assert(rest[k] == tls[k + 1]);
        }
        lemma_remove_dead_all_alive(rest);
        assert(seq![tls.first()] + rest =~= tls);
    }
}

/// Law (fork): in a single-timeline multiverse whose next instruction is
/// `Spawn(n)`, one tick produces exactly one new child timeline, inserted
/// immediately after the parent, with the parent's memory and cursor set
/// duplicated and an empty history; the parent's counter lands on `n + 1`
/// (one past the matching `Kill`, since the assembler resolves `n` to the
/// `Kill`'s position), and the child's counter starts one past the `Spawn`.
pub proof fn lemma_fork_spawns_child(m: MvModel, n: usize)
    requires
        m.wf(),
        m.tls.len() == 1,
        m.tls[0].alive,
        m.tls[0].pc < m.prog.len(),
        m.prog[m.tls[0].pc as int] == Token::Spawn(n),
    ensures
        ({
            let to = tick_spec(m);
            &&& to.r == Ok::<TickStatus, RuntimeError>(TickStatus::Running)
            &&& to.m.tls.len() == 2
            &&& to.m.tls[0] == (TimelineModel { pc: (n + 1) as usize, ..m.tls[0] })
            &&& to.m.tls[1] == (TimelineModel {
                tape: m.tls[0].tape,
                pc: (m.tls[0].pc + 1) as usize,
                ptrs: m.tls[0].ptrs,
                ops: Seq::empty(),
                alive: true,
            })
            &&& to.m.out == m.out
            &&& to.m.in_pos == m.in_pos
        }),
{
    let t = m.tls[0];
    let e = step_at_spec(m, 0);
    let parent = TimelineModel { pc: (n + 1) as usize, ..t };
    let tls1 = m.tls.update(0, parent);
    assert(e.tls == tls1);
    let s = ((0usize, (t.pc + 1) as usize));
    let pendv = Seq::<(usize, usize)>::empty().push(s);
    let m2 = MvModel { tls: e.tls, in_pos: e.in_pos, out: e.out, ..m };
    assert(run_steps(m2, 1, pendv) == TickRun {
        tls: tls1,
        in_pos: m.in_pos,
        out: m.out,
        pend: pendv,
        err: None::<RuntimeError>,
        exit: false,
    });
    let tr = run_steps(m, 0, Seq::empty());
    assert(tr.tls == tls1 && tr.pend == pendv && tr.err is None && !tr.exit);
    let child = child_model(tls1[0], (t.pc + 1) as usize);
    assert(pendv.last() == s);
    let grown = tls1.insert(1, child);
    assert(pendv.drop_last() =~= Seq::<(usize, usize)>::empty());
    assert(apply_spawns(tls1, pendv) == apply_spawns(grown, Seq::empty()));
    assert(apply_spawns(grown, Seq::empty()) == grown);
    assert(grown.len() == 2);
    assert(grown[0] == parent);
    assert(grown[1] == child);
    assert forall|k: int| 0 <= k < grown.len() implies (#[trigger] grown[k]).alive by {
        if k == 0 {
            assert(grown[k] == parent);
        } else {
            assert(grown[k] == child);
        }
    }
    lemma_remove_dead_all_alive(grown);
}

/// Law (reversibility): in a single-timeline multiverse about to execute an
/// Increment followed by a Rewind, the two ticks restore every cell --
/// every active cursor's prior value and the rest of the tape -- exactly,
/// and leave the history as it was before the Increment.
pub proof fn lemma_increment_then_rewind(m: MvModel)
    requires
        m.wf(),
        m.tls.len() == 1,
        m.tls[0].alive,
        m.tls[0].pc + 1 < m.prog.len(),
        m.prog[m.tls[0].pc as int] == Token::Inc,
        m.prog[m.tls[0].pc as int + 1] == Token::Back,
    ensures
        ({
            let a = tick_spec(m);
            let b = tick_spec(a.m);
            &&& a.r == Ok::<TickStatus, RuntimeError>(TickStatus::Running)
            &&& b.r == Ok::<TickStatus, RuntimeError>(TickStatus::Running)
            &&& b.m.tls.len() == 1
            &&& b.m.tls[0].tape == m.tls[0].tape
            &&& b.m.tls[0].ops == m.tls[0].ops
            &&& b.m.tls[0].ptrs == m.tls[0].ptrs
            &&& b.m.tls[0].pc == m.tls[0].pc + 2
        }),
{
    let t = m.tls[0];
    let cfg = m.cfg;
    let pairs = snapshot_pairs(t.tape, t.ptrs);
    // first tick: snapshot, then bump every cursor
    let e1 = step_at_spec(m, 0);
    let t1 = TimelineModel {
        tape: bump_tape(t.tape, t.ptrs, true, cfg),
        ops: t.ops.push(pairs),
        pc: (t.pc + 1) as usize,
        ..t
    };
    assert(e1.tls == m.tls.update(0, t1));
    let m2 = MvModel { tls: e1.tls, in_pos: e1.in_pos, out: e1.out, ..m };
    assert(run_steps(m2, 1, Seq::<(usize, usize)>::empty()) == TickRun {
        tls: e1.tls,
        in_pos: m.in_pos,
        out: m.out,
        pend: Seq::<(usize, usize)>::empty(),
        err: None::<RuntimeError>,
        exit: false,
    });
    let tr1 = run_steps(m, 0, Seq::<(usize, usize)>::empty());
    assert(tr1.tls == m.tls.update(0, t1) && tr1.err is None && !tr1.exit);
    assert(apply_spawns(tr1.tls, tr1.pend) == tr1.tls);
    assert forall|k: int| 0 <= k < tr1.tls.len() implies (#[trigger] tr1.tls[k]).alive by {
        assert(tr1.tls[k] == t1);
    }
    lemma_remove_dead_all_alive(tr1.tls);
    let a = tick_spec(m);
    assert(a.m.tls == m.tls.update(0, t1));
    assert(a.m.tls[0] == t1);
    // second tick: pop the snapshot and restore it
    let e2 = step_at_spec(a.m, 0);
    assert(t1.ops.last() == pairs);
    let t2 = TimelineModel {
        tape: restore_tape(t1.tape, pairs),
        ops: t1.ops.drop_last(),
        pc: (t1.pc + 1) as usize,
        ..t1
    };
    assert(e2.tls == a.m.tls.update(0, t2));
    let m3 = MvModel { tls: e2.tls, in_pos: e2.in_pos, out: e2.out, ..a.m };
    assert(run_steps(m3, 1, Seq::<(usize, usize)>::empty()) == TickRun {
        tls: e2.tls,
        in_pos: a.m.in_pos,
        out: a.m.out,
        pend: Seq::<(usize, usize)>::empty(),
        err: None::<RuntimeError>,
        exit: false,
    });
    let tr2 = run_steps(a.m, 0, Seq::<(usize, usize)>::empty());
    assert(tr2.tls == a.m.tls.update(0, t2) && tr2.err is None && !tr2.exit);
    assert(apply_spawns(tr2.tls, tr2.pend) == tr2.tls);
    assert forall|k: int| 0 <= k < tr2.tls.len() implies (#[trigger] tr2.tls[k]).alive by {
        assert(tr2.tls[k] == t2);
    }
    lemma_remove_dead_all_alive(tr2.tls);
    let b = tick_spec(a.m);
    assert(b.m.tls[0] == t2);
    // the restored tape is the original one
    crate::timeline::lemma_bump_then_restore(t.tape, t.ptrs, true, cfg);
    assert(t2.tape == t.tape);
    assert(t1.ops.drop_last() =~= t.ops);
}

/// Law (wait-for-below): a timeline whose next instruction is `Await`
/// repeats it (its counter is unchanged by its step) exactly as long as it
/// has a neighbor below holding a nonempty cursor set; the first time that
/// neighbor's cursor set is empty it falls through (the counter advances),
/// and on the last timeline it is always a no-op. Nothing else about the
/// timeline, and no other timeline, changes.
pub proof fn lemma_wait_for_below(m: MvModel, i: int)
    requires
        m.wf(),
        0 <= i < m.tls.len(),
        m.tls[i].pc < m.prog.len(),
        m.prog[m.tls[i].pc as int] == Token::Await,
    ensures
        ({
            let e = step_at_spec(m, i);
            &&& e.err is None
            &&& !e.exit
            &&& e.spawn is None
            &&& e.out == m.out
            &&& e.in_pos == m.in_pos
            &&& e.tls == m.tls.update(
                i,
                TimelineModel {
                    pc: if i + 1 < m.tls.len() && m.tls[i + 1].ptrs.len() > 0 {
                        m.tls[i].pc
                    } else {
                        (m.tls[i].pc + 1) as usize
                    },
                    ..m.tls[i]
                },
            )
        }),
{
}

/// Law (branch conditions): `JumpZero` takes its branch iff every active
/// cursor's cell is zero -- a conjunction over the whole active set --
/// and `JumpNonzero` takes its branch iff at least one active cursor's cell
/// is nonzero; the two conditions are each other's negation. Taking a
/// branch sets the counter one past the stored target (the matching
/// bracket); falling through advances it by one.
pub proof fn lemma_jump_conditions(m: MvModel, i: int, n: usize)
    requires
        m.wf(),
        0 <= i < m.tls.len(),
        m.tls[i].pc < m.prog.len(),
    ensures
        m.prog[m.tls[i].pc as int] == Token::JumpZero(n) ==> step_at_spec(m, i).tls == m.tls.update(
            i,
            TimelineModel {
                pc: if all_zero(m.tls[i].tape, m.tls[i].ptrs) {
                    (n + 1) as usize
                } else {
                    (m.tls[i].pc + 1) as usize
                },
                ..m.tls[i]
            },
        ),
        m.prog[m.tls[i].pc as int] == Token::JumpNonzero(n) ==> step_at_spec(m, i).tls
            == m.tls.update(
            i,
            TimelineModel {
                pc: if any_nonzero(m.tls[i].tape, m.tls[i].ptrs) {
                    (n + 1) as usize
                } else {
                    (m.tls[i].pc + 1) as usize
                },
                ..m.tls[i]
            },
        ),
        any_nonzero(m.tls[i].tape, m.tls[i].ptrs) <==> !all_zero(m.tls[i].tape, m.tls[i].ptrs),
{
    crate::timeline::lemma_nonzero_complement(m.tls[i].tape, m.tls[i].ptrs);
}

} // verus!
