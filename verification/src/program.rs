use vstd::prelude::*;
use vstd::pervasive::VecAdditionalExecFns;
use crate::error::LoadError;

verus! {

/// The recognized instruction characters, as byte values.
pub const CH_PLUS: u8 = 43;
pub const CH_MINUS: u8 = 45;
pub const CH_GREATER: u8 = 62;
pub const CH_LESS: u8 = 60;
pub const CH_COMMA: u8 = 44;
pub const CH_DOT: u8 = 46;
pub const CH_OPEN_BRACKET: u8 = 91;
pub const CH_CLOSE_BRACKET: u8 = 93;
pub const CH_TILDE: u8 = 126;
pub const CH_CARET: u8 = 94;
pub const CH_LOWER_V: u8 = 118;
pub const CH_AT: u8 = 64;
pub const CH_OPEN_PAREN: u8 = 40;
pub const CH_CLOSE_PAREN: u8 = 41;

/// One resolved instruction. Jump and fork targets are absolute positions in
/// the instruction sequence, resolved at load time by matching `[`/`]` and
/// `(`/`)` pairs.
#[derive(Clone, Copy, PartialEq, Eq, Structural, Debug)]
pub enum Token {
    /// `+`: add one at every active cursor.
    Inc,
    /// `-`: subtract one at every active cursor.
    Dec,
    /// `>`: shift every cursor one position right.
    Right,
    /// `<`: shift every cursor one position left.
    Left,
    /// `,`: consume one input byte per cursor, in cursor order.
    Read,
    /// `.`: emit the low byte of every cursor's cell, in cursor order.
    Write,
    /// `[`: branch to the position of the matching `]` iff every active
    /// cursor's cell is zero.
    JumpZero(usize),
    /// `]`: branch to the position of the matching `[` iff at least one
    /// active cursor's cell is nonzero.
    JumpNonzero(usize),
    /// `~`: pop the most recent snapshot and restore it.
    Back,
    /// `^`: transfer the cursor set to the neighbor above.
    Up,
    /// `v`: transfer the cursor set to the neighbor below.
    Down,
    /// `@`: repeat while the neighbor below holds a nonempty cursor set.
    Await,
    /// `(`: spawn a child timeline; the stored target is the position just
    /// past the matching `)`.
    Spawn(usize),
    /// `)`: mark this timeline dead.
    Kill,
}

/// State of the one-pass assembler after some prefix of the source bytes:
/// the instructions emitted so far and the two stacks of still-open pairs.
/// Each stack entry is (position of the placeholder instruction, source
/// position of the opening character).
pub struct ParseState {
    pub prog: Seq<Token>,
    pub loops: Seq<(usize, usize)>,
    pub parens: Seq<(usize, usize)>,
}

/// The effect of one source byte on the assembler state. Unrecognized bytes
/// are skipped silently.
pub open spec fn parse_step(st: ParseState, b: u8, i: usize) -> Result<ParseState, LoadError> {
    if b == CH_PLUS {
        Ok(ParseState { prog: st.prog.push(Token::Inc), ..st })
    } else if b == CH_MINUS {
        Ok(ParseState { prog: st.prog.push(Token::Dec), ..st })
    } else if b == CH_GREATER {
        Ok(ParseState { prog: st.prog.push(Token::Right), ..st })
    } else if b == CH_LESS {
        Ok(ParseState { prog: st.prog.push(Token::Left), ..st })
    } else if b == CH_COMMA {
        Ok(ParseState { prog: st.prog.push(Token::Read), ..st })
    } else if b == CH_DOT {
        Ok(ParseState { prog: st.prog.push(Token::Write), ..st })
    } else if b == CH_OPEN_BRACKET {
        Ok(ParseState {
            prog: st.prog.push(Token::JumpZero(0)),
            loops: st.loops.push(((st.prog.len() as usize), i)),
            ..st
        })
    } else if b == CH_CLOSE_BRACKET {
        if st.loops.len() == 0 {
            Err(LoadError::UnmatchedCloseBracket(i))
        } else {
            let p = st.loops.last().0;
            Ok(ParseState {
                prog: st.prog.update(p as int, Token::JumpZero(st.prog.len() as usize)).push(
                    Token::JumpNonzero(p),
                ),
                loops: st.loops.drop_last(),
                ..st
            })
        }
    } else if b == CH_TILDE {
        Ok(ParseState { prog: st.prog.push(Token::Back), ..st })
    } else if b == CH_CARET {
        Ok(ParseState { prog: st.prog.push(Token::Up), ..st })
    } else if b == CH_LOWER_V {
        Ok(ParseState { prog: st.prog.push(Token::Down), ..st })
    } else if b == CH_AT {
        Ok(ParseState { prog: st.prog.push(Token::Await), ..st })
    } else if b == CH_OPEN_PAREN {
        Ok(ParseState {
            prog: st.prog.push(Token::Spawn(0)),
            parens: st.parens.push(((st.prog.len() as usize), i)),
            ..st
        })
    } else if b == CH_CLOSE_PAREN {
        if st.parens.len() == 0 {
            Err(LoadError::UnmatchedCloseParen(i))
        } else {
            let p = st.parens.last().0;
            Ok(ParseState {
                prog: st.prog.update(p as int, Token::Spawn(st.prog.len() as usize)).push(
                    Token::Kill,
                ),
                parens: st.parens.drop_last(),
                ..st
            })
        }
    } else {
        Ok(st)
    }
}

pub open spec fn parse_init() -> ParseState {
    ParseState { prog: Seq::empty(), loops: Seq::empty(), parens: Seq::empty() }
}

/// Assembler state after the first `k` source bytes, or the first structural
/// fault met along the way.
pub open spec fn parse_upto(bytes: Seq<u8>, k: int) -> Result<ParseState, LoadError>
    decreases k,
{
    if k <= 0 {
        Ok(parse_init())
    } else {
        match parse_upto(bytes, k - 1) {
            Ok(st) => parse_step(st, bytes[k - 1], (k - 1) as usize),
            Err(e) => Err(e),
        }
    }
}

/// The whole assembly: scan every byte, then fail on the first pair still
/// open, reporting its source position.
pub open spec fn parse_result(bytes: Seq<u8>) -> Result<Seq<Token>, LoadError> {
    match parse_upto(bytes, bytes.len() as int) {
        Ok(st) => {
            if st.loops.len() > 0 {
                Err(LoadError::UnmatchedOpenBracket(st.loops[0].1))
            } else if st.parens.len() > 0 {
                Err(LoadError::UnmatchedOpenParen(st.parens[0].1))
            } else {
                Ok(st.prog)
            }
        },
        Err(e) => Err(e),
    }
}

/// The instruction sequence of a source text that assembles successfully.
pub open spec fn assembled(bytes: Seq<u8>) -> Seq<Token> {
    match parse_result(bytes) {
        Ok(p) => p,
        Err(_) => Seq::empty(),
    }
}

/// A `JumpZero` points at its matching `JumpNonzero`.
pub open spec fn zero_matched(prog: Seq<Token>, j: int) -> bool {
    prog[j] matches Token::JumpZero(n) ==> j < n < prog.len() && prog[n as int]
        == Token::JumpNonzero(j as usize)
}

/// A `JumpNonzero` points back at its matching `JumpZero`.
pub open spec fn nonzero_matched(prog: Seq<Token>, j: int) -> bool {
    prog[j] matches Token::JumpNonzero(m) ==> m < j && prog[m as int] == Token::JumpZero(
        j as usize,
    )
}

/// A `Spawn` points at its matching `Kill`.
pub open spec fn spawn_matched(prog: Seq<Token>, j: int) -> bool {
    prog[j] matches Token::Spawn(n) ==> j < n < prog.len() && prog[n as int] == Token::Kill
}

/// Every jump pair points at each other and every fork points at its
/// matching `Kill`.
pub open spec fn well_matched(prog: Seq<Token>) -> bool {
    forall|j: int|
        #![trigger prog[j]]
        0 <= j < prog.len() ==> zero_matched(prog, j) && nonzero_matched(prog, j) && spawn_matched(
            prog,
            j,
        )
}

/// Every stored jump or fork target lies inside the program.
pub open spec fn target_ok(t: Token, len: int) -> bool {
    match t {
        Token::JumpZero(n) => n < len,
        Token::JumpNonzero(n) => n < len,
        Token::Spawn(n) => n < len,
        _ => true,
    }
}

pub open spec fn prog_wf(prog: Seq<Token>) -> bool {
    forall|j: int| #![trigger prog[j]] 0 <= j < prog.len() ==> target_ok(prog[j], prog.len() as int)
}

/// Position `j` is held by some entry of the given stack.
pub open spec fn on_stack(stk: Seq<(usize, usize)>, j: int) -> bool {
    exists|k: int| 0 <= k < stk.len() && (#[trigger] stk[k]).0 == j
}

/// Every stack entry points at a placeholder of the expected shape, and the
/// entries' positions strictly increase from bottom to top.
pub open spec fn stack_ok(prog: Seq<Token>, stk: Seq<(usize, usize)>, ph: Token) -> bool {
    &&& forall|k: int|
        0 <= k < stk.len() ==> (#[trigger] stk[k]).0 < prog.len() && prog[stk[k].0 as int] == ph
    &&& forall|k1: int, k2: int|
        0 <= k1 < k2 < stk.len() ==> (#[trigger] stk[k1]).0 < (#[trigger] stk[k2]).0
}

/// Invariant of the assembler: open pairs sit on the stacks as placeholders,
/// and everything off the stacks is already mutually matched.
pub open spec fn parse_inv(st: ParseState) -> bool {
    &&& stack_ok(st.prog, st.loops, Token::JumpZero(0))
    &&& stack_ok(st.prog, st.parens, Token::Spawn(0))
    &&& forall|j: int|
        #![trigger st.prog[j]]
        0 <= j < st.prog.len() ==> {
            &&& (on_stack(st.loops, j) || zero_matched(st.prog, j))
            &&& nonzero_matched(st.prog, j)
            &&& (on_stack(st.parens, j) || spawn_matched(st.prog, j))
        }
}

proof fn lemma_step_inv(st: ParseState, b: u8, i: usize)
    requires
        parse_inv(st),
        st.prog.len() < usize::MAX as int,
        parse_step(st, b, i) is Ok,
    ensures
        parse_inv(match parse_step(st, b, i) {
            Ok(st2) => st2,
            Err(_) => st,
        }),
        (match parse_step(st, b, i) {
            Ok(st2) => st2,
            Err(_) => st,
        }).prog.len() <= st.prog.len() + 1,
{
    let st2 = match parse_step(st, b, i) {
        Ok(s) => s,
        Err(_) => st,
    };
    let len = st.prog.len() as int;
    if b == CH_CLOSE_BRACKET {
        let p = st.loops.last().0 as int;
        let prog2 = st2.prog;
        assert(st.loops.len() > 0);
        assert(st.prog[p] == Token::JumpZero(0));
        assert forall|k: int| 0 <= k < st2.loops.len() implies (#[trigger] st2.loops[k]).0
            < prog2.len() && prog2[st2.loops[k].0 as int] == Token::JumpZero(0) by {
            assert(st2.loops[k] == st.loops[k]);
            assert(st.loops[k].0 < st.loops[st.loops.len() - 1].0);
        }
        assert forall|k: int| 0 <= k < st2.parens.len() implies (#[trigger] st2.parens[k]).0
            < prog2.len() && prog2[st2.parens[k].0 as int] == Token::Spawn(0) by {
            assert(st.prog[st.parens[k].0 as int] == Token::Spawn(0));
        }
        assert forall|j: int| 0 <= j < prog2.len() implies {
            &&& (on_stack(st2.loops, j) || zero_matched(prog2, j))
            &&& nonzero_matched(prog2, j)
            &&& (on_stack(st2.parens, j) || spawn_matched(prog2, j))
        } by {
            if j == len {
                // the new JumpNonzero at the end
                assert(prog2[j] == Token::JumpNonzero(p as usize));
                assert(prog2[p] == Token::JumpZero(len as usize));
            } else if j == p {
                // the newly resolved JumpZero
                assert(prog2[j] == Token::JumpZero(len as usize));
                assert(prog2[len] == Token::JumpNonzero(p as usize));
            } else {
                assert(prog2[j] == st.prog[j]);
                if on_stack(st.loops, j) {
                    let k = choose|k: int|
                        0 <= k < st.loops.len() && (#[trigger] st.loops[k]).0 == j;
                    assert(k < st.loops.len() - 1);
                    assert(st2.loops[k].0 == j);
                    assert(on_stack(st2.loops, j));
                } else {
                    if st.prog[j] is JumpZero {
                        let n = st.prog[j]->JumpZero_0 as int;
                        assert(st.prog[n] == Token::JumpNonzero(j as usize));
                        assert(n != p);
                        assert(prog2[n] == st.prog[n]);
                    }
                }
                if st.prog[j] is JumpNonzero {
                    let m = st.prog[j]->JumpNonzero_0 as int;
                    assert(st.prog[m] == Token::JumpZero(j as usize));
                    assert(m != p) by {
                        if m == p {
                            assert(st.prog[p] == Token::JumpZero(0));
                        }
                    }
                    assert(prog2[m] == st.prog[m]);
                }
                if on_stack(st.parens, j) {
                    assert(on_stack(st2.parens, j));
                } else {
                    if st.prog[j] is Spawn {
                        let n = st.prog[j]->Spawn_0 as int;
                        assert(st.prog[n] == Token::Kill);
                        assert(n != p);
                        assert(prog2[n] == st.prog[n]);
                    }
                }
            }
        }
    } else if b == CH_CLOSE_PAREN {
        let p = st.parens.last().0 as int;
        let prog2 = st2.prog;
        assert(st.parens.len() > 0);
        assert(st.prog[p] == Token::Spawn(0));
        assert forall|k: int| 0 <= k < st2.parens.len() implies (#[trigger] st2.parens[k]).0
            < prog2.len() && prog2[st2.parens[k].0 as int] == Token::Spawn(0) by {
            assert(st2.parens[k] == st.parens[k]);
            assert(st.parens[k].0 < st.parens[st.parens.len() - 1].0);
        }
        assert forall|k: int| 0 <= k < st2.loops.len() implies (#[trigger] st2.loops[k]).0
            < prog2.len() && prog2[st2.loops[k].0 as int] == Token::JumpZero(0) by {
            assert(st.prog[st.loops[k].0 as int] == Token::JumpZero(0));
        }
        assert forall|j: int| 0 <= j < prog2.len() implies {
            &&& (on_stack(st2.loops, j) || zero_matched(prog2, j))
            &&& nonzero_matched(prog2, j)
            &&& (on_stack(st2.parens, j) || spawn_matched(prog2, j))
        } by {
            if j == len {
                assert(prog2[j] == Token::Kill);
            } else if j == p {
                assert(prog2[j] == Token::Spawn(len as usize));
                assert(prog2[len] == Token::Kill);
            } else {
                assert(prog2[j] == st.prog[j]);
                if on_stack(st.parens, j) {
                    let k = choose|k: int|
                        0 <= k < st.parens.len() && (#[trigger] st.parens[k]).0 == j;
                    assert(k < st.parens.len() - 1);
                    assert(st2.parens[k].0 == j);
                    assert(on_stack(st2.parens, j));
                } else {
                    if st.prog[j] is Spawn {
                        let n = st.prog[j]->Spawn_0 as int;
                        assert(st.prog[n] == Token::Kill);
                        assert(n != p);
                        assert(prog2[n] == st.prog[n]);
                    }
                }
                if on_stack(st.loops, j) {
                    assert(on_stack(st2.loops, j));
                } else {
                    if st.prog[j] is JumpZero {
                        let n = st.prog[j]->JumpZero_0 as int;
                        assert(st.prog[n] == Token::JumpNonzero(j as usize));
                        assert(n != p);
                        assert(prog2[n] == st.prog[n]);
                    }
                }
                if st.prog[j] is JumpNonzero {
                    let m = st.prog[j]->JumpNonzero_0 as int;
                    assert(st.prog[m] == Token::JumpZero(j as usize));
                    assert(m != p) by {
                        if m == p {
                            assert(st.prog[p] == Token::Spawn(0));
                        }
                    }
                    assert(prog2[m] == st.prog[m]);
                }
            }
        }
    } else if b == CH_OPEN_BRACKET || b == CH_OPEN_PAREN {
        let prog2 = st2.prog;
        assert forall|j: int| 0 <= j < prog2.len() implies {
            &&& (on_stack(st2.loops, j) || zero_matched(prog2, j))
            &&& nonzero_matched(prog2, j)
            &&& (on_stack(st2.parens, j) || spawn_matched(prog2, j))
        } by {
            if j == len {
                if b == CH_OPEN_BRACKET {
                    assert(st2.loops[st2.loops.len() - 1].0 == j);
                    assert(on_stack(st2.loops, j));
                } else {
                    assert(st2.parens[st2.parens.len() - 1].0 == j);
                    assert(on_stack(st2.parens, j));
                }
            } else {
                assert(prog2[j] == st.prog[j]);
                lemma_unchanged_matches(st, st2, j);
            }
        }
    } else {
        // a plain instruction or an ignored byte
        if st2.prog.len() > st.prog.len() {
            let prog2 = st2.prog;
            assert forall|j: int| 0 <= j < prog2.len() implies {
                &&& (on_stack(st2.loops, j) || zero_matched(prog2, j))
                &&& nonzero_matched(prog2, j)
                &&& (on_stack(st2.parens, j) || spawn_matched(prog2, j))
            } by {
                if j < len {
                    assert(prog2[j] == st.prog[j]);
                    lemma_unchanged_matches(st, st2, j);
                }
            }
        }
    }
}

/// For a position whose token is unchanged and whose stacks only grew at the
/// top, matchedness carries over to an extended program.
proof fn lemma_unchanged_matches(st: ParseState, st2: ParseState, j: int)
    requires
        parse_inv(st),
        0 <= j < st.prog.len(),
        st.prog.len() <= st2.prog.len(),
        forall|x: int| 0 <= x < st.prog.len() ==> st2.prog[x] == #[trigger] st.prog[x],
        st.loops.is_prefix_of(st2.loops) || st2.loops == st.loops,
        st.parens.is_prefix_of(st2.parens) || st2.parens == st.parens,
    ensures
        on_stack(st2.loops, j) || zero_matched(st2.prog, j),
        nonzero_matched(st2.prog, j),
        on_stack(st2.parens, j) || spawn_matched(st2.prog, j),
{
    assert(st2.prog[j] == st.prog[j]);
    if on_stack(st.loops, j) {
        let k = choose|k: int| 0 <= k < st.loops.len() && (#[trigger] st.loops[k]).0 == j;
        assert(st2.loops[k].0 == j);
        assert(on_stack(st2.loops, j));
    } else if st.prog[j] is JumpZero {
        let n = st.prog[j]->JumpZero_0 as int;
        assert(st.prog[n] == Token::JumpNonzero(j as usize));
        assert(st2.prog[n] == st.prog[n]);
    }
    if st.prog[j] is JumpNonzero {
        let m = st.prog[j]->JumpNonzero_0 as int;
        assert(st.prog[m] == Token::JumpZero(j as usize));
        assert(st2.prog[m] == st.prog[m]);
    }
    if on_stack(st.parens, j) {
        let k = choose|k: int| 0 <= k < st.parens.len() && (#[trigger] st.parens[k]).0 == j;
        assert(st2.parens[k].0 == j);
        assert(on_stack(st2.parens, j));
    } else if st.prog[j] is Spawn {
        let n = st.prog[j]->Spawn_0 as int;
        assert(st.prog[n] == Token::Kill);
        assert(st2.prog[n] == st.prog[n]);
    }
}

/// The assembler invariant holds after any successfully scanned prefix.
pub proof fn lemma_upto_inv(bytes: Seq<u8>, k: int)
    requires
        parse_upto(bytes, k) is Ok,
        k <= usize::MAX as int,
    ensures
        parse_inv(match parse_upto(bytes, k) {
            Ok(st) => st,
            Err(_) => parse_init(),
        }),
        k >= 0 ==> (match parse_upto(bytes, k) {
            Ok(st) => st,
            Err(_) => parse_init(),
        }).prog.len() <= k,
    decreases k,
{
    if k <= 0 {
    } else {
        lemma_upto_inv(bytes, k - 1);
        let st = match parse_upto(bytes, k - 1) {
            Ok(st) => st,
            Err(_) => parse_init(),
        };
        lemma_step_inv(st, bytes[k - 1], (k - 1) as usize);
    }
}

/// Once a prefix fails to assemble, every longer prefix fails the same way.
pub proof fn lemma_upto_err(bytes: Seq<u8>, k1: int, k2: int)
    requires
        k1 <= k2,
        parse_upto(bytes, k1) is Err,
    ensures
        parse_upto(bytes, k2) == parse_upto(bytes, k1),
    decreases k2 - k1,
{
    if k1 < k2 {
        lemma_upto_err(bytes, k1, k2 - 1);
    }
}

/// Law (bracket-matching round trip): in every source text that assembles,
/// the resolved target of each `JumpZero` equals the position of its
/// matching `JumpNonzero` and vice versa, the resolved target of each
/// `Spawn` equals the position of its matching `Kill`, and in consequence
/// every stored target lies inside the program.
pub proof fn lemma_assembled_matching(bytes: Seq<u8>)
    requires
        parse_result(bytes) is Ok,
        bytes.len() <= usize::MAX as int,
    ensures
        well_matched(assembled(bytes)),
        prog_wf(assembled(bytes)),
{
    lemma_upto_inv(bytes, bytes.len() as int);
    let st = match parse_upto(bytes, bytes.len() as int) {
        Ok(st) => st,
        Err(_) => parse_init(),
    };
    let prog = assembled(bytes);
    assert(prog == st.prog);
    assert forall|j: int| 0 <= j < prog.len() implies #[trigger] zero_matched(prog, j)
        && nonzero_matched(prog, j) && spawn_matched(prog, j) by {
        assert(!on_stack(st.loops, j));
        assert(!on_stack(st.parens, j));
        assert(st.prog[j] == prog[j]);
    }
    assert forall|j: int| 0 <= j < prog.len() implies target_ok(#[trigger] prog[j], prog.len() as int) by {
        assert(zero_matched(prog, j) && nonzero_matched(prog, j) && spawn_matched(prog, j));
    }
}

/// Assemble source bytes into a resolved instruction sequence, or report the
/// first structural fault. Every other byte is skipped silently.
pub fn parse(bytes: &[u8]) -> (r: Result<Vec<Token>, LoadError>)
    ensures
        match r {
            Ok(prog) => parse_result(bytes@) == Ok::<Seq<Token>, LoadError>(prog@) && well_matched(
                prog@,
            ) && prog_wf(prog@),
            Err(e) => parse_result(bytes@) == Err::<Seq<Token>, LoadError>(e),
        },
{
    let mut program: Vec<Token> = Vec::new();
    let mut loop_stack: Vec<(usize, usize)> = Vec::new();
    let mut paren_stack: Vec<(usize, usize)> = Vec::new();
    let n = bytes.len();
    let mut i: usize = 0;
    while i < n
        invariant
            n == bytes@.len(),
            i <= n,
            parse_upto(bytes@, i as int) == Ok::<ParseState, LoadError>(ParseState {
                prog: program@,
                loops: loop_stack@,
                parens: paren_stack@,
            }),
        decreases n - i,
    {
        let ghost st = ParseState { prog: program@, loops: loop_stack@, parens: paren_stack@ };
        proof {
            lemma_upto_inv(bytes@, i as int);
        }
        let b = bytes[i];
        match b {
            CH_PLUS => program.push(Token::Inc),
            CH_MINUS => program.push(Token::Dec),
            CH_GREATER => program.push(Token::Right),
            CH_LESS => program.push(Token::Left),
            CH_COMMA => program.push(Token::Read),
            CH_DOT => program.push(Token::Write),
            CH_OPEN_BRACKET => {
                loop_stack.push((program.len(), i));
                program.push(Token::JumpZero(0));
            },
            CH_CLOSE_BRACKET => {
                match loop_stack.pop() {
                    Some(entry) => {
                        let p = entry.0;
                        assert(p < program.len());
                        let here = program.len();
                        program.set(p, Token::JumpZero(here));
                        program.push(Token::JumpNonzero(p));
                    },
                    None => {
                        proof {
                            assert(parse_upto(bytes@, i as int + 1) == Err::<
                                ParseState,
                                LoadError,
                            >(LoadError::UnmatchedCloseBracket(i)));
                            lemma_upto_err(bytes@, i as int + 1, n as int);
                        }
                        return Err(LoadError::UnmatchedCloseBracket(i));
                    },
                }
            },
            CH_TILDE => program.push(Token::Back),
            CH_CARET => program.push(Token::Up),
            CH_LOWER_V => program.push(Token::Down),
            CH_AT => program.push(Token::Await),
            CH_OPEN_PAREN => {
                paren_stack.push((program.len(), i));
                program.push(Token::Spawn(0));
            },
            CH_CLOSE_PAREN => {
                match paren_stack.pop() {
                    Some(entry) => {
                        let p = entry.0;
                        assert(p < program.len());
                        let here = program.len();
                        program.set(p, Token::Spawn(here));
                        program.push(Token::Kill);
                    },
                    None => {
                        proof {
                            assert(parse_upto(bytes@, i as int + 1) == Err::<
                                ParseState,
                                LoadError,
                            >(LoadError::UnmatchedCloseParen(i)));
                            lemma_upto_err(bytes@, i as int + 1, n as int);
                        }
                        return Err(LoadError::UnmatchedCloseParen(i));
                    },
                }
            },
            _ => {},
        }
        proof {
            assert(parse_upto(bytes@, i as int + 1) == parse_step(st, bytes@[i as int], i));
        }
        i = i + 1;
    }
    if loop_stack.len() > 0 {
        let first = loop_stack[0];
        return Err(LoadError::UnmatchedOpenBracket(first.1));
    }
    if paren_stack.len() > 0 {
        let first = paren_stack[0];
        return Err(LoadError::UnmatchedOpenParen(first.1));
    }
    proof {
        lemma_assembled_matching(bytes@);
    }
    Ok(program)
}

/// Whether every stored jump or fork target lies inside the program. The
/// engine requires this of the programs it runs; the assembler's output
/// always satisfies it.
pub fn check_targets(program: &Vec<Token>) -> (b: bool)
    ensures
        b == prog_wf(program@),
{
    let n = program.len();
    let mut i: usize = 0;
    while i < n
        invariant
            n == program@.len(),
            i <= n,
            forall|j: int|
                #![trigger program@[j]]
                0 <= j < i ==> target_ok(program@[j], program@.len() as int),
        decreases n - i,
    {
        let ok = match program[i] {
            Token::JumpZero(t) => t < n,
            Token::JumpNonzero(t) => t < n,
            Token::Spawn(t) => t < n,
            _ => true,
        };
        if !ok {
            return false;
        }
        i = i + 1;
    }
    true
}

} // verus!
