use vstd::prelude::*;

verus! {

/// What a `Read` instruction stores when the input is exhausted.
#[derive(Clone, Copy, PartialEq, Eq, Structural, Debug)]
pub enum EofPolicy {
    /// The cell becomes the maximum representable value.
    MaxValue,
    /// The cell becomes zero.
    Zero,
    /// The cell keeps its current value.
    Unchanged,
}

/// Engine configuration: tape geometry and the overflow, pointer-bound and
/// end-of-input policies. One value of this type is passed in at
/// construction; no policy is a compile-time toggle.
#[derive(Clone, Copy, PartialEq, Eq, Structural, Debug)]
pub struct Config {
    /// Number of cells on each timeline's tape.
    pub cell_count: usize,
    /// Largest value a cell can hold (e.g. 255 for eight-bit cells).
    pub cell_max: u64,
    /// `true`: increment and decrement wrap modulo the cell width;
    /// `false`: they saturate at the bounds.
    pub wrap_cells: bool,
    /// `true`: cursors wrap at the tape edges; `false`: moving a cursor off
    /// the tape is a fatal runtime error.
    pub wrap_pointer: bool,
    /// What a `Read` stores once the input is exhausted.
    pub eof: EofPolicy,
}

impl Config {
    /// A configuration is usable when the tape is nonempty and a cell can
    /// hold at least one input byte.
    pub open spec fn wf(self) -> bool {
        &&& 1 <= self.cell_count
        &&& 255 <= self.cell_max
    }

    /// The default build: 30 000 eight-bit wrapping cells, fatal pointer
    /// bounds, and end-of-input writing the maximum cell value.
    pub fn standard() -> (c: Config)
        ensures
            c.wf(),
            c == (Config {
                cell_count: 30000,
                cell_max: 255,
                wrap_cells: true,
                wrap_pointer: false,
                eof: EofPolicy::MaxValue,
            }),
    {
        Config {
            cell_count: 30000,
            cell_max: 255,
            wrap_cells: true,
            wrap_pointer: false,
            eof: EofPolicy::MaxValue,
        }
    }
}

} // verus!
