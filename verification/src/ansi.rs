//! Stripping ANSI escape sequences from a terminal byte stream.
//!
//! The command runner mirrors the shell's byte stream to two files: one
//! verbatim (colors kept) and one with escape sequences removed.  The
//! removal is a byte-level state machine that drops CSI, OSC and single-shift
//! sequences and passes every other byte through unchanged.  Because the
//! stream arrives in chunks, the stripper carries its state from one chunk to
//! the next.

use vstd::prelude::*;

verus! {

/// Where the state machine stands in the byte stream.
#[derive(PartialEq, Eq, Structural, Clone, Copy, Debug)]
pub enum AnsiState {
    /// Ordinary text.
    Ground,
    /// An ESC byte was read; the introducer that follows decides the kind.
    Escape,
    /// Inside a control sequence (ESC `[`), until a final byte.
    Csi,
    /// Inside an operating-system command (ESC `]`), until BEL or ST.
    Osc,
    /// An ESC inside an OSC: a `\` now would terminate it.
    OscEscape,
    /// A single shift (ESC `N` or ESC `O`): exactly one byte is consumed.
    SingleShift,
}

/// One step of the stripping machine: the next state, and the byte passed
/// through, if any.  Printable bytes and non-escape control bytes in ground
/// state are emitted; everything belonging to an escape sequence is dropped.
pub open spec fn ansi_step(st: AnsiState, b: u8) -> (AnsiState, Option<u8>) {
    match st {
        AnsiState::Ground => if b == 0x1b {
            (AnsiState::Escape, None)
        } else {
            (AnsiState::Ground, Some(b))
        },
        AnsiState::Escape => if b == 0x5b {
            (AnsiState::Csi, None)
        } else if b == 0x5d {
            (AnsiState::Osc, None)
        } else if b == 0x4e || b == 0x4f {
            (AnsiState::SingleShift, None)
        } else {
            (AnsiState::Ground, None)
        },
        AnsiState::Csi => if 0x40 <= b && b <= 0x7e {
            (AnsiState::Ground, None)
        } else {
            (AnsiState::Csi, None)
        },
        AnsiState::Osc => if b == 0x07 {
            (AnsiState::Ground, None)
        } else if b == 0x1b {
            (AnsiState::OscEscape, None)
        } else {
            (AnsiState::Osc, None)
        },
        AnsiState::OscEscape => if b == 0x5c {
            (AnsiState::Ground, None)
        } else {
            (AnsiState::Osc, None)
        },
        AnsiState::SingleShift => (AnsiState::Ground, None),
    }
}

/// The machine's state after reading `bytes` from state `st`.
pub open spec fn strip_state(st: AnsiState, bytes: Seq<u8>) -> AnsiState
    decreases bytes.len(),
{
    if bytes.len() == 0 {
        st
    } else {
        ansi_step(strip_state(st, bytes.drop_last()), bytes.last()).0
    }
}

/// The bytes the machine passes through while reading `bytes` from state
/// `st`.
pub open spec fn strip_output(st: AnsiState, bytes: Seq<u8>) -> Seq<u8>
    decreases bytes.len(),
{
    if bytes.len() == 0 {
        Seq::empty()
    } else {
        let prev = strip_output(st, bytes.drop_last());
        match ansi_step(strip_state(st, bytes.drop_last()), bytes.last()).1 {
            Some(b) => prev.push(b),
            None => prev,
        }
    }
}

/// Strips ANSI escape sequences from a stream that arrives in chunks,
/// carrying the sequence state across chunk boundaries.
pub struct AnsiStripper {
    state: AnsiState,
}

impl View for AnsiStripper {
    type V = AnsiState;

    closed spec fn view(&self) -> AnsiState {
        self.state
    }
}

impl AnsiStripper {
    /// A stripper at the start of a stream.
    pub fn new() -> (r: AnsiStripper)
        ensures
            r@ == AnsiState::Ground,
    {
        AnsiStripper { state: AnsiState::Ground }
    }

    /// Feeds one chunk through the machine; returns the bytes that pass, and
    /// leaves the stripper in the state the chunk's end reaches.
    pub fn feed(&mut self, chunk: &[u8]) -> (out: Vec<u8>)
        ensures
            final(self)@ == strip_state(old(self)@, chunk@),
            out@ == strip_output(old(self)@, chunk@),
    {
        let ghost st0 = self.state;
        let mut out: Vec<u8> = Vec::new();
        let mut i: usize = 0;
        while i < chunk.len()
            invariant
                i <= chunk.len(),
                self.state == strip_state(st0, chunk@.take(i as int)),
                out@ == strip_output(st0, chunk@.take(i as int)),
            decreases chunk.len() - i,
        {
            let b = chunk[i];
            let (next, emit) = Self::step(self.state, b);
            self.state = next;
            match emit {
                Some(e) => out.push(e),
                None => {},
            }
            proof {
                assert(chunk@.take(i + 1 as int).drop_last() =~= chunk@.take(i as int));
                assert(chunk@.take(i + 1 as int).last() == chunk@[i as int]);
            }
            i += 1;
        }
        proof {
            assert(chunk@.take(chunk@.len() as int) =~= chunk@);
        }
        out
    }

    /// The executable form of one machine step.
    fn step(st: AnsiState, b: u8) -> (r: (AnsiState, Option<u8>))
        ensures
            r == ansi_step(st, b),
    {
        match st {
            AnsiState::Ground => if b == 0x1b {
                (AnsiState::Escape, None)
            } else {
                (AnsiState::Ground, Some(b))
            },
            AnsiState::Escape => if b == 0x5b {
                (AnsiState::Csi, None)
            } else if b == 0x5d {
                (AnsiState::Osc, None)
            } else if b == 0x4e || b == 0x4f {
                (AnsiState::SingleShift, None)
            } else {
                (AnsiState::Ground, None)
            },
            AnsiState::Csi => if 0x40 <= b && b <= 0x7e {
                (AnsiState::Ground, None)
            } else {
                (AnsiState::Csi, None)
            },
            AnsiState::Osc => if b == 0x07 {
                (AnsiState::Ground, None)
            } else if b == 0x1b {
                (AnsiState::OscEscape, None)
            } else {
                (AnsiState::Osc, None)
            },
            AnsiState::OscEscape => if b == 0x5c {
                (AnsiState::Ground, None)
            } else {
                (AnsiState::Osc, None)
            },
            AnsiState::SingleShift => (AnsiState::Ground, None),
        }
    }
}

/// Strips a whole byte stream in one call, starting from ground state.
pub fn strip_ansi(bytes: &[u8]) -> (out: Vec<u8>)
    ensures
        out@ == strip_output(AnsiState::Ground, bytes@),
{
    let mut s = AnsiStripper::new();
    s.feed(bytes)
}

/// A byte stream with no escape introducer passes through a ground-state
/// machine unchanged, whatever its other bytes are.
pub proof fn lemma_plain_stream_unchanged(bytes: Seq<u8>)
    requires
        forall|i: int| 0 <= i < bytes.len() ==> bytes[i] != 0x1b,
    ensures
        strip_output(AnsiState::Ground, bytes) == bytes,
        strip_state(AnsiState::Ground, bytes) == AnsiState::Ground,
    decreases bytes.len(),
{
    if bytes.len() > 0 {
        lemma_plain_stream_unchanged(bytes.drop_last());
        assert(strip_output(AnsiState::Ground, bytes) =~= bytes);
    } else {
        assert(strip_output(AnsiState::Ground, bytes) =~= bytes);
    }
}

/// Feeding a stream in two chunks gives the same output as feeding it whole:
/// the carried state makes chunk boundaries invisible.
pub proof fn lemma_feed_splits(st: AnsiState, a: Seq<u8>, b: Seq<u8>)
    ensures
        strip_state(st, a + b) == strip_state(strip_state(st, a), b),
        strip_output(st, a + b) == strip_output(st, a) + strip_output(strip_state(st, a), b),
    decreases b.len(),
{
    if b.len() == 0 {
        assert(a + b =~= a);
        assert(strip_output(st, a + b) =~= strip_output(st, a) + strip_output(
            strip_state(st, a),
            b,
        ));
    } else {
        lemma_feed_splits(st, a, b.drop_last());
        assert((a + b).drop_last() =~= a + b.drop_last());
        assert(strip_output(st, a + b) =~= strip_output(st, a) + strip_output(
            strip_state(st, a),
            b,
        ));
    }
}

} // verus!
