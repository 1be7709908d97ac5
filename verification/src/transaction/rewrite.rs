//! Rewriting an index in place while others may append to it.
//!
//! A round measures and reads the file, merges the edits into what it read, writes the result
//! over the front, copies what was appended meanwhile behind it and cuts out what is stale in
//! between. Whenever the size moves in a way that the round did not cause, a new round starts
//! on what is there then. Where the front was written already, the stale bytes behind it are
//! still in the file; the new round does not take them for lines of the index.

use crate::transaction::index;
use crate::transaction::index::{
    plan_index_rewrite, stale_range, IndexEdit, PendingIndexEdit, RewriteStep, StaleRange,
};
use vstd::prelude::*;

verus! {

/// How many rounds are tried.
pub const REWRITE_ROUNDS: u32 = 25;

/// Bytes that an earlier round left in the file behind its front.
#[derive(Debug, Clone, Copy, PartialEq, Eq, Structural)]
pub struct Leftover {
    pub start: u64,
    pub end: u64,
}

/// What the rewrite waits for.
#[derive(Debug)]
pub enum Phase {
    /// The size before reading.
    Size,
    /// The whole file.
    Read { size: u64 },
    /// The size after reading. `cut` says that leftover bytes were taken out of what was read.
    Recheck { size: u64, base: Vec<u8>, cut: bool },
    /// The size after writing a longer file whole.
    Grown { len: u64 },
    /// The size after writing the front.
    Fronted { size: u64, front: u64 },
    /// The size up to which others may have appended.
    Tail { size: u64, front: u64 },
    /// The size before reading what was appended.
    TailCheck { size: u64, front: u64, now: u64 },
    /// What was appended.
    TailRead { size: u64, front: u64, now: u64 },
    /// The size after reading what was appended.
    TailRecheck { size: u64, front: u64, now: u64, tail: Vec<u8> },
    /// The size after the cut.
    Cut { expected: u64 },
    Finished,
    GaveUp,
}

/// The model of a [`Phase`].
pub enum Waiting {
    Size,
    Read { size: u64 },
    Recheck { size: u64, base: Seq<u8>, cut: bool },
    Grown { len: u64 },
    Fronted { size: u64, front: u64 },
    Tail { size: u64, front: u64 },
    TailCheck { size: u64, front: u64, now: u64 },
    TailRead { size: u64, front: u64, now: u64 },
    TailRecheck { size: u64, front: u64, now: u64, tail: Seq<u8> },
    Cut { expected: u64 },
    Finished,
    GaveUp,
}

impl View for Phase {
    type V = Waiting;

    open spec fn view(&self) -> Waiting {
        match *self {
            Phase::Size => Waiting::Size,
            Phase::Read { size } => Waiting::Read { size },
            Phase::Recheck { size, base, cut } => Waiting::Recheck { size, base: base@, cut },
            Phase::Grown { len } => Waiting::Grown { len },
            Phase::Fronted { size, front } => Waiting::Fronted { size, front },
            Phase::Tail { size, front } => Waiting::Tail { size, front },
            Phase::TailCheck { size, front, now } => Waiting::TailCheck { size, front, now },
            Phase::TailRead { size, front, now } => Waiting::TailRead { size, front, now },
            Phase::TailRecheck { size, front, now, tail } => Waiting::TailRecheck {
                size,
                front,
                now,
                tail: tail@,
            },
            Phase::Cut { expected } => Waiting::Cut { expected },
            Phase::Finished => Waiting::Finished,
            Phase::GaveUp => Waiting::GaveUp,
        }
    }
}

/// An answer from the file.
#[derive(Debug)]
pub enum FileAnswer {
    Size(u64),
    Content(Vec<u8>),
}

/// What is done with the file next. Each but the last two is followed by an answer.
#[derive(Debug)]
pub enum FileAction {
    /// Measure the file.
    Measure,
    /// Read the whole file.
    ReadAll,
    /// Write the content at the start, cut the file to it, and measure.
    WriteWhole { content: Vec<u8> },
    /// Write the content at the start, and measure.
    WriteFront { content: Vec<u8> },
    /// Read a range.
    ReadRange { from: u64, len: u64 },
    /// Write the tail at `at`, remove the stale range behind it, or cut the file there where
    /// ranges cannot be removed, and measure.
    MoveTail { at: u64, tail: Vec<u8>, stale: StaleRange },
    Done,
    GiveUp,
}

/// The model of a [`FileAction`].
pub enum Deed {
    Measure,
    ReadAll,
    WriteWhole { content: Seq<u8> },
    WriteFront { content: Seq<u8> },
    ReadRange { from: u64, len: u64 },
    MoveTail { at: u64, tail: Seq<u8>, stale: StaleRange },
    Done,
    GiveUp,
}

impl View for FileAction {
    type V = Deed;

    open spec fn view(&self) -> Deed {
        match *self {
            FileAction::Measure => Deed::Measure,
            FileAction::ReadAll => Deed::ReadAll,
            FileAction::WriteWhole { content } => Deed::WriteWhole { content: content@ },
            FileAction::WriteFront { content } => Deed::WriteFront { content: content@ },
            FileAction::ReadRange { from, len } => Deed::ReadRange { from, len },
            FileAction::MoveTail { at, tail, stale } => Deed::MoveTail { at, tail: tail@, stale },
            FileAction::Done => Deed::Done,
            FileAction::GiveUp => Deed::GiveUp,
        }
    }
}

/// A rewrite under way.
#[derive(Debug)]
pub struct Rewrite {
    edits: Vec<PendingIndexEdit>,
    rounds: u32,
    leftover: Option<Leftover>,
    phase: Phase,
}

/// The model of a [`Rewrite`].
pub struct Rewriting {
    pub edits: Seq<IndexEdit>,
    /// The rounds that are left, this one included.
    pub rounds: u32,
    /// What an earlier round left in the file behind its front.
    pub leftover: Option<Leftover>,
    pub phase: Waiting,
}

impl View for Rewrite {
    type V = Rewriting;

    closed spec fn view(&self) -> Rewriting {
        Rewriting {
            edits: index::edit_views(self.edits@),
            rounds: self.rounds,
            leftover: self.leftover,
            phase: self.phase@,
        }
    }
}

/// A new round, or the end where there is none left.
pub open spec fn again(v: Rewriting, leftover: Option<Leftover>) -> (Rewriting, Deed) {
    if v.rounds <= 1 {
        (Rewriting { rounds: 0, leftover, phase: Waiting::GaveUp, ..v }, Deed::GiveUp)
    } else {
        (
            Rewriting { rounds: (v.rounds - 1) as u32, leftover, phase: Waiting::Size, ..v },
            Deed::Measure,
        )
    }
}

/// What is left over once the front is written, in a file of `n` bytes: a file that has become
/// shorter was rewritten by others.
pub open spec fn left_over(size: u64, front: u64, n: u64) -> Option<Leftover> {
    if n >= size {
        Some(Leftover { start: front, end: size })
    } else {
        None
    }
}

/// The rewrite in another phase.
pub open spec fn wait_for(v: Rewriting, phase: Waiting) -> Rewriting {
    Rewriting { phase, ..v }
}

/// Whether the leftover bytes lie inside a file of `len` bytes.
pub open spec fn holds(leftover: Option<Leftover>, len: int) -> bool {
    leftover matches Some(x) && x.start <= x.end <= len
}

/// The index in a file: its bytes without those that were left over.
pub open spec fn index_in(file: Seq<u8>, leftover: Option<Leftover>) -> Seq<u8> {
    if holds(leftover, file.len() as int) {
        file.take(leftover->0.start as int) + file.skip(leftover->0.end as int)
    } else {
        file
    }
}

/// What follows a measurement.
pub open spec fn measured(v: Rewriting, n: u64) -> (Rewriting, Deed) {
    match v.phase {
        Waiting::Size => (wait_for(v, Waiting::Read { size: n }), Deed::ReadAll),
        Waiting::Recheck { size, base, cut } => {
            let content = index::index_merged(base, v.edits);
            if n != size {
                again(v, v.leftover)
            } else if content == base && !cut {
                (wait_for(v, Waiting::Finished), Deed::Done)
            } else if content.len() > size {
                (
                    Rewriting {
                        leftover: None,
                        phase: Waiting::Grown { len: content.len() as u64 },
                        ..v
                    },
                    Deed::WriteWhole { content },
                )
            } else {
                (
                    wait_for(v, Waiting::Fronted { size, front: content.len() as u64 }),
                    Deed::WriteFront { content },
                )
            }
        },
        Waiting::Grown { len } => if n == len {
            (wait_for(v, Waiting::Finished), Deed::Done)
        } else {
            again(v, None)
        },
        Waiting::Fronted { size, front } => if n == size {
            (wait_for(v, Waiting::Tail { size, front }), Deed::Measure)
        } else {
            again(v, left_over(size, front, n))
        },
        Waiting::Tail { size, front } => if n >= size {
            (wait_for(v, Waiting::TailCheck { size, front, now: n }), Deed::Measure)
        } else {
            again(v, None)
        },
        Waiting::TailCheck { size, front, now } => if n == now {
            (
                wait_for(v, Waiting::TailRead { size, front, now }),
                Deed::ReadRange { from: size, len: (now - size) as u64 },
            )
        } else {
            again(v, left_over(size, front, n))
        },
        Waiting::TailRecheck { size, front, now, tail } => if n == now {
            let expected = (front + (now - size)) as u64;
            (
                Rewriting { leftover: None, phase: Waiting::Cut { expected }, ..v },
                Deed::MoveTail {
                    at: front,
                    tail,
                    stale: StaleRange {
                        offset: (front + tail.len()) as u64,
                        len: (size - front) as u64,
                        expected,
                    },
                },
            )
        } else {
            again(v, left_over(size, front, n))
        },
        Waiting::Cut { expected } => if n == expected {
            (wait_for(v, Waiting::Finished), Deed::Done)
        } else {
            again(v, None)
        },
        Waiting::Finished => (v, Deed::Done),
        Waiting::GaveUp => (v, Deed::GiveUp),
        _ => again(v, v.leftover),
    }
}

/// What follows a read.
pub open spec fn read(v: Rewriting, content: Seq<u8>) -> (Rewriting, Deed) {
    match v.phase {
        Waiting::Read { size } => (
            wait_for(
                v,
                Waiting::Recheck {
                    size,
                    base: index_in(content, v.leftover),
                    cut: holds(v.leftover, content.len() as int),
                },
            ),
            Deed::Measure,
        ),
        Waiting::TailRead { size, front, now } => if content.len() <= now - size {
            (
                wait_for(v, Waiting::TailRecheck { size, front, now, tail: content }),
                Deed::Measure,
            )
        } else {
            again(v, left_over(size, front, now))
        },
        Waiting::Finished => (v, Deed::Done),
        Waiting::GaveUp => (v, Deed::GiveUp),
        _ => again(v, v.leftover),
    }
}

/// What follows an answer.
pub open spec fn answered(v: Rewriting, answer: FileAnswer) -> (Rewriting, Deed) {
    match answer {
        FileAnswer::Size(n) => measured(v, n),
        FileAnswer::Content(c) => read(v, c@),
    }
}

/// The front never reaches what others appended.
pub open spec fn in_bounds(phase: Waiting) -> bool {
    match phase {
        Waiting::Fronted { size, front } => front <= size,
        Waiting::Tail { size, front } => front <= size,
        Waiting::TailCheck { size, front, now } => front <= size <= now,
        Waiting::TailRead { size, front, now } => front <= size <= now,
        Waiting::TailRecheck { size, front, now, tail } => front <= size <= now && tail.len() <= now
            - size,
        _ => true,
    }
}

/// What is left over once the front is written.
fn left_over_at(size: u64, front: u64, n: u64) -> (r: Option<Leftover>)
    ensures
        r == left_over(size, front, n),
{
    if n >= size {
        Some(Leftover { start: front, end: size })
    } else {
        None
    }
}

/// The index in what was read, and whether leftover bytes were taken out of it.
fn index_of(content: Vec<u8>, leftover: Option<Leftover>) -> (r: (Vec<u8>, bool))
    ensures
        r.0@ == index_in(content@, leftover),
        r.1 == holds(leftover, content@.len() as int),
{
    if let Some(x) = leftover {
        let len: u64 = content.len() as u64;
        if x.start <= x.end && x.end <= len {
            let mut out = crate::bytes::copy_range(content.as_slice(), 0, x.start as usize);
            let mut tail = crate::bytes::copy_range(
                content.as_slice(),
                x.end as usize,
                content.len(),
            );
            out.append(&mut tail);
            assert(out@ =~= index_in(content@, leftover));
            return (out, true);
        }
    }
    (content, false)
}

impl Rewrite {
    /// The bounds of the phase hold.
    #[verifier::type_invariant]
    spec fn sound(self) -> bool {
        in_bounds(self.phase@)
    }

    /// Start to rewrite an index; the file is measured first.
    pub fn start(edits: Vec<PendingIndexEdit>) -> (r: (Self, FileAction))
        ensures
            r.0@ == (Rewriting {
                edits: index::edit_views(edits@),
                rounds: REWRITE_ROUNDS,
                leftover: None,
                phase: Waiting::Size,
            }),
            r.1@ == Deed::Measure,
    {
        (
            Rewrite { edits, rounds: REWRITE_ROUNDS, leftover: None, phase: Phase::Size },
            FileAction::Measure,
        )
    }

    fn again(
        edits: Vec<PendingIndexEdit>,
        rounds: u32,
        leftover: Option<Leftover>,
        Ghost(v): Ghost<Rewriting>,
    ) -> (r: (Self, FileAction))
        requires
            v.edits == index::edit_views(edits@),
            v.rounds == rounds,
        ensures
            (r.0@, r.1@) == again(v, leftover),
    {
        if rounds <= 1 {
            (Rewrite { edits, rounds: 0, leftover, phase: Phase::GaveUp }, FileAction::GiveUp)
        } else {
            (
                Rewrite { edits, rounds: rounds - 1, leftover, phase: Phase::Size },
                FileAction::Measure,
            )
        }
    }

    /// Take an answer and say what is done next.
    pub fn next(self, answer: FileAnswer) -> (r: (Self, FileAction))
        ensures
            (r.0@, r.1@) == answered(self@, answer),
    {
        proof {
            use_type_invariant(&self);
        }
        let ghost v = self@;
        let Rewrite { edits, rounds, leftover, phase } = self;
        match answer {
            FileAnswer::Size(n) => match phase {
                Phase::Size => (
                    Rewrite { edits, rounds, leftover, phase: Phase::Read { size: n } },
                    FileAction::ReadAll,
                ),
                Phase::Recheck { size, base, cut } => {
                    if n != size {
                        return Self::again(edits, rounds, leftover, Ghost(v));
                    }
                    let content = match plan_index_rewrite(base.as_slice(), &edits, size) {
                        RewriteStep::Done => {
                            if !cut {
                                return (
                                    Rewrite { edits, rounds, leftover, phase: Phase::Finished },
                                    FileAction::Done,
                                );
                            }
                            base
                        },
                        RewriteStep::Grow { content } => content,
                        RewriteStep::Shrink { content } => content,
                    };
                    let len: u64 = content.len() as u64;
                    if len > size {
                        (
                            Rewrite { edits, rounds, leftover: None, phase: Phase::Grown { len } },
                            FileAction::WriteWhole { content },
                        )
                    } else {
                        (
                            Rewrite {
                                edits,
                                rounds,
                                leftover,
                                phase: Phase::Fronted { size, front: len },
                            },
                            FileAction::WriteFront { content },
                        )
                    }
                },
                Phase::Grown { len } => {
                    if n == len {
                        (
                            Rewrite { edits, rounds, leftover, phase: Phase::Finished },
                            FileAction::Done,
                        )
                    } else {
                        Self::again(edits, rounds, None, Ghost(v))
                    }
                },
                Phase::Fronted { size, front } => {
                    if n == size {
                        (
                            Rewrite { edits, rounds, leftover, phase: Phase::Tail { size, front } },
                            FileAction::Measure,
                        )
                    } else {
                        Self::again(edits, rounds, left_over_at(size, front, n), Ghost(v))
                    }
                },
                Phase::Tail { size, front } => {
                    if n >= size {
                        (
                            Rewrite {
                                edits,
                                rounds,
                                leftover,
                                phase: Phase::TailCheck { size, front, now: n },
                            },
                            FileAction::Measure,
                        )
                    } else {
                        Self::again(edits, rounds, None, Ghost(v))
                    }
                },
                Phase::TailCheck { size, front, now } => {
                    if n == now {
                        (
                            Rewrite {
                                edits,
                                rounds,
                                leftover,
                                phase: Phase::TailRead { size, front, now },
                            },
                            FileAction::ReadRange { from: size, len: now - size },
                        )
                    } else {
                        Self::again(edits, rounds, left_over_at(size, front, n), Ghost(v))
                    }
                },
                Phase::TailRecheck { size, front, now, tail } => {
                    if n == now {
                        let stale = stale_range(front, tail.len() as u64, size, now);
                        (
                            Rewrite {
                                edits,
                                rounds,
                                leftover: None,
                                phase: Phase::Cut { expected: stale.expected },
                            },
                            FileAction::MoveTail { at: front, tail, stale },
                        )
                    } else {
                        Self::again(edits, rounds, left_over_at(size, front, n), Ghost(v))
                    }
                },
                Phase::Cut { expected } => {
                    if n == expected {
                        (
                            Rewrite { edits, rounds, leftover, phase: Phase::Finished },
                            FileAction::Done,
                        )
                    } else {
                        Self::again(edits, rounds, None, Ghost(v))
                    }
                },
                Phase::Finished => (
                    Rewrite { edits, rounds, leftover, phase: Phase::Finished },
                    FileAction::Done,
                ),
                Phase::GaveUp => (
                    Rewrite { edits, rounds, leftover, phase: Phase::GaveUp },
                    FileAction::GiveUp,
                ),
                Phase::Read { .. } => Self::again(edits, rounds, leftover, Ghost(v)),
                Phase::TailRead { .. } => Self::again(edits, rounds, leftover, Ghost(v)),
            },
            FileAnswer::Content(content) => match phase {
                Phase::Read { size } => {
                    let (base, cut) = index_of(content, leftover);
                    (
                        Rewrite { edits, rounds, leftover, phase: Phase::Recheck { size, base, cut } },
                        FileAction::Measure,
                    )
                },
                Phase::TailRead { size, front, now } => {
                    if content.len() as u64 <= now - size {
                        (
                            Rewrite {
                                edits,
                                rounds,
                                leftover,
                                phase: Phase::TailRecheck { size, front, now, tail: content },
                            },
                            FileAction::Measure,
                        )
                    } else {
                        Self::again(edits, rounds, left_over_at(size, front, now), Ghost(v))
                    }
                },
                Phase::Finished => (
                    Rewrite { edits, rounds, leftover, phase: Phase::Finished },
                    FileAction::Done,
                ),
                Phase::GaveUp => (
                    Rewrite { edits, rounds, leftover, phase: Phase::GaveUp },
                    FileAction::GiveUp,
                ),
                _ => Self::again(edits, rounds, leftover, Ghost(v)),
            },
        }
    }
}

/// The steps that are left in a round.
pub open spec fn steps_left(phase: Waiting) -> int {
    match phase {
        Waiting::Size => 8,
        Waiting::Read { .. } => 7,
        Waiting::Recheck { .. } => 6,
        Waiting::Fronted { .. } => 5,
        Waiting::Tail { .. } => 4,
        Waiting::TailCheck { .. } => 3,
        Waiting::TailRead { .. } => 2,
        Waiting::TailRecheck { .. } => 1,
        Waiting::Grown { .. } => 0,
        Waiting::Cut { .. } => 0,
        Waiting::Finished => -1,
        Waiting::GaveUp => -1,
    }
}

/// Whatever the file answers, the rewrite ends: each answer leads on in the round or uses up
/// a round.
pub proof fn law_rewrite_ends(v: Rewriting, answer: FileAnswer)
    requires
        !(v.phase is Finished) && !(v.phase is GaveUp),
    ensures
        ({
            let next = answered(v, answer).0;
            next.rounds < v.rounds || next.phase is GaveUp || (next.rounds == v.rounds
                && steps_left(next.phase) < steps_left(v.phase))
        }),
{
}

/// The size that a rewrite expects of a file when it is measured, where it expects one.
pub open spec fn expected_size(phase: Waiting) -> Option<u64> {
    match phase {
        Waiting::Recheck { size, .. } => Some(size),
        Waiting::Grown { len } => Some(len),
        Waiting::Fronted { size, .. } => Some(size),
        Waiting::TailCheck { now, .. } => Some(now),
        Waiting::TailRecheck { now, .. } => Some(now),
        Waiting::Cut { expected } => Some(expected),
        _ => None,
    }
}

/// Wherever the rewrite expects a size, any other size starts a new round, or ends the rewrite
/// where none is left, whether or not bytes were written already; the expected size does neither.
pub proof fn law_size_movement_starts_a_round(v: Rewriting, n: u64)
    requires
        expected_size(v.phase) is Some,
    ensures
        n != expected_size(v.phase)->0 <==> measured(v, n).0.rounds < v.rounds || measured(
            v,
            n,
        ).0.phase is GaveUp,
        n != expected_size(v.phase)->0 && v.rounds > 1 ==> measured(v, n).1 is Measure && measured(
            v,
            n,
        ).0.phase is Size,
        n != expected_size(v.phase)->0 && v.rounds <= 1 ==> measured(v, n).1 is GiveUp,
{
}

/// While the rewrite shortens a file, nothing is written at or behind the place up to which
/// the file was read, except what was itself read from there.
pub proof fn law_front_stays_in_front(v: Rewriting, answer: FileAnswer)
    requires
        in_bounds(v.phase),
    ensures
        in_bounds(answered(v, answer).0.phase),
        answered(v, answer).1 matches Deed::WriteFront { content } ==> (v.phase matches Waiting::Recheck {
            size,
            ..
        } && content.len() <= size),
        answered(v, answer).1 matches Deed::MoveTail { at, tail, .. } ==> (v.phase matches Waiting::TailRecheck {
            size,
            tail: t,
            ..
        } && at <= size && tail == t),
{
}

/// A file with bytes written over it from `at` on.
pub open spec fn overwritten(file: Seq<u8>, at: int, content: Seq<u8>) -> Seq<u8> {
    if at + content.len() < file.len() {
        file.take(at) + content + file.skip(at + content.len())
    } else {
        file.take(at) + content
    }
}

/// A file without a range of its bytes.
pub open spec fn cut_out(file: Seq<u8>, offset: int, len: int) -> Seq<u8> {
    file.take(offset) + file.skip(offset + len)
}

/// What a deed makes of a file, where ranges can be removed and where they cannot.
pub open spec fn performed(file: Seq<u8>, deed: Deed, removable: bool) -> Seq<u8> {
    match deed {
        Deed::WriteWhole { content } => content,
        Deed::WriteFront { content } => overwritten(file, 0, content),
        Deed::MoveTail { at, tail, stale } => {
            let whole = overwritten(file, at as int, tail);
            if removable {
                cut_out(whole, stale.offset as int, stale.len as int)
            } else {
                whole.take(stale.offset as int)
            }
        },
        _ => file,
    }
}

/// A rewrite, the file that it works on, and what happened to that file.
pub struct Run {
    pub rewrite: Rewriting,
    pub deed: Deed,
    pub file: Seq<u8>,
    /// The index that the file held when it was last read whole, or at first.
    pub base: Seq<u8>,
    /// What others have appended since.
    pub since: Seq<u8>,
}

/// A deed is performed and answered. Others append `before` while it is still to be performed,
/// and `after` between the deed and the measurement.
pub open spec fn ran(
    r: Run,
    removable: bool,
    before: Seq<u8>,
    after: Seq<u8>,
    answer: FileAnswer,
) -> Run {
    let next = answered(r.rewrite, answer);
    let whole = r.file + before;
    Run {
        rewrite: next.0,
        deed: next.1,
        file: performed(whole, r.deed, removable) + after,
        base: if r.deed is ReadAll {
            index_in(whole, r.rewrite.leftover)
        } else {
            r.base
        },
        since: if r.deed is ReadAll {
            after
        } else {
            r.since + before + after
        },
    }
}

/// The file answers truly: with what it holds, or with how long it is.
pub open spec fn truthful(
    r: Run,
    removable: bool,
    before: Seq<u8>,
    after: Seq<u8>,
    answer: FileAnswer,
) -> bool {
    let whole = r.file + before;
    match r.deed {
        Deed::ReadAll => answer matches FileAnswer::Content(c) && c@ == whole,
        Deed::ReadRange { from, len } => answer matches FileAnswer::Content(c) && c@
            == whole.subrange(from as int, from + len),
        _ => answer matches FileAnswer::Size(n) && n == (performed(whole, r.deed, removable)
            + after).len(),
    }
}

/// Nobody appends where the file is cut at its end: a longer file that is written whole, or any
/// file where ranges cannot be removed.
pub open spec fn undisturbed(r: Run, removable: bool, before: Seq<u8>) -> bool {
    match r.deed {
        Deed::WriteWhole { .. } => (r.since + before).len() == 0,
        Deed::MoveTail { stale, .. } => removable || (r.file + before).len() == stale.len
            + stale.expected,
        _ => true,
    }
}

/// The index that the edits make of the base.
pub open spec fn merged(r: Run) -> Seq<u8> {
    index::index_merged(r.base, r.rewrite.edits)
}

/// The file ends with what was appended.
pub open spec fn keeps_appended(r: Run) -> bool {
    r.since.len() <= r.file.len() && r.file.skip(r.file.len() - r.since.len()) == r.since
}

/// The front is written, `size` bytes of the file were read, and what was appended follows them.
pub open spec fn fronted(r: Run, size: u64, front: u64) -> bool {
    &&& front == merged(r).len()
    &&& front <= size <= r.file.len()
    &&& r.file.take(front as int) == merged(r)
    &&& r.file.skip(size as int) == r.since
}

/// What the file holds at each stage of a rewrite. At the start of a round: the index that was
/// read last, or the new one, and what was appended, and between them what was left over. Once
/// the front is written: the new index, the rest of what was read, and what was appended. At the
/// end: the new index and what was appended.
pub open spec fn in_shape(r: Run) -> bool {
    let held = index_in(r.file, r.rewrite.leftover);
    let at_rest = (held == r.base + r.since || held == merged(r) + r.since) && (
    r.rewrite.leftover is Some ==> holds(r.rewrite.leftover, r.file.len() - r.since.len()));
    &&& in_bounds(r.rewrite.phase)
    &&& keeps_appended(r)
    &&& match r.rewrite.phase {
        Waiting::Size => r.deed is Measure && at_rest,
        Waiting::Read { size } => r.deed is ReadAll && size <= r.file.len() && at_rest,
        Waiting::Recheck { size, base, cut } => r.deed is Measure && held == r.base + r.since
            && at_rest && base == r.base && cut == (r.rewrite.leftover is Some) && size
            + r.since.len() <= r.file.len(),
        Waiting::Grown { len } => r.deed == (Deed::WriteWhole { content: merged(r) }) && len
            == merged(r).len() as u64 && r.rewrite.leftover is None,
        Waiting::Fronted { size, front } => r.deed == (Deed::WriteFront { content: merged(r) })
            && front == merged(r).len() && size + r.since.len() == r.file.len(),
        Waiting::Tail { size, front } => r.deed is Measure && fronted(r, size, front),
        Waiting::TailCheck { size, front, now } => r.deed is Measure && fronted(r, size, front)
            && now <= r.file.len(),
        Waiting::TailRead { size, front, now } => r.deed == (Deed::ReadRange {
            from: size,
            len: (now - size) as u64,
        }) && fronted(r, size, front) && now <= r.file.len(),
        Waiting::TailRecheck { size, front, now, tail } => r.deed is Measure && fronted(
            r,
            size,
            front,
        ) && now <= r.file.len() && tail == r.file.subrange(size as int, now as int),
        Waiting::Cut { expected } => (r.deed matches Deed::MoveTail { at, tail, stale } && stale.offset
            == at + tail.len() && stale.expected == expected && expected == at + tail.len()
            && fronted(r, (at + stale.len) as u64, at) && at + stale.len + tail.len()
            <= r.file.len() && at + stale.len <= u64::MAX && tail == r.file.subrange(
            at + stale.len,
            at + stale.len + tail.len(),
        )) && r.rewrite.leftover is None,
        Waiting::Finished => r.file == merged(r) + r.since,
        Waiting::GaveUp => true,
    }
}

/// Reading the index, and the measurements around it, keep the shape.
proof fn lemma_early_step(
    r: Run,
    removable: bool,
    before: Seq<u8>,
    after: Seq<u8>,
    answer: FileAnswer,
)
    requires
        in_shape(r),
        truthful(r, removable, before, after, answer),
        r.rewrite.phase is Size || r.rewrite.phase is Read || r.rewrite.phase is Recheck,
    ensures
        in_shape(ran(r, removable, before, after, answer)),
{
    let next = ran(r, removable, before, after, answer);
    let whole = r.file + before;
    let x = r.rewrite.leftover;
    assert(keeps_appended(next)) by {
        assert(next.file.skip(next.file.len() - next.since.len()) =~= next.since);
    }
    assert(next.file =~= r.file + before + after);
    assert(index_in(next.file, x) =~= index_in(r.file, x) + before + after);
    assert(index_in(whole, x) =~= index_in(r.file, x) + before);
    assert(r.base + r.since + before + after =~= r.base + (r.since + before + after));
    assert(merged(r) + r.since + before + after =~= merged(r) + (r.since + before + after));
    match r.rewrite.phase {
        Waiting::Size => {},
        Waiting::Read { size } => {
            assert(index_in(next.file, x) =~= next.base + next.since);
        },
        Waiting::Recheck { size, base, cut } => {
            if next.rewrite.phase is Finished {
                assert(next.file =~= merged(next) + next.since);
            }
        },
        _ => {},
    }
}

/// The front is written, or a longer file whole.
proof fn lemma_front_step(
    r: Run,
    removable: bool,
    before: Seq<u8>,
    after: Seq<u8>,
    answer: FileAnswer,
)
    requires
        in_shape(r),
        truthful(r, removable, before, after, answer),
        undisturbed(r, removable, before),
        r.rewrite.phase is Fronted || r.rewrite.phase is Grown,
    ensures
        in_shape(ran(r, removable, before, after, answer)),
{
    let next = ran(r, removable, before, after, answer);
    let whole = r.file + before;
    let front = merged(r);
    if r.rewrite.phase is Grown {
        assert(next.since =~= after);
        assert(next.file == front + next.since);
        assert(next.file.skip(next.file.len() - next.since.len()) =~= next.since);
    } else {
        let n = front.len() as int;
        let size = r.rewrite.phase->Fronted_size;
        assert(overwritten(whole, 0, front) =~= front + whole.skip(n));
        assert(next.file.skip(size as int) =~= next.since);
        assert(next.file.take(n) =~= front);
        assert(next.file.skip(next.file.len() - next.since.len()) =~= next.since);
        let left = Some(Leftover { start: front.len() as u64, end: size });
        assert(index_in(next.file, left) =~= front + next.since);
    }
}

/// What was appended is measured and read.
proof fn lemma_tail_step(
    r: Run,
    removable: bool,
    before: Seq<u8>,
    after: Seq<u8>,
    answer: FileAnswer,
)
    requires
        in_shape(r),
        truthful(r, removable, before, after, answer),
        r.rewrite.phase is Tail || r.rewrite.phase is TailCheck || r.rewrite.phase is TailRead
            || r.rewrite.phase is TailRecheck,
    ensures
        in_shape(ran(r, removable, before, after, answer)),
{
    let next = ran(r, removable, before, after, answer);
    let whole = r.file + before;
    let (size, front) = match r.rewrite.phase {
        Waiting::Tail { size, front } => (size, front),
        Waiting::TailCheck { size, front, now } => (size, front),
        Waiting::TailRead { size, front, now } => (size, front),
        Waiting::TailRecheck { size, front, now, tail } => (size, front),
        _ => (0u64, 0u64),
    };
    assert(next.file =~= r.file + before + after);
    assert(next.file.skip(size as int) =~= next.since);
    assert(next.file.take(front as int) =~= merged(r));
    assert(next.file.skip(next.file.len() - next.since.len()) =~= next.since);
    assert(fronted(next, size, front));
    let left = Some(Leftover { start: front, end: size });
    assert(index_in(next.file, left) =~= merged(r) + next.since);
    match r.rewrite.phase {
        Waiting::TailRead { size, front, now } => {
            assert((now - size) as u64 == now - size);
            assert(whole.subrange(size as int, now as int) =~= next.file.subrange(
                size as int,
                now as int,
            ));
        },
        Waiting::TailRecheck { size, front, now, tail } => {
            assert(tail =~= next.file.subrange(size as int, now as int));
            assert(tail.len() == now - size);
        },
        _ => {},
    }
}

/// The stale range is cut out.
proof fn lemma_cut_step(
    r: Run,
    removable: bool,
    before: Seq<u8>,
    after: Seq<u8>,
    answer: FileAnswer,
)
    requires
        in_shape(r),
        truthful(r, removable, before, after, answer),
        undisturbed(r, removable, before),
        r.rewrite.phase is Cut,
    ensures
        in_shape(ran(r, removable, before, after, answer)),
{
    let next = ran(r, removable, before, after, answer);
    let whole = r.file + before;
    let front = merged(r);
    let n = front.len() as int;
    let tail = r.deed->tail;
    let b = n + r.deed->stale.len;
    let k = n + tail.len();
    let moved = overwritten(whole, n, tail);
    assert(r.file.skip(b) == r.since);
    assert(tail =~= r.since.take(tail.len() as int));
    assert(whole.skip(b + tail.len()) =~= (r.since + before).skip(tail.len() as int));
    assert(moved.take(k) =~= front + tail);
    if removable {
        assert(moved.skip(b + tail.len()) =~= whole.skip(b + tail.len()));
        assert(cut_out(moved, k, b - n) =~= front + (r.since + before));
    } else {
        assert(whole.len() == b + tail.len());
        assert(before =~= Seq::<u8>::empty());
        assert(tail =~= r.since);
        assert(front + tail =~= front + (r.since + before));
    }
    assert(next.file =~= front + next.since);
    assert(next.file.skip(next.file.len() - next.since.len()) =~= next.since);
}

/// Whatever others append meanwhile, and however often a round starts again, a round reads the
/// index as the last round or others left it, with what was appended since, and no stale bytes.
/// When the rewrite is done the file holds the index that the edits make of what was read, and
/// behind it everything that was appended since. This leaves out bytes that are appended where
/// a file is cut at its end.
pub proof fn law_rewrite_keeps_shape(
    r: Run,
    removable: bool,
    before: Seq<u8>,
    after: Seq<u8>,
    answer: FileAnswer,
)
    requires
        in_shape(r),
        !(r.rewrite.phase is Finished) && !(r.rewrite.phase is GaveUp),
        truthful(r, removable, before, after, answer),
        undisturbed(r, removable, before),
    ensures
        in_shape(ran(r, removable, before, after, answer)),
        ran(r, removable, before, after, answer).deed is Done ==> ({
            let end = ran(r, removable, before, after, answer);
            end.file == merged(end) + end.since
        }),
        r.deed is ReadAll ==> ({
            let end = ran(r, removable, before, after, answer);
            end.base == r.base + (r.since + before) || end.base == merged(r) + (r.since + before)
        }),
{
    if r.rewrite.phase is Size || r.rewrite.phase is Read || r.rewrite.phase is Recheck {
        lemma_early_step(r, removable, before, after, answer);
    } else if r.rewrite.phase is Fronted || r.rewrite.phase is Grown {
        lemma_front_step(r, removable, before, after, answer);
    } else if r.rewrite.phase is Cut {
        lemma_cut_step(r, removable, before, after, answer);
    } else {
        lemma_tail_step(r, removable, before, after, answer);
    }
    if r.deed is ReadAll {
        let whole = r.file + before;
        assert(index_in(whole, r.rewrite.leftover) =~= index_in(r.file, r.rewrite.leftover)
            + before);
        assert(r.base + r.since + before =~= r.base + (r.since + before));
        assert(merged(r) + r.since + before =~= merged(r) + (r.since + before));
    }
}

/// At every stage, the end of the file is what others have appended since it was read: nothing
/// of it is lost, changed or repeated.
pub proof fn law_appended_bytes_survive(r: Run)
    requires
        in_shape(r),
    ensures
        r.since.len() <= r.file.len(),
        r.file.skip(r.file.len() - r.since.len()) == r.since,
{
}

/// A rewrite starts in shape.
pub proof fn law_rewrite_starts_in_shape(edits: Seq<IndexEdit>, file: Seq<u8>)
    ensures
        in_shape(
            Run {
                rewrite: Rewriting {
                    edits,
                    rounds: REWRITE_ROUNDS,
                    leftover: None,
                    phase: Waiting::Size,
                },
                deed: Deed::Measure,
                file,
                base: file,
                since: Seq::empty(),
            },
        ),
{
    assert(file + Seq::<u8>::empty() =~= file);
    assert(file.skip(file.len() as int) =~= Seq::<u8>::empty());
}

} // verus!
