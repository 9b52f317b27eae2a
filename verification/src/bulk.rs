//! The sending side: a report goes out in chunks, and an empty write ends it.
use crate::packet::{SpectrumPacket, REPORT_SIZE};
use vstd::prelude::*;

verus! {

/// The largest number of bytes of one write.
pub const BULK_CHUNK: usize = 64;

/// What the sender does next.
#[derive(Clone, Copy, PartialEq, Eq, Structural, Debug)]
pub enum TxStep {
    /// Wait until the receiver is there.
    WaitEnabled,
    /// Wait for a packet to send.
    Receive,
    /// Write the bytes of the report from `from` up to, not including, `to`.
    Write { from: usize, to: usize },
    /// Write nothing: that ends the report.
    WriteEmpty,
}

/// The write of the chunk that begins at `from`.
pub open spec fn write_from(from: int) -> TxStep {
    TxStep::Write {
        from: from as usize,
        to: (if from + BULK_CHUNK <= REPORT_SIZE {
            from + BULK_CHUNK
        } else {
            REPORT_SIZE as int
        }) as usize,
    }
}

/// The step after the write `step`, which went well if `ok`: after an error the
/// report is given up, and the receiver is waited for.
pub open spec fn after_write(step: TxStep, ok: bool) -> TxStep {
    match step {
        TxStep::Write { from, to } if ok && to < REPORT_SIZE => write_from(to as int),
        TxStep::Write { from, to } if ok => TxStep::WriteEmpty,
        TxStep::WriteEmpty if ok => TxStep::Receive,
        _ => TxStep::WaitEnabled,
    }
}

/// The sender.
pub struct BulkTx {
    report: [u8; REPORT_SIZE],
    step: TxStep,
}

impl BulkTx {
    /// What the sender does next.
    pub closed spec fn at(self) -> TxStep {
        self.step
    }

    /// The report that is being sent.
    pub closed spec fn sending(self) -> Seq<u8> {
        self.report@
    }

    /// A write is one of a chunk.
    pub open spec fn wf(self) -> bool {
        &&& self.sending().len() == REPORT_SIZE
        &&& self.at() matches TxStep::Write { from, to } ==> from < REPORT_SIZE && self.at()
            == write_from(from as int)
    }

    /// A sender that waits for the receiver, with a report of zeros.
    pub fn new() -> (r: Self)
        ensures
            r.wf(),
            r.at() == TxStep::WaitEnabled,
            r.sending() == Seq::new(REPORT_SIZE as nat, |i: int| 0u8),
    {
        let r = BulkTx { report: [0;REPORT_SIZE], step: TxStep::WaitEnabled };
        assert(r.report@ =~= Seq::new(REPORT_SIZE as nat, |i: int| 0u8));
        r
    }

    /// What the sender does next.
    pub fn step(&self) -> (r: TxStep)
        ensures
            r == self.at(),
    {
        self.step
    }

    /// The bytes of the next write; none if no chunk is to be written.
    pub fn chunk(&self) -> (r: &[u8])
        requires
            self.wf(),
        ensures
            r@ == chunk_of(self.sending(), self.at()),
    {
        let (from, to) = match self.step {
            TxStep::Write { from, to } => (from, to),
            _ => (0, 0),
        };
        let r = vstd::slice::slice_subrange(self.report.as_slice(), from, to);
        assert(r@ =~= chunk_of(self.sending(), self.at()));
        r
    }

    /// The receiver is there.
    pub fn enabled(&mut self)
        requires
            old(self).wf(),
            old(self).at() == TxStep::WaitEnabled,
        ensures
            final(self).wf(),
            final(self).at() == TxStep::Receive,
            final(self).sending() == old(self).sending(),
    {
        self.step = TxStep::Receive;
    }

    /// There is a packet to send.
    pub fn accept(&mut self, packet: &SpectrumPacket)
        requires
            old(self).wf(),
            old(self).at() == TxStep::Receive,
        ensures
            final(self).wf(),
            final(self).at() == write_from(0),
            final(self).sending() == packet.report(),
    {
        self.report = packet.encode();
        self.step = TxStep::Write { from: 0, to: BULK_CHUNK };
    }

    /// A write was done, and went well if `ok`.
    pub fn written(&mut self, ok: bool)
        requires
            old(self).wf(),
            old(self).at() is Write || old(self).at() is WriteEmpty,
        ensures
            final(self).wf(),
            final(self).at() == after_write(old(self).at(), ok),
            final(self).sending() == old(self).sending(),
    {
        self.step = match self.step {
            TxStep::Write { from: _, to } => {
                if !ok {
                    TxStep::WaitEnabled
                } else if to >= REPORT_SIZE {
                    TxStep::WriteEmpty
                } else if REPORT_SIZE - to < BULK_CHUNK {
                    TxStep::Write { from: to, to: REPORT_SIZE }
                } else {
                    TxStep::Write { from: to, to: to + BULK_CHUNK }
                }
            },
            TxStep::WriteEmpty => {
                if ok {
                    TxStep::Receive
                } else {
                    TxStep::WaitEnabled
                }
            },
            other => other,
        };
    }
}

/// The bytes that the step `step` writes of `report`.
pub open spec fn chunk_of(report: Seq<u8>, step: TxStep) -> Seq<u8> {
    match step {
        TxStep::Write { from, to } => report.subrange(from as int, to as int),
        _ => Seq::empty(),
    }
}

/// The writes of `report` from `step` on, at most `count` of them, if all go well.
pub open spec fn writes(report: Seq<u8>, step: TxStep, count: nat) -> Seq<Seq<u8>>
    decreases count,
{
    if count > 0 && (step is Write || step is WriteEmpty) {
        seq![chunk_of(report, step)] + writes(
            report,
            after_write(step, true),
            (count - 1) as nat,
        )
    } else {
        Seq::empty()
    }
}

/// The step after `count` writes from `step` on, if all go well.
pub open spec fn after_writes(step: TxStep, count: nat) -> TxStep
    decreases count,
{
    if count == 0 {
        step
    } else {
        after_writes(after_write(step, true), (count - 1) as nat)
    }
}

/// A report whose writes all go well is sent whole: the chunks make up the report,
/// each has the size [`BULK_CHUNK`], an empty write follows, and then the next
/// packet is waited for.
pub proof fn law_report_is_sent_whole(report: Seq<u8>, count: nat)
    requires
        report.len() == REPORT_SIZE,
        count >= 5,
    ensures
        writes(report, write_from(0), count).len() == 5,
        writes(report, write_from(0), count).flatten() == report,
        forall|i: int|
            0 <= i < 4 ==> (#[trigger] writes(report, write_from(0), count)[i]).len()
                == BULK_CHUNK,
        forall|i: int|
            0 <= i < 4 ==> #[trigger] writes(report, write_from(0), count)[i] == report.subrange(
                64 * i,
                64 * i + 64,
            ),
        writes(report, write_from(0), count)[4].len() == 0,
        after_writes(write_from(0), 5) == TxStep::Receive,
{
    let all = writes(report, write_from(0), count);
    reveal_with_fuel(writes, 6);
    reveal_with_fuel(after_writes, 6);
    let pieces = seq![
        report.subrange(0, 64),
        report.subrange(64, 128),
        report.subrange(128, 192),
        report.subrange(192, 256),
        Seq::empty(),
    ];
    assert(all =~= pieces);
    reveal_with_fuel(Seq::flatten, 6);
    assert(pieces.flatten() =~= report);
}

/// A report is given up with its first write that goes wrong, wherever in the report
/// that is: the receiver is waited for, and nothing of the report is written any more.
pub proof fn law_failed_write_gives_the_report_up(report: Seq<u8>, good: nat, count: nat)
    requires
        good < 5,
    ensures
        after_writes(write_from(0), good) is Write || after_writes(write_from(0), good)
            is WriteEmpty,
        after_write(after_writes(write_from(0), good), false) == TxStep::WaitEnabled,
        writes(report, after_write(after_writes(write_from(0), good), false), count).len() == 0,
{
    reveal_with_fuel(after_writes, 6);
}

} // verus!
