//! Packets of spectrum data, and the reports that carry them.
use vstd::prelude::*;

verus! {

/// The number of bins of a spectrum: the positive frequencies of a block.
pub const FFT_BINS: usize = crate::audio::BLOCK_SIZE / 2;

/// The number of bytes of a report.
pub const REPORT_SIZE: usize = 256;

/// The number of bytes of a report before its bins.
pub const HEADER_SIZE: usize = 4;

/// The number of bins in a packet.
pub const BINS_PER_PACKET: usize = 252;

/// The number of packets that a spectrum is split into.
pub const PACKETS_PER_SPECTRUM: usize = 5;

/// A stretch of the bins of one spectrum.
#[derive(Clone, Copy, Debug, PartialEq, Eq)]
pub struct SpectrumPacket {
    /// The number of the spectrum.
    pub seq: u16,
    /// The place of the first bin among all bins of the spectrum.
    pub offset: u16,
    /// The bins; past the last bin of the spectrum there are zeros.
    pub bins: [u8; BINS_PER_PACKET],
}

/// The packet `j` of the spectrum `bins` with the number `seq`.
pub open spec fn is_packet_of(p: SpectrumPacket, seq: u16, bins: Seq<u8>, j: int) -> bool {
    &&& p.seq == seq
    &&& p.offset == j * BINS_PER_PACKET
    &&& forall|i: int|
        0 <= i < BINS_PER_PACKET ==> #[trigger] p.bins@[i] == (if j * BINS_PER_PACKET + i
            < FFT_BINS {
            bins[j * BINS_PER_PACKET + i]
        } else {
            0
        })
}

/// Splits a spectrum into packets.
pub fn split_spectrum(seq: u16, bins: &[u8; FFT_BINS]) -> (r:
    [SpectrumPacket; PACKETS_PER_SPECTRUM])
    ensures
        forall|j: int|
            0 <= j < PACKETS_PER_SPECTRUM ==> is_packet_of(#[trigger] r@[j], seq, bins@, j),
{
    let mut packets = [SpectrumPacket { seq, offset: 0, bins: [0;BINS_PER_PACKET] };
        PACKETS_PER_SPECTRUM];
    let mut j: usize = 0;
    while j < PACKETS_PER_SPECTRUM
        invariant
            j <= PACKETS_PER_SPECTRUM,
            forall|k: int| 0 <= k < j ==> is_packet_of(#[trigger] packets@[k], seq, bins@, k),
        decreases PACKETS_PER_SPECTRUM - j,
    {
        let offset = j * BINS_PER_PACKET;
        let mut packet = SpectrumPacket {
            seq,
            offset: offset as u16,
            bins: [0;BINS_PER_PACKET],
        };
        let mut i: usize = 0;
        while i < BINS_PER_PACKET && offset + i < FFT_BINS
            invariant
                j < PACKETS_PER_SPECTRUM,
                offset == j * BINS_PER_PACKET,
                i <= BINS_PER_PACKET,
                offset + i <= FFT_BINS,
                packet.seq == seq,
                packet.offset == offset,
                forall|k: int| 0 <= k < i ==> #[trigger] packet.bins@[k] == bins@[offset + k],
                forall|k: int| i <= k < BINS_PER_PACKET ==> #[trigger] packet.bins@[k] == 0,
            decreases BINS_PER_PACKET - i,
        {
            packet.bins[i] = bins[offset + i];
            i += 1;
        }
        packets[j] = packet;
        j += 1;
    }
    packets
}

/// Whether a queue with `free` places can take all packets of a spectrum. A part of
/// them is of no use: a host could not put the spectrum together.
pub fn has_room(free: usize) -> (r: bool)
    ensures
        r == (free >= PACKETS_PER_SPECTRUM),
{
    free >= PACKETS_PER_SPECTRUM
}

/// The two bytes of `v`, the low one first.
pub open spec fn little_endian(v: u16) -> Seq<u8> {
    seq![(v % 256) as u8, (v / 256) as u8]
}

/// `report` has the size of a report and begins at a bin of a spectrum.
pub open spec fn is_readable(report: Seq<u8>) -> bool {
    report.len() == REPORT_SIZE && report[2] + 256 * report[3] < FFT_BINS
}

impl SpectrumPacket {
    /// The report that carries the packet: the number and the place, low bytes first,
    /// then the bins.
    pub open spec fn report(self) -> Seq<u8> {
        little_endian(self.seq) + little_endian(self.offset) + self.bins@
    }

    /// The report that carries the packet.
    pub fn encode(&self) -> (r: [u8; REPORT_SIZE])
        ensures
            r@ == self.report(),
    {
        let mut report = [0u8;REPORT_SIZE];
        report[0] = (self.seq % 256) as u8;
        report[1] = (self.seq / 256) as u8;
        report[2] = (self.offset % 256) as u8;
        report[3] = (self.offset / 256) as u8;
        let mut i: usize = 0;
        while i < BINS_PER_PACKET
            invariant
                i <= BINS_PER_PACKET,
                report@.take(4) == little_endian(self.seq) + little_endian(self.offset),
                forall|k: int| 0 <= k < i ==> #[trigger] self.bins@[k] == report@[HEADER_SIZE + k],
            decreases BINS_PER_PACKET - i,
        {
            let ghost before = report@.take(4);
            report[HEADER_SIZE + i] = self.bins[i];
            assert(report@.take(4) =~= before);
            i += 1;
        }
        proof {
            let header = little_endian(self.seq) + little_endian(self.offset);
            assert forall|k: int| 0 <= k < REPORT_SIZE implies #[trigger] report@[k]
                == self.report()[k] by {
                if k < 4 {
                    assert(report@.take(4)[k] == header[k]);
                } else {
                    assert(self.bins@[k - 4] == report@[HEADER_SIZE + (k - 4)]);
                }
            }
            assert(report@ =~= self.report());
        }
        report
    }

    /// The packet that a report carries. There is none if what was received does not
    /// have the size of a report, or begins past the last bin of a spectrum.
    pub fn decode(report: &[u8]) -> (r: Option<SpectrumPacket>)
        ensures
            r is Some <==> is_readable(report@),
            r matches Some(p) ==> p.report() == report@,
    {
        if report.len() != REPORT_SIZE {
            return None;
        }
        let seq = report[0] as u16 + 256 * (report[1] as u16);
        let offset = report[2] as u16 + 256 * (report[3] as u16);
        if offset as usize >= FFT_BINS {
            return None;
        }
        let mut bins = [0u8;BINS_PER_PACKET];
        let mut i: usize = 0;
        while i < BINS_PER_PACKET
            invariant
                i <= BINS_PER_PACKET,
                report@.len() == REPORT_SIZE,
                forall|k: int| 0 <= k < i ==> #[trigger] bins@[k] == report@[HEADER_SIZE + k],
            decreases BINS_PER_PACKET - i,
        {
            bins[i] = report[HEADER_SIZE + i];
            i += 1;
        }
        let packet = SpectrumPacket { seq, offset, bins };
        assert(packet.report() =~= report@);
        Some(packet)
    }
}

/// A report is read back: the report of a packet that begins at a bin of a spectrum
/// is readable, and the only packet that has this report is that packet.
pub proof fn law_reports_are_read_back(p: SpectrumPacket, q: SpectrumPacket)
    requires
        p.offset < FFT_BINS,
    ensures
        is_readable(p.report()),
        q.report() == p.report() ==> q.seq == p.seq && q.offset == p.offset && q.bins@ == p.bins@,
{
    if p.report() == q.report() {
        let (a, b) = (p.report(), q.report());
        assert(a[0] == b[0] && a[1] == b[1] && a[2] == b[2] && a[3] == b[3]);
        assert forall|i: int| 0 <= i < BINS_PER_PACKET implies p.bins@[i] == q.bins@[i] by {
            assert(a[4 + i] == b[4 + i]);
        }
        assert(q.bins@ =~= p.bins@);
    }
}

/// What a report holds: the number and the place, low bytes first, then bin after bin,
/// from the first one on. It is readable if it begins at a bin of a spectrum.
pub proof fn law_reports_hold_the_packet(p: SpectrumPacket, i: int)
    ensures
        p.report().len() == 256,
        p.report()[0] + 256 * p.report()[1] == p.seq,
        p.report()[2] + 256 * p.report()[3] == p.offset,
        0 <= i < 252 ==> p.report()[4 + i] == p.bins@[i],
        is_readable(p.report()) <==> p.offset < 1024,
{
    assert(p.bins@.len() == 252);
}

/// What is read from a report is what it holds: the packet with this report has the
/// bytes of the report as its number, its place and its bins.
pub proof fn law_packets_are_read_from_reports(p: SpectrumPacket, report: Seq<u8>, i: int)
    requires
        p.report() == report,
    ensures
        p.seq == report[0] + 256 * report[1],
        p.offset == report[2] + 256 * report[3],
        0 <= i < 252 ==> p.bins@[i] == report[4 + i],
        is_readable(report) <==> report.len() == 256 && report[2] + 256 * report[3] < 1024,
{
    law_reports_hold_the_packet(p, i);
}

/// What the packets of a spectrum hold: the packet `j` begins at the bin `252 * j` and
/// holds the bins from there on, in order, and zeros past the last one. Nothing else is
/// such a packet.
pub proof fn law_packets_hold_the_spectrum(p: SpectrumPacket, seq: u16, bins: Seq<u8>, j: int)
    requires
        0 <= j < 5,
        bins.len() == 1024,
    ensures
        is_packet_of(p, seq, bins, j) <==> {
            &&& p.seq == seq
            &&& p.offset == 252 * j
            &&& forall|k: int|
                252 * j <= k < 252 * j + 252 ==> #[trigger] p.bins@[k - 252 * j] == (if k < 1024 {
                    bins[k]
                } else {
                    0
                })
        },
{
    if is_packet_of(p, seq, bins, j) {
        assert forall|k: int| 252 * j <= k < 252 * j + 252 implies #[trigger] p.bins@[k - 252 * j]
            == (if k < 1024 {
            bins[k]
        } else {
            0
        }) by {
            let i = k - 252 * j;
            assert(p.bins@[i] == (if j * BINS_PER_PACKET + i < FFT_BINS {
                bins[j * BINS_PER_PACKET + i]
            } else {
                0
            }));
        }
    }
    if forall|k: int|
        252 * j <= k < 252 * j + 252 ==> #[trigger] p.bins@[k - 252 * j] == (if k < 1024 {
            bins[k]
        } else {
            0
        }) {
        assert forall|i: int| 0 <= i < BINS_PER_PACKET implies #[trigger] p.bins@[i] == (if j
            * BINS_PER_PACKET + i < FFT_BINS {
            bins[j * BINS_PER_PACKET + i]
        } else {
            0
        }) by {
            let k = 252 * j + i;
            assert(p.bins@[k - 252 * j] == p.bins@[i]);
        }
    }
}

} // verus!
