//! The host side: a spectrum is put together from packets again.
use crate::packet::{is_packet_of, SpectrumPacket, BINS_PER_PACKET, FFT_BINS, PACKETS_PER_SPECTRUM};
use vstd::prelude::*;

verus! {

/// What is known of a spectrum: its bins, as far as they were received.
#[verifier::ext_equal]
pub struct Known {
    pub bins: Seq<u8>,
    pub received: Seq<bool>,
}

impl Known {
    /// Nothing.
    pub open spec fn nothing() -> Known {
        Known {
            bins: Seq::new(FFT_BINS as nat, |i: int| 0u8),
            received: Seq::new(FFT_BINS as nat, |i: int| false),
        }
    }

    /// What is known with the bins `payload` from `offset` on; those past the last bin
    /// of a spectrum are dropped.
    pub open spec fn with(self, offset: int, payload: Seq<u8>) -> Known {
        Known {
            bins: Seq::new(
                FFT_BINS as nat,
                |i: int|
                    if offset <= i < offset + payload.len() {
                        payload[i - offset]
                    } else {
                        self.bins[i]
                    },
            ),
            received: Seq::new(
                FFT_BINS as nat,
                |i: int| offset <= i < offset + payload.len() || self.received[i],
            ),
        }
    }

    /// What is known after the packets `packets`.
    pub open spec fn after(packets: Seq<SpectrumPacket>) -> Known
        decreases packets.len(),
    {
        if packets.len() == 0 {
            Known::nothing()
        } else {
            let p = packets.last();
            Known::after(packets.drop_last()).with(p.offset as int, p.bins@)
        }
    }

    /// Every bin was received.
    pub open spec fn complete(self) -> bool {
        forall|i: int| 0 <= i < FFT_BINS ==> #[trigger] self.received[i]
    }
}

/// The number of `true` in `s`.
spec fn count(s: Seq<bool>) -> nat
    decreases s.len(),
{
    if s.len() == 0 {
        0
    } else {
        count(s.drop_last()) + (if s.last() {
            1nat
        } else {
            0nat
        })
    }
}

/// One more `true` is counted once.
proof fn lemma_count_set(s: Seq<bool>, i: int)
    requires
        0 <= i < s.len(),
        !s[i],
    ensures
        count(s.update(i, true)) == count(s) + 1,
    decreases s.len(),
{
    let t = s.update(i, true);
    if i == s.len() - 1 {
        assert(t.drop_last() =~= s.drop_last());
    } else {
        assert(t.drop_last() =~= s.drop_last().update(i, true));
        lemma_count_set(s.drop_last(), i);
    }
}

/// The count is the length where, and only where, all are `true`.
proof fn lemma_count_full(s: Seq<bool>)
    ensures
        count(s) <= s.len(),
        count(s) == s.len() <==> forall|i: int| 0 <= i < s.len() ==> #[trigger] s[i],
    decreases s.len(),
{
    if s.len() > 0 {
        let t = s.drop_last();
        lemma_count_full(t);
        if count(s) == s.len() {
            assert forall|i: int| 0 <= i < s.len() implies #[trigger] s[i] by {
                if i < t.len() {
                    assert(t[i]);
                }
            }
        }
        if forall|i: int| 0 <= i < s.len() ==> #[trigger] s[i] {
            assert forall|i: int| 0 <= i < t.len() implies #[trigger] t[i] by {
                assert(s[i]);
            }
            assert(s[s.len() - 1]);
        }
    }
}

/// No `false` is counted.
proof fn lemma_count_none(s: Seq<bool>)
    requires
        forall|i: int| 0 <= i < s.len() ==> !(#[trigger] s[i]),
    ensures
        count(s) == 0,
    decreases s.len(),
{
    if s.len() > 0 {
        lemma_count_none(s.drop_last());
    }
}

/// A spectrum that is being put together.
pub struct FrameAssembly {
    bins: [u8; FFT_BINS],
    received: [bool; FFT_BINS],
    received_count: usize,
}

impl View for FrameAssembly {
    type V = Known;

    closed spec fn view(&self) -> Known {
        Known { bins: self.bins@, received: self.received@ }
    }
}

impl FrameAssembly {
    /// The bins that were received are counted.
    pub closed spec fn wf(self) -> bool {
        self.received_count == count(self.received@)
    }

    /// A spectrum of which nothing was received.
    pub fn new() -> (r: Self)
        ensures
            r.wf(),
            r@ == Known::nothing(),
    {
        let r = FrameAssembly {
            bins: [0;FFT_BINS],
            received: [false;FFT_BINS],
            received_count: 0,
        };
        proof {
            lemma_count_none(r.received@);
            assert(r@ =~= Known::nothing());
        }
        r
    }

    /// Takes over the bins `payload` from `offset` on, up to the last bin.
    pub fn insert_packet(&mut self, offset: usize, payload: &[u8])
        requires
            old(self).wf(),
        ensures
            final(self).wf(),
            final(self)@ == old(self)@.with(offset as int, payload@),
    {
        let mut i: usize = 0;
        while i < payload.len() && offset < FFT_BINS && i < FFT_BINS - offset
            invariant
                self.wf(),
                i <= payload@.len(),
                i > 0 ==> offset + i <= FFT_BINS,
                forall|k: int|
                    0 <= k < FFT_BINS ==> #[trigger] self.bins@[k] == (if offset <= k < offset + i {
                        payload@[k - offset]
                    } else {
                        old(self).bins@[k]
                    }),
                forall|k: int|
                    0 <= k < FFT_BINS ==> #[trigger] self.received@[k] == (offset <= k < offset + i
                        || old(self).received@[k]),
            decreases payload@.len() - i,
        {
            let index = offset + i;
            self.bins[index] = payload[i];
            if !self.received[index] {
                proof {
                    lemma_count_set(self.received@, index as int);
                    lemma_count_full(self.received@.update(index as int, true));
                }
                self.received[index] = true;
                self.received_count += 1;
            }
            i += 1;
        }
        assert(self@ =~= old(self)@.with(offset as int, payload@));
    }

    /// Whether every bin was received.
    pub fn is_complete(&self) -> (r: bool)
        requires
            self.wf(),
        ensures
            r == self@.complete(),
    {
        proof {
            lemma_count_full(self.received@);
            assert(self@.received == self.received@);
            assert(self.received@.len() == FFT_BINS);
        }
        self.received_count == FFT_BINS
    }

    /// The bins; those that were not received are zero.
    pub fn bins(&self) -> (r: &[u8; FFT_BINS])
        ensures
            r@ == self@.bins,
    {
        &self.bins
    }
}

/// `p` is one of the packets of the spectrum `bins` with the number `seq`.
pub open spec fn belongs(p: SpectrumPacket, seq: u16, bins: Seq<u8>) -> bool {
    exists|j: int| 0 <= j < PACKETS_PER_SPECTRUM && #[trigger] is_packet_of(p, seq, bins, j)
}

/// The packet `j` of the spectrum `bins` with the number `seq` is among `packets`.
pub open spec fn came(packets: Seq<SpectrumPacket>, seq: u16, bins: Seq<u8>, j: int) -> bool {
    exists|k: int| 0 <= k < packets.len() && is_packet_of(#[trigger] packets[k], seq, bins, j)
}

/// The bin `i` is known after packets of a spectrum if the packet that holds it is
/// among them.
proof fn lemma_known_after(packets: Seq<SpectrumPacket>, seq: u16, bins: Seq<u8>, i: int)
    requires
        0 <= i < FFT_BINS,
        forall|k: int| 0 <= k < packets.len() ==> belongs(#[trigger] packets[k], seq, bins),
    ensures
        Known::after(packets).bins.len() == FFT_BINS,
        Known::after(packets).received[i] ==> Known::after(packets).bins[i] == bins[i],
        came(packets, seq, bins, i / BINS_PER_PACKET as int) ==> Known::after(packets).received[i],
    decreases packets.len(),
{
    if packets.len() > 0 {
        let before = packets.drop_last();
        let p = packets.last();
        lemma_known_after(before, seq, bins, i);
        assert(packets[packets.len() - 1] == p);
        let j = choose|j: int|
            0 <= j < PACKETS_PER_SPECTRUM && #[trigger] is_packet_of(p, seq, bins, j);
        let home = i / BINS_PER_PACKET as int;
        if p.offset <= i < p.offset + BINS_PER_PACKET {
            assert(p.bins@[i - p.offset] == bins[i]);
        } else if came(packets, seq, bins, home) {
            let k = choose|k: int|
                0 <= k < packets.len() && is_packet_of(#[trigger] packets[k], seq, bins, home);
            assert(k < before.len());
            assert(before[k] == packets[k]);
        }
    }
}

/// A spectrum can be put together from its packets: whatever the order in which they
/// come, and however often, once each of them has come every bin was received, and
/// the bins are those of the spectrum.
pub proof fn law_spectrum_is_put_together(packets: Seq<SpectrumPacket>, seq: u16, bins: Seq<u8>)
    requires
        bins.len() == FFT_BINS,
        forall|k: int| 0 <= k < packets.len() ==> belongs(#[trigger] packets[k], seq, bins),
        forall|j: int| 0 <= j < PACKETS_PER_SPECTRUM ==> #[trigger] came(packets, seq, bins, j),
    ensures
        Known::after(packets).complete(),
        Known::after(packets).bins == bins,
{
    let known = Known::after(packets);
    assert forall|i: int| 0 <= i < FFT_BINS implies #[trigger] known.received[i] by {
        assert(came(packets, seq, bins, i / BINS_PER_PACKET as int));
        lemma_known_after(packets, seq, bins, i);
    }
    assert forall|i: int| 0 <= i < FFT_BINS implies #[trigger] known.bins[i] == bins[i] by {
        assert(known.received[i]);
        lemma_known_after(packets, seq, bins, i);
    }
    lemma_known_after(packets, seq, bins, 0);
    assert(known.bins =~= bins);
}

/// What a payload tells: from its offset on, bin after bin, the bins are those of the
/// payload and were received, whatever was known before; all others are as they were.
pub proof fn law_payloads_are_taken_over(known: Known, offset: int, payload: Seq<u8>, i: int)
    requires
        0 <= i < 1024,
        0 <= offset,
    ensures
        known.with(offset, payload).bins.len() == 1024,
        known.with(offset, payload).received.len() == 1024,
        offset <= i < offset + payload.len() ==> known.with(offset, payload).bins[i]
            == payload[i - offset] && known.with(offset, payload).received[i],
        !(offset <= i < offset + payload.len()) ==> known.with(offset, payload).bins[i]
            == known.bins[i] && known.with(offset, payload).received[i] == known.received[i],
{
}

/// Nothing is received to begin with, and a spectrum is complete if, and only if, no bin
/// is missing.
pub proof fn law_complete_spectra_miss_nothing(known: Known, i: int)
    requires
        0 <= i < 1024,
    ensures
        !Known::nothing().received[i],
        Known::nothing().bins[i] == 0,
        known.complete() ==> known.received[i],
        !known.complete() ==> exists|k: int| 0 <= k < 1024 && !(#[trigger] known.received[k]),
{
}

/// `p` holds the bin `i`.
pub open spec fn covers(p: SpectrumPacket, i: int) -> bool {
    p.offset <= i < p.offset + 252
}

/// What is known after any packets, of whatever spectra: a bin was received if, and only
/// if, one of them holds it, and is then what the last one of these holds; a bin that was
/// not received is zero.
pub proof fn law_last_packet_counts(packets: Seq<SpectrumPacket>, i: int, k: int)
    requires
        0 <= i < 1024,
    ensures
        Known::after(packets).received[i] <==> exists|j: int|
            0 <= j < packets.len() && #[trigger] covers(packets[j], i),
        !Known::after(packets).received[i] ==> Known::after(packets).bins[i] == 0,
        0 <= k < packets.len() && covers(packets[k], i) && (forall|j: int|
            k < j < packets.len() ==> !(#[trigger] covers(packets[j], i)))
            ==> Known::after(packets).bins[i] == packets[k].bins@[i - packets[k].offset],
    decreases packets.len(),
{
    if packets.len() > 0 {
        let before = packets.drop_last();
        let p = packets.last();
        let last = packets.len() - 1;
        law_last_packet_counts(before, i, k);
        assert(forall|j: int| 0 <= j < last ==> #[trigger] before[j] == packets[j]);
        if covers(p, i) {
            assert(covers(packets[last], i));
        } else {
            if exists|j: int| 0 <= j < before.len() && #[trigger] covers(before[j], i) {
                let j = choose|j: int| 0 <= j < before.len() && #[trigger] covers(before[j], i);
                assert(covers(packets[j], i));
            }
            if exists|j: int| 0 <= j < packets.len() && #[trigger] covers(packets[j], i) {
                let j = choose|j: int| 0 <= j < packets.len() && #[trigger] covers(packets[j], i);
                assert(covers(before[j], i));
            }
            if 0 <= k < packets.len() && covers(packets[k], i) && (forall|j: int|
                k < j < packets.len() ==> !(#[trigger] covers(packets[j], i))) {
                assert(k < last);
                assert forall|j: int| k < j < before.len() implies !(#[trigger] covers(
                    before[j],
                    i,
                )) by {
                    assert(!covers(packets[j], i));
                }
            }
        }
    }
}

} // verus!
