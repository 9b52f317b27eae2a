use fft_analyzer::bulk::{BulkTx, TxStep};
use fft_analyzer::host::FrameAssembly;
use fft_analyzer::packet::{has_room, split_spectrum, SpectrumPacket};

fn spectrum() -> [u8; 1024] {
    let mut bins = [0u8; 1024];
    for i in 0..1024 {
        bins[i] = (i * 7 % 251) as u8 + 1;
    }
    bins
}

fn packet() -> SpectrumPacket {
    let mut bins = [0u8; 252];
    for i in 0..252 {
        bins[i] = i as u8;
    }
    SpectrumPacket { seq: 0x1234, offset: 0x00fc, bins }
}

#[test]
fn a_spectrum_is_split_into_five_packets() {
    let bins = spectrum();
    let packets = split_spectrum(77, &bins);
    let offsets: Vec<u16> = packets.iter().map(|p| p.offset).collect();
    assert_eq!(offsets, [0, 252, 504, 756, 1008]);
    assert!(packets.iter().all(|p| p.seq == 77));
    assert_eq!(packets[1].bins[..], bins[252..504]);
    assert_eq!(packets[4].bins[..16], bins[1008..]);
    assert!(packets[4].bins[16..].iter().all(|&b| b == 0));
}

#[test]
fn a_queue_has_room_for_all_packets_or_none() {
    assert!(!has_room(0));
    assert!(!has_room(4));
    assert!(has_room(5));
    assert!(has_room(8));
}

#[test]
fn a_report_has_its_low_bytes_first() {
    let report = packet().encode();
    assert_eq!(report[..4], [0x34, 0x12, 0xfc, 0x00]);
    assert_eq!(report[4], 0);
    assert_eq!(report[255], 251);
}

#[test]
fn a_report_is_read_back() {
    let p = packet();
    assert_eq!(SpectrumPacket::decode(&p.encode()), Some(p));
    for p in split_spectrum(65535, &spectrum()) {
        assert_eq!(SpectrumPacket::decode(&p.encode()), Some(p));
    }
}

#[test]
fn other_sizes_are_no_reports() {
    let report = packet().encode();
    assert_eq!(SpectrumPacket::decode(&[]), None);
    assert_eq!(SpectrumPacket::decode(&report[..255]), None);
    let mut longer = report.to_vec();
    longer.push(0);
    assert_eq!(SpectrumPacket::decode(&longer), None);
}

#[test]
fn a_report_past_the_last_bin_is_none() {
    let mut p = packet();
    p.offset = 1023;
    assert!(SpectrumPacket::decode(&p.encode()).is_some());
    p.offset = 1024;
    assert!(SpectrumPacket::decode(&p.encode()).is_none());
    p.offset = 65535;
    assert!(SpectrumPacket::decode(&p.encode()).is_none());
}

#[test]
fn packets_are_put_together_in_any_order() {
    let bins = spectrum();
    let packets = split_spectrum(3, &bins);
    let mut frame = FrameAssembly::new();
    for (n, j) in [4, 2, 2, 0, 3, 4].into_iter().enumerate() {
        frame.insert_packet(packets[j].offset as usize, &packets[j].bins);
        assert!(!frame.is_complete(), "after {} packets", n + 1);
    }
    frame.insert_packet(packets[1].offset as usize, &packets[1].bins);
    assert!(frame.is_complete());
    assert_eq!(frame.bins()[..], bins[..]);
}

#[test]
fn bins_past_the_last_one_are_dropped() {
    let mut frame = FrameAssembly::new();
    frame.insert_packet(1022, &[1, 2, 3, 4]);
    frame.insert_packet(1024, &[9]);
    frame.insert_packet(usize::MAX, &[9, 9]);
    assert_eq!(frame.bins()[1021..], [0, 1, 2]);
    frame.insert_packet(0, &[5; 1022]);
    assert!(frame.is_complete());
    frame.insert_packet(3, &[]);
    assert!(frame.is_complete());
    assert_eq!(frame.bins()[1020..], [5, 5, 1, 2]);
}

#[test]
fn a_report_is_sent_whole() {
    let mut tx = BulkTx::new();
    assert_eq!(tx.step(), TxStep::WaitEnabled);
    tx.enabled();
    for p in split_spectrum(9, &spectrum()) {
        assert_eq!(tx.step(), TxStep::Receive);
        tx.accept(&p);
        let mut sent = Vec::new();
        for k in 0..4 {
            assert_eq!(tx.step(), TxStep::Write { from: 64 * k, to: 64 * k + 64 });
            assert_eq!(tx.chunk().len(), 64);
            sent.extend_from_slice(tx.chunk());
            tx.written(true);
        }
        assert_eq!(tx.step(), TxStep::WriteEmpty);
        assert!(tx.chunk().is_empty());
        tx.written(true);
        assert_eq!(sent, p.encode());
    }
    assert_eq!(tx.step(), TxStep::Receive);
}

#[test]
fn a_failed_write_gives_the_report_up() {
    for good in 0..5 {
        let mut tx = BulkTx::new();
        tx.enabled();
        tx.accept(&packet());
        for _ in 0..good {
            tx.written(true);
        }
        tx.written(false);
        assert_eq!(tx.step(), TxStep::WaitEnabled);
        tx.enabled();
        assert_eq!(tx.step(), TxStep::Receive);
    }
}
