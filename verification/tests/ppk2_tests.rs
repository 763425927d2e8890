use rust_link::ppk2::command::Commands;
use rust_link::ppk2::dfu::{
    dfu_control_in, dfu_functional_descriptor, ControlRequest, Recipient, RequestType,
    DFU_VERSION_STR_REPLY,
};
use rust_link::ppk2::measurement::{make_ppk2_measurement_data, Ppk2MeasurementData};
use rust_link::ppk2::metadata::{metadata_packets, split_packets, PPK2_META_DATA};
use rust_link::ppk2::session::{ppk2_recovery, Ppk2Action, Ppk2Recovery, Ppk2Session, Ppk2UsbFailure};

fn words_of(packet: &[u8]) -> Vec<u32> {
    packet.chunks(4).map(|c| u32::from_ne_bytes([c[0], c[1], c[2], c[3]])).collect()
}

#[test]
fn measurement_word_layout() {
    // average 100 of 12-bit samples scaled by 4 to 14 bits; range 5; counter 3
    let w = make_ppk2_measurement_data(&[100, 100, 100, 100], 12, 3, 5);
    assert_eq!(w, 400 | (5 << 14) | (3 << 18));
}

#[test]
fn measurement_masks_counter_and_range() {
    let w = make_ppk2_measurement_data(&[1], 14, 64 + 2, 8 + 1);
    assert_eq!(w, 1 | (1 << 14) | (2 << 18));
}

#[test]
fn measurement_resolution_above_14_bits() {
    // 16-bit samples: sum 4000 over 2 samples, divided by 4 * 2
    let w = make_ppk2_measurement_data(&[1000, 3000], 16, 0, 0);
    assert_eq!(w, 500);
}

#[test]
fn measurement_keeps_14_bits_of_the_average() {
    // 0x4001 << 2 = 0x10004 -> low 14 bits are 4
    let w = make_ppk2_measurement_data(&[0x4001], 12, 0, 0);
    assert_eq!(w, 4);
}

#[test]
fn bitfield_accessors() {
    let d = Ppk2MeasurementData::new()
        .with_adc_data(0x3fff)
        .with_range(5)
        .with_counter(33)
        .with_logic_data(0xa5)
        .with_rsvd(true);
    assert_eq!(d.adc_data(), 0x3fff);
    assert_eq!(d.range(), 5);
    assert_eq!(d.counter(), 33);
    assert_eq!(d.logic_data(), 0xa5);
    assert!(d.rsvd());
    assert_eq!(d.into_bits(), 0x3fff | (5 << 14) | (33 << 17) | (0xa5 << 23) | (1 << 31));
    assert_eq!(Ppk2MeasurementData::from_bits(0x1234).adc_data(), 0x1234);
}

#[test]
fn bitfield_checked_setters_refuse_wide_values() {
    let mut d = Ppk2MeasurementData::from_bits(0);
    assert_eq!(d.set_range_checked(8), Err(()));
    assert_eq!(d.into_bits(), 0);
    assert_eq!(d.set_range_checked(7), Ok(()));
    assert_eq!(d.into_bits(), 7 << 14);
    assert!(d.with_adc_data_checked(0x4000).is_err());
    assert!(d.with_counter_checked(64).is_err());
    d.set_counter(1);
    assert_eq!(d.counter(), 1);
    assert_eq!(d.range(), 7);
}

#[test]
fn command_decoding() {
    assert_eq!(Commands::from(0x19), Commands::GetMetaData);
    assert_eq!(Commands::from(0x06), Commands::AverageStart);
    assert_eq!(Commands::from(0x07), Commands::AverageStop);
    assert_eq!(Commands::from(0x0C), Commands::DeviceRunningSet);
    assert_eq!(Commands::from(0x25), Commands::SetUserGains);
    assert_eq!(Commands::from(0x0B), Commands::Unkown(0x0B));
    assert_eq!(Commands::from(0xFF), Commands::Unkown(0xFF));
}

#[test]
fn session_reacts_to_commands() {
    let mut s = Ppk2Session::new();
    assert_eq!(s.process_command(&[0x19]), Ppk2Action::SendMetadata);
    assert!(!s.send_data_enable);
    assert_eq!(s.process_command(&[0x06]), Ppk2Action::StartSampling);
    assert!(s.send_data_enable);
    assert_eq!(s.process_command(&[0x0C, 0]), Ppk2Action::PowerOutDisable);
    assert_eq!(s.process_command(&[0x0C, 1]), Ppk2Action::PowerOutEnable);
    assert_eq!(s.process_command(&[0x0C, 2]), Ppk2Action::Ignore);
    assert_eq!(s.process_command(&[0x0D, 1, 2]), Ppk2Action::Ignore);
    assert_eq!(s.process_command(&[0x77]), Ppk2Action::Ignore);
    assert!(s.send_data_enable);
    assert_eq!(s.process_command(&[0x07]), Ppk2Action::StopSampling);
    assert!(!s.send_data_enable);
}

#[test]
fn packets_of_sixteen_measurements() {
    let samples: Vec<u16> = (0..40u16).collect();
    let mut s = Ppk2Session { send_data_enable: true, measurement_counter: 62 };
    // runs of 2 samples: 20 runs -> one packet, then 4 runs are dropped
    let (packet, next) = s.next_packet(&samples, 2, 14, 0).unwrap();
    assert_eq!(packet.len(), 64);
    let words = words_of(&packet);
    assert_eq!(next, 32);
    assert_eq!(words.len(), 16);
    for (j, w) in words.iter().enumerate() {
        let avg = (2 * j as u32 * 2 + 1) / 2;
        let counter = (62 + j as u32) & 0x3f;
        assert_eq!(*w, avg | (counter << 18));
    }
    assert_eq!(s.measurement_counter, 78);
    assert!(s.next_packet(&samples, 2, 14, next).is_none());
    assert_eq!(s.measurement_counter, 82);
}

#[test]
fn no_packets_while_streaming_is_off() {
    let samples = [1u16; 64];
    let mut s = Ppk2Session::new();
    assert!(s.next_packet(&samples, 1, 12, 0).is_none());
    assert_eq!(s.measurement_counter, 0);
}

#[test]
fn counter_wraps() {
    let samples = [0u16; 16];
    let mut s = Ppk2Session { send_data_enable: true, measurement_counter: u32::MAX - 1 };
    let (packet, _) = s.next_packet(&samples, 1, 12, 0).unwrap();
    let words = words_of(&packet);
    assert_eq!(words[0], 62 << 18);
    assert_eq!(words[1], 63 << 18);
    assert_eq!(words[2], 0);
    assert_eq!(s.measurement_counter, 14);
}

#[test]
fn metadata_in_64_byte_packets() {
    let packets = metadata_packets();
    let joined: Vec<u8> = packets.iter().flatten().copied().collect();
    assert_eq!(joined, PPK2_META_DATA.as_bytes());
    assert!(PPK2_META_DATA.starts_with("Calibrated: 0\nR0: 0.535\n"));
    assert!(PPK2_META_DATA.ends_with("IA: 56\nEND\n"));
    for p in &packets[..packets.len() - 1] {
        assert_eq!(p.len(), 64);
    }
    assert!(packets.last().unwrap().len() <= 64);
}

#[test]
fn split_packets_edges() {
    assert!(split_packets(&[], 4).is_empty());
    assert_eq!(split_packets(&[1, 2, 3, 4], 4), vec![vec![1, 2, 3, 4]]);
    assert_eq!(split_packets(&[1, 2, 3, 4, 5], 2), vec![vec![1, 2], vec![3, 4], vec![5]]);
}

#[test]
fn dfu_answers_the_version_request() {
    let mut buf = [0u8; 40];
    let req = ControlRequest { request_type: RequestType::Class, recipient: Recipient::Device, index: 0 };
    let n = dfu_control_in(req, &mut buf).unwrap();
    assert_eq!(&buf[..n], DFU_VERSION_STR_REPLY.as_bytes());
    assert_eq!(&buf[..n], b"power_profiler_kit_2 1.2.4-db16a94");
    assert_eq!(&buf[n..], &[0u8; 6]);
}

#[test]
fn dfu_declines_other_requests() {
    let mut buf = [1u8; 40];
    for req in [
        ControlRequest { request_type: RequestType::Standard, recipient: Recipient::Device, index: 0 },
        ControlRequest { request_type: RequestType::Class, recipient: Recipient::Interface, index: 0 },
        ControlRequest { request_type: RequestType::Class, recipient: Recipient::Device, index: 1 },
    ] {
        assert_eq!(dfu_control_in(req, &mut buf), None);
    }
    assert_eq!(buf, [1u8; 40]);
}

#[test]
fn dfu_functional_descriptor_bytes() {
    assert_eq!(dfu_functional_descriptor(3), [9, 3, 3, 0, 0, 0x10, 0x01]);
}

#[test]
fn second_packet_continues_numbering() {
    let samples = [10u16; 32];
    let mut s = Ppk2Session { send_data_enable: true, measurement_counter: 0 };
    let (first, next) = s.next_packet(&samples, 1, 14, 0).unwrap();
    let (second, end) = s.next_packet(&samples, 1, 14, next).unwrap();
    assert_eq!(end, 32);
    let a = words_of(&first);
    let b = words_of(&second);
    for j in 0..16u32 {
        assert_eq!(a[j as usize], 10 | (j << 18));
        assert_eq!(b[j as usize], 10 | ((16 + j) << 18));
    }
    assert!(s.next_packet(&samples, 1, 14, end).is_none());
    assert_eq!(s.measurement_counter, 32);
}

#[test]
fn bitfield_counter_sits_below_the_wire_counter() {
    // the named-field word puts the counter at bit 17; the wire word at 18
    let wire = make_ppk2_measurement_data(&[0], 14, 1, 0);
    assert_eq!(wire, 1 << 18);
    assert_eq!(Ppk2MeasurementData::from_bits(wire).counter(), 2);
}

#[test]
fn measurement_ignores_sample_order() {
    let a = make_ppk2_measurement_data(&[1, 2, 3, 10], 12, 5, 0);
    let b = make_ppk2_measurement_data(&[10, 3, 2, 1], 12, 5, 0);
    assert_eq!(a, b);
    assert_eq!(a, 16 | (5 << 18));
}

#[test]
fn streaming_follows_the_last_start_or_stop() {
    let mut s = Ppk2Session::new();
    for packet in [&[0x06u8][..], &[0x19], &[0x07], &[0x0C, 1], &[0x06], &[0x77]] {
        s.process_command(packet);
    }
    assert!(s.send_data_enable);
    for packet in [&[0x07u8][..], &[0x19], &[0x0C, 0]] {
        s.process_command(packet);
    }
    assert!(!s.send_data_enable);
    assert!(s.next_packet(&[1u16; 16], 1, 14, 0).is_none());
}

#[test]
fn block_stream_is_its_runs_in_order() {
    // 35 runs of one sample: two packets, the last three runs counted only
    let samples: Vec<u16> = (0..35u16).collect();
    let mut s = Ppk2Session { send_data_enable: true, measurement_counter: 0 };
    let mut pos = 0;
    let mut words: Vec<u32> = Vec::new();
    while let Some((packet, next)) = s.next_packet(&samples, 1, 14, pos) {
        words.extend(words_of(&packet));
        pos = next;
    }
    assert_eq!(words.len(), 32);
    for (i, w) in words.iter().enumerate() {
        assert_eq!(*w, i as u32 | ((i as u32 & 0x3f) << 18));
    }
    assert_eq!(s.measurement_counter, 35);
}

#[test]
fn measurement_word_converts_to_and_from_bits() {
    let w = Ppk2MeasurementData::from(0x8000_0000u32 | (3 << 17) | 0x1234);
    assert_eq!(w.adc_data(), 0x1234);
    assert_eq!(w.counter(), 3);
    assert_eq!(u32::from(w), 0x8000_0000 | (3 << 17) | 0x1234);
}

#[test]
fn nothing_is_asked_of_a_block_while_streaming_is_off() {
    // a zero oversampling factor would panic only while streaming
    let mut s = Ppk2Session::new();
    assert!(s.next_packet(&[u16::MAX; 4], 0, 14, 9).is_none());
    assert_eq!(s.measurement_counter, 0);
}

#[test]
fn failed_transfers_and_what_follows() {
    assert_eq!(ppk2_recovery(Ppk2UsbFailure::CommandRead), Ppk2Recovery::Disconnect);
    assert_eq!(ppk2_recovery(Ppk2UsbFailure::CommandReply), Ppk2Recovery::Disconnect);
    assert_eq!(ppk2_recovery(Ppk2UsbFailure::MeasurementWrite), Ppk2Recovery::DropBlock);
}
