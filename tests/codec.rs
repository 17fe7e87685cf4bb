use ioexporter::codec::{CompoundIdentity, DiskLatencyHistogramKey, NvneHistogramKey};
use ioexporter::labels::{decimal_text, disk_name, opcode_name};

fn named(name: &[u8], opcode: u8) -> NvneHistogramKey {
    let mut disk = [0u8; 32];
    disk[..name.len()].copy_from_slice(name);
    NvneHistogramKey::new(disk, opcode)
}

fn round_trip(id: CompoundIdentity) -> CompoundIdentity {
    CompoundIdentity::decode(&id.encode()).expect("decodes")
}

#[test]
fn disk_identity_round_trips() {
    for (major, minor) in [(8, 0), (259, 1), (-1, i32::MAX), (i32::MIN, 0)] {
        let d = DiskLatencyHistogramKey { major, minor };
        match round_trip(CompoundIdentity::Disk(d)) {
            CompoundIdentity::Disk(e) => assert_eq!(e, d),
            other => panic!("wrong variant {:?}", other),
        }
    }
}

#[test]
fn disk_encoding_is_little_endian() {
    let b = CompoundIdentity::Disk(DiskLatencyHistogramKey { major: 8, minor: 0x0102 }).encode();
    assert_eq!(b, vec![8, 0, 0, 0, 2, 1, 0, 0]);
    let n = CompoundIdentity::Disk(DiskLatencyHistogramKey { major: -1, minor: 0 }).encode();
    assert_eq!(n, vec![0xff, 0xff, 0xff, 0xff, 0, 0, 0, 0]);
}

#[test]
fn nvme_identity_round_trips() {
    let k = named(b"nvme0n1", 0x02);
    assert_eq!(k.opaque[31], 0x02);
    match round_trip(CompoundIdentity::Nvme(k)) {
        CompoundIdentity::Nvme(e) => assert_eq!(e, k),
        other => panic!("wrong variant {:?}", other),
    }
}

#[test]
fn decode_rejects_other_lengths() {
    assert!(CompoundIdentity::decode(&vec![]).is_none());
    assert!(CompoundIdentity::decode(&vec![0u8; 7]).is_none());
    assert!(CompoundIdentity::decode(&vec![0u8; 33]).is_none());
}

#[test]
fn opcode_names() {
    assert_eq!(opcode_name(0x02), "nvme_cmd_read");
    assert_eq!(opcode_name(0x00), "nvme_cmd_flush");
    assert_eq!(opcode_name(0x15), "nvme_cmd_resv_release");
    assert_eq!(opcode_name(0xFF), "unknown_0xff");
    assert_eq!(opcode_name(0x03), "unknown_0x03");
}

#[test]
fn disk_label_values() {
    let d = DiskLatencyHistogramKey { major: 8, minor: 0 };
    assert_eq!(DiskLatencyHistogramKey::get_label_keys(), vec!["major", "minor"]);
    assert_eq!(d.get_label_values(), vec!["8", "0"]);
    let n = DiskLatencyHistogramKey { major: -259, minor: i32::MIN };
    assert_eq!(n.get_label_values(), vec!["-259", "-2147483648"]);
    assert_eq!(decimal_text(i32::MAX), "2147483647");
    assert_eq!(decimal_text(10), "10");
}

#[test]
fn nvme_label_values() {
    let k = named(b"nvme0n1", 0x02);
    assert_eq!(NvneHistogramKey::get_label_keys(), vec!["disk", "operation"]);
    assert_eq!(k.get_label_values(), vec!["nvme0n1", "nvme_cmd_read"]);
    let u = named(b"nvme1n2", 0xFF);
    assert_eq!(u.get_label_values(), vec!["nvme1n2", "unknown_0xff"]);
}

#[test]
fn disk_name_stops_at_nul_and_replaces_invalid_bytes() {
    let mut o = [0u8; 32];
    o[..3].copy_from_slice(b"sda");
    o[4] = b'x';
    o[31] = 0x41;
    assert_eq!(disk_name(&o), "sda");
    let full = [b'a'; 32];
    assert_eq!(disk_name(&full), "a".repeat(31));
    let mut bad = [0u8; 32];
    bad[0] = 0xff;
    bad[1] = b'z';
    assert_eq!(disk_name(&bad), "\u{fffd}z");
}

#[test]
fn identity_labels_in_order() {
    let id = CompoundIdentity::Nvme(named(b"nvme0n1", 0x01));
    assert_eq!(
        id.labels(),
        vec![
            ("disk".to_string(), "nvme0n1".to_string()),
            ("operation".to_string(), "nvme_cmd_write".to_string())
        ]
    );
}
