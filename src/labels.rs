//! Label names and values under which identities are exported.

use vstd::prelude::*;
use crate::codec::{CompoundIdentity, DiskLatencyHistogramKey, NvneHistogramKey, DISK_NAME_LEN};

verus! {

/// What `String::from_utf8_lossy` makes of `b`: its text, with each invalid
/// sequence replaced by U+FFFD.
pub uninterp spec fn utf8_lossy(b: Seq<u8>) -> Seq<char>;

/// Relies on `String::from_utf8_lossy`: the text of `b`, invalid sequences
/// replaced; it depends on the bytes alone, and no bytes give no text.
#[verifier::external_body]
fn lossy_text(b: &[u8]) -> (r: String)
    ensures
        r@ == utf8_lossy(b@),
        b@.len() == 0 ==> r@.len() == 0,
{
    String::from_utf8_lossy(b).into_owned()
}

/// The decimal digit `d`.
pub open spec fn digit_char(d: nat) -> char {
    if d == 0 {
        '0'
    } else if d == 1 {
        '1'
    } else if d == 2 {
        '2'
    } else if d == 3 {
        '3'
    } else if d == 4 {
        '4'
    } else if d == 5 {
        '5'
    } else if d == 6 {
        '6'
    } else if d == 7 {
        '7'
    } else if d == 8 {
        '8'
    } else {
        '9'
    }
}

/// Decimal digits of `n`, most significant first, without leading zeros.
pub open spec fn digits(n: nat) -> Seq<char>
    decreases n,
{
    if n < 10 {
        seq![digit_char(n)]
    } else {
        digits(n / 10).push(digit_char(n % 10))
    }
}

/// Decimal text of `x`, with a leading `-` when negative.
pub open spec fn decimal(x: int) -> Seq<char> {
    if x < 0 {
        seq!['-'] + digits((-x) as nat)
    } else {
        digits(x as nat)
    }
}

/// The hexadecimal digit `d` (lower case).
pub open spec fn hex_char(d: nat) -> char {
    if d < 10 {
        digit_char(d)
    } else if d == 10 {
        'a'
    } else if d == 11 {
        'b'
    } else if d == 12 {
        'c'
    } else if d == 13 {
        'd'
    } else if d == 14 {
        'e'
    } else {
        'f'
    }
}

/// The label of an NVMe opcode: its command name, or `unknown_0x` followed by
/// its two hexadecimal digits when the code has no name.
pub open spec fn opcode_label(op: u8) -> Seq<char> {
    if op == 0x00 {
        "nvme_cmd_flush"@
    } else if op == 0x01 {
        "nvme_cmd_write"@
    } else if op == 0x02 {
        "nvme_cmd_read"@
    } else if op == 0x04 {
        "nvme_cmd_write_uncor"@
    } else if op == 0x05 {
        "nvme_cmd_compare"@
    } else if op == 0x08 {
        "nvme_cmd_write_zeroes"@
    } else if op == 0x09 {
        "nvme_cmd_dsm"@
    } else if op == 0x0d {
        "nvme_cmd_resv_register"@
    } else if op == 0x0e {
        "nvme_cmd_resv_report"@
    } else if op == 0x11 {
        "nvme_cmd_resv_acquire"@
    } else if op == 0x15 {
        "nvme_cmd_resv_release"@
    } else {
        "unknown_0x"@ + seq![hex_char(op as nat / 16), hex_char(op as nat % 16)]
    }
}

/// Where the disk name of an NVMe identity ends: at its first NUL byte at or
/// after `i`, or at the end of the name field.
pub open spec fn name_end(o: Seq<u8>, i: nat) -> nat
    decreases DISK_NAME_LEN - i,
{
    if i >= DISK_NAME_LEN || o[i as int] == 0 {
        i
    } else {
        name_end(o, i + 1)
    }
}

/// The disk name bytes of an NVMe identity: the name field up to its first
/// NUL byte.
pub open spec fn name_bytes(o: Seq<u8>) -> Seq<u8> {
    o.take(name_end(o, 0) as int)
}

fn digit_str(d: u64) -> (r: &'static str)
    requires
        d < 10,
    ensures
        r@ == seq![digit_char(d as nat)],
{
    if d == 0 {
        proof { reveal_strlit("0"); }
        "0"
    } else if d == 1 {
        proof { reveal_strlit("1"); }
        "1"
    } else if d == 2 {
        proof { reveal_strlit("2"); }
        "2"
    } else if d == 3 {
        proof { reveal_strlit("3"); }
        "3"
    } else if d == 4 {
        proof { reveal_strlit("4"); }
        "4"
    } else if d == 5 {
        proof { reveal_strlit("5"); }
        "5"
    } else if d == 6 {
        proof { reveal_strlit("6"); }
        "6"
    } else if d == 7 {
        proof { reveal_strlit("7"); }
        "7"
    } else if d == 8 {
        proof { reveal_strlit("8"); }
        "8"
    } else {
        proof { reveal_strlit("9"); }
        "9"
    }
}

fn hex_str(d: u8) -> (r: &'static str)
    requires
        d < 16,
    ensures
        r@ == seq![hex_char(d as nat)],
{
    if d < 10 {
        digit_str(d as u64)
    } else if d == 10 {
        proof { reveal_strlit("a"); }
        "a"
    } else if d == 11 {
        proof { reveal_strlit("b"); }
        "b"
    } else if d == 12 {
        proof { reveal_strlit("c"); }
        "c"
    } else if d == 13 {
        proof { reveal_strlit("d"); }
        "d"
    } else if d == 14 {
        proof { reveal_strlit("e"); }
        "e"
    } else {
        proof { reveal_strlit("f"); }
        "f"
    }
}

fn push_digits(s: &mut String, n: u64)
    ensures
        final(s)@ == old(s)@ + digits(n as nat),
    decreases n,
{
    if n >= 10 {
        push_digits(s, n / 10);
    }
    s.append(digit_str(n % 10));
    assert(final(s)@ =~= old(s)@ + digits(n as nat));
}

/// Decimal text of `x`.
pub fn decimal_text(x: i32) -> (r: String)
    ensures
        r@ == decimal(x as int),
{
    let mut s = String::new();
    if x < 0 {
        s.append("-");
        proof { reveal_strlit("-"); }
        let m: i64 = x as i64;
        push_digits(&mut s, (-m) as u64);
        assert(s@ =~= decimal(x as int));
    } else {
        push_digits(&mut s, x as u64);
        assert(s@ =~= decimal(x as int));
    }
    s
}

/// The label of NVMe opcode `op`; a code without a name gets a placeholder
/// that still tells it apart.
pub fn opcode_name(op: u8) -> (r: String)
    ensures
        r@ == opcode_label(op),
{
    if op == 0x00 {
        String::from_str("nvme_cmd_flush")
    } else if op == 0x01 {
        String::from_str("nvme_cmd_write")
    } else if op == 0x02 {
        String::from_str("nvme_cmd_read")
    } else if op == 0x04 {
        String::from_str("nvme_cmd_write_uncor")
    } else if op == 0x05 {
        String::from_str("nvme_cmd_compare")
    } else if op == 0x08 {
        String::from_str("nvme_cmd_write_zeroes")
    } else if op == 0x09 {
        String::from_str("nvme_cmd_dsm")
    } else if op == 0x0d {
        String::from_str("nvme_cmd_resv_register")
    } else if op == 0x0e {
        String::from_str("nvme_cmd_resv_report")
    } else if op == 0x11 {
        String::from_str("nvme_cmd_resv_acquire")
    } else if op == 0x15 {
        String::from_str("nvme_cmd_resv_release")
    } else {
        let mut s = String::from_str("unknown_0x");
        s.append(hex_str(op / 16));
        s.append(hex_str(op % 16));
        assert(s@ =~= opcode_label(op));
        s
    }
}

/// The disk name of an NVMe identity's bytes, as text.
pub fn disk_name(opaque: &[u8; 32]) -> (r: String)
    ensures
        r@ == utf8_lossy(name_bytes(opaque@)),
{
    let mut i: usize = 0;
    while i < DISK_NAME_LEN && opaque[i] != 0
        invariant
            i <= DISK_NAME_LEN,
            name_end(opaque@, i as nat) == name_end(opaque@, 0),
        decreases DISK_NAME_LEN - i,
    {
        i = i + 1;
    }
    let mut name: Vec<u8> = Vec::new();
    let mut j: usize = 0;
    while j < i
        invariant
            j <= i <= DISK_NAME_LEN,
            name@ == opaque@.take(j as int),
        decreases i - j,
    {
        name.push(opaque[j]);
        j = j + 1;
        assert(name@ =~= opaque@.take(j as int));
    }
    lossy_text(name.as_slice())
}

impl DiskLatencyHistogramKey {
    /// The label names of a disk series: `major`, `minor`.
    pub fn get_label_keys() -> (r: Vec<String>)
        ensures
            r@.len() == 2,
            r@[0]@ == "major"@,
            r@[1]@ == "minor"@,
    {
        let mut r: Vec<String> = Vec::new();
        r.push(String::from_str("major"));
        r.push(String::from_str("minor"));
        r
    }

    /// The label values of a disk series: its major and minor numbers in
    /// decimal.
    pub fn get_label_values(&self) -> (r: Vec<String>)
        ensures
            r@.len() == 2,
            r@[0]@ == decimal(self.major as int),
            r@[1]@ == decimal(self.minor as int),
    {
        let mut r: Vec<String> = Vec::new();
        r.push(decimal_text(self.major));
        r.push(decimal_text(self.minor));
        r
    }
}

impl NvneHistogramKey {
    /// The label names of an NVMe series: `disk`, `operation`.
    pub fn get_label_keys() -> (r: Vec<String>)
        ensures
            r@.len() == 2,
            r@[0]@ == "disk"@,
            r@[1]@ == "operation"@,
    {
        let mut r: Vec<String> = Vec::new();
        r.push(String::from_str("disk"));
        r.push(String::from_str("operation"));
        r
    }

    /// The label values of an NVMe series: the disk name, up to its first
    /// NUL byte, and the opcode's label.
    pub fn get_label_values(&self) -> (r: Vec<String>)
        ensures
            r@.len() == 2,
            r@[0]@ == utf8_lossy(name_bytes(self.opaque@)),
            r@[1]@ == opcode_label(self.opaque@[31]),
    {
        let mut r: Vec<String> = Vec::new();
        r.push(disk_name(&self.opaque));
        r.push(opcode_name(self.opaque[31]));
        r
    }
}

/// Label names and values of an identity, as `(name, value)` pairs in order.
pub open spec fn identity_labels(id: CompoundIdentity) -> Seq<(Seq<char>, Seq<char>)> {
    match id {
        CompoundIdentity::Disk(d) => seq![
            ("major"@, decimal(d.major as int)),
            ("minor"@, decimal(d.minor as int)),
        ],
        CompoundIdentity::Nvme(n) => seq![
            ("disk"@, utf8_lossy(name_bytes(n.opaque@))),
            ("operation"@, opcode_label(n.opaque@[31])),
        ],
    }
}

/// The text of each pair of `v`.
pub open spec fn pair_views(v: Seq<(String, String)>) -> Seq<(Seq<char>, Seq<char>)> {
    v.map_values(|p: (String, String)| (p.0@, p.1@))
}

impl CompoundIdentity {
    /// The identity's labels, as `(name, value)` pairs in order.
    pub fn labels(&self) -> (r: Vec<(String, String)>)
        ensures
            pair_views(r@) == identity_labels(*self),
    {
        let (keys, values) = match self {
            CompoundIdentity::Disk(d) => (DiskLatencyHistogramKey::get_label_keys(), d.get_label_values()),
            CompoundIdentity::Nvme(n) => (NvneHistogramKey::get_label_keys(), n.get_label_values()),
        };
        let mut keys = keys;
        let mut values = values;
        let v1 = values.pop().unwrap();
        let v0 = values.pop().unwrap();
        let k1 = keys.pop().unwrap();
        let k0 = keys.pop().unwrap();
        let mut r: Vec<(String, String)> = Vec::new();
        r.push((k0, v0));
        r.push((k1, v1));
        assert(pair_views(r@) =~= identity_labels(*self));
        r
    }
}

} // verus!
