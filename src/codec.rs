//! Identities of latency series and their fixed-width byte encoding, with the
//! label names and values they are exported under.

use vstd::prelude::*;

verus! {

/// Identity of a block device: its major and minor numbers.
#[derive(Clone, Copy, Debug, PartialEq, Eq, Structural, Hash)]
pub struct DiskLatencyHistogramKey {
    pub major: i32,
    pub minor: i32,
}

/// Identity of an NVMe series: the first 31 bytes hold the disk name (NUL
/// padded), the last byte the command's opcode.
#[derive(Clone, Copy, Debug, PartialEq, Eq, Hash)]
pub struct NvneHistogramKey {
    pub opaque: [u8; 32],
}

/// The identity a latency series is kept under.
#[derive(Clone, Copy, Debug)]
pub enum CompoundIdentity {
    Disk(DiskLatencyHistogramKey),
    Nvme(NvneHistogramKey),
}

/// Length of the disk name field of an NVMe identity.
pub const DISK_NAME_LEN: usize = 31;

/// Little-endian bytes of the two's complement form of `x`.
pub open spec fn i32_le_bytes(x: i32) -> Seq<u8> {
    let u = x as u32;
    seq![(u & 0xff) as u8, ((u >> 8) & 0xff) as u8, ((u >> 16) & 0xff) as u8, (u >> 24) as u8]
}

/// The `i32` whose little-endian bytes are `b[at..at + 4]`.
pub open spec fn i32_from_le(b: Seq<u8>, at: int) -> i32 {
    ((b[at] as u32) | ((b[at + 1] as u32) << 8) | ((b[at + 2] as u32) << 16) | ((b[at + 3] as u32)
        << 24)) as i32
}

/// The bytes an identity is stored under: 8 bytes for a disk (major then
/// minor, little-endian), the 32 opaque bytes for an NVMe identity.
pub open spec fn encoding(id: CompoundIdentity) -> Seq<u8> {
    match id {
        CompoundIdentity::Disk(d) => i32_le_bytes(d.major) + i32_le_bytes(d.minor),
        CompoundIdentity::Nvme(n) => n.opaque@,
    }
}

/// The identity stored under `b`, if `b` has the length of an encoding.
pub open spec fn decoding(b: Seq<u8>) -> Option<CompoundIdentity> {
    if b.len() == 8 {
        Some(
            CompoundIdentity::Disk(
                DiskLatencyHistogramKey { major: i32_from_le(b, 0), minor: i32_from_le(b, 4) },
            ),
        )
    } else if b.len() == 32 {
        Some(
            CompoundIdentity::Nvme(
                NvneHistogramKey { opaque: choose|a: [u8; 32]| #[trigger] a@ == b },
            ),
        )
    } else {
        None
    }
}

proof fn lemma_i32_bytes(x: i32)
    ensures
        i32_from_le(i32_le_bytes(x), 0) == x,
{
    let u = x as u32;
    let b0 = (u & 0xff) as u8;
    let b1 = ((u >> 8) & 0xff) as u8;
    let b2 = ((u >> 16) & 0xff) as u8;
    let b3 = (u >> 24) as u8;
    assert(((b0 as u32) | ((b1 as u32) << 8) | ((b2 as u32) << 16) | ((b3 as u32) << 24)) == u)
        by (bit_vector)
        requires
            b0 == (u & 0xff) as u8,
            b1 == ((u >> 8) & 0xff) as u8,
            b2 == ((u >> 16) & 0xff) as u8,
            b3 == (u >> 24) as u8,
    ;
    assert((x as u32) as i32 == x) by (bit_vector);
}

/// Decoding the encoding of any identity gives the identity back.
pub proof fn lemma_decode_encode(id: CompoundIdentity)
    ensures
        decoding(encoding(id)) == Some(id),
{
    match id {
        CompoundIdentity::Disk(d) => {
            let b = encoding(id);
            lemma_i32_bytes(d.major);
            lemma_i32_bytes(d.minor);
            assert(b.subrange(4, 8) =~= i32_le_bytes(d.minor));
            assert(i32_from_le(b, 0) == i32_from_le(i32_le_bytes(d.major), 0));
            assert(i32_from_le(b, 4) == i32_from_le(i32_le_bytes(d.minor), 0));
        },
        CompoundIdentity::Nvme(n) => {
            let a = choose|a: [u8; 32]| #[trigger] a@ == n.opaque@;
            assert(a =~= n.opaque);
        },
    }
}

/// Distinct identities never share an encoding.
pub proof fn lemma_encoding_injective(a: CompoundIdentity, b: CompoundIdentity)
    requires
        encoding(a) == encoding(b),
    ensures
        a == b,
{
    lemma_decode_encode(a);
    lemma_decode_encode(b);
}

impl NvneHistogramKey {
    /// The identity of commands with `opcode` on the disk named by the first
    /// 31 bytes of `disk`; the last byte of `disk` is replaced by `opcode`.
    pub fn new(disk: [u8; 32], opcode: u8) -> (r: Self)
        ensures
            r.opaque@ == disk@.update(31, opcode),
    {
        let mut opaque = disk;
        opaque[31] = opcode;
        NvneHistogramKey { opaque }
    }
}

fn push_i32_le(out: &mut Vec<u8>, x: i32)
    ensures
        final(out)@ == old(out)@ + i32_le_bytes(x),
{
    let u = x as u32;
    out.push((u & 0xff) as u8);
    out.push(((u >> 8) & 0xff) as u8);
    out.push(((u >> 16) & 0xff) as u8);
    out.push((u >> 24) as u8);
    assert(final(out)@ =~= old(out)@ + i32_le_bytes(x));
}

fn read_i32_le(b: &Vec<u8>, at: usize) -> (r: i32)
    requires
        at <= 4,
        b@.len() == 8,
    ensures
        r == i32_from_le(b@, at as int),
{
    let b0 = b[at] as u32;
    let b1 = b[at + 1] as u32;
    let b2 = b[at + 2] as u32;
    let b3 = b[at + 3] as u32;
    (b0 | (b1 << 8) | (b2 << 16) | (b3 << 24)) as i32
}

impl CompoundIdentity {
    /// The fixed-width bytes this identity is stored under.
    pub fn encode(&self) -> (r: Vec<u8>)
        ensures
            r@ == encoding(*self),
    {
        let mut out: Vec<u8> = Vec::new();
        match self {
            CompoundIdentity::Disk(d) => {
                push_i32_le(&mut out, d.major);
                push_i32_le(&mut out, d.minor);
            },
            CompoundIdentity::Nvme(n) => {
                let mut i: usize = 0;
                while i < 32
                    invariant
                        i <= 32,
                        out@ == n.opaque@.take(i as int),
                    decreases 32 - i,
                {
                    out.push(n.opaque[i]);
                    i = i + 1;
                    assert(out@ =~= n.opaque@.take(i as int));
                }
                assert(n.opaque@.take(32) =~= n.opaque@);
            },
        }
        out
    }

    /// The identity stored under `bytes`; `None` when `bytes` has neither
    /// the length of a disk encoding (8) nor of an NVMe encoding (32).
    pub fn decode(bytes: &Vec<u8>) -> (r: Option<CompoundIdentity>)
        ensures
            r == decoding(bytes@),
    {
        if bytes.len() == 8 {
            let major = read_i32_le(bytes, 0);
            let minor = read_i32_le(bytes, 4);
            Some(CompoundIdentity::Disk(DiskLatencyHistogramKey { major, minor }))
        } else if bytes.len() == 32 {
            let mut opaque = [0u8; 32];
            let mut i: usize = 0;
            while i < 32
                invariant
                    i <= 32,
                    bytes@.len() == 32,
                    forall|j: int| 0 <= j < i ==> opaque@[j] == bytes@[j],
                decreases 32 - i,
            {
                opaque[i] = bytes[i];
                i = i + 1;
            }
            assert(opaque@ =~= bytes@);
            proof {
                let a = choose|a: [u8; 32]| #[trigger] a@ == bytes@;
                assert(a =~= opaque);
            }
            Some(CompoundIdentity::Nvme(NvneHistogramKey { opaque }))
        } else {
            None
        }
    }
}

} // verus!
