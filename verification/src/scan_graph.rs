//! Scan graph: scans (point clouds taken at a pose) as nodes, pose
//! constraints between them as edges, and the binary record format of nodes,
//! edges and whole graphs. Every `f64` is carried as its IEEE-754 bit
//! pattern, so the library moves and compares them without float arithmetic.

use vstd::prelude::*;
use base64::Engine;
use vstd::std_specs::cmp::PartialEqSpecImpl;

verus! {

/// IEEE-754 bit pattern of an `f64`.
pub type F64Bits = u64;

/// Bit pattern of `1.0`.
pub const ONE_BITS: F64Bits = 0x3FF0_0000_0000_0000;

/// A 6D pose: translation `(x, y, z)` and a rotation quaternion in the
/// order `(u, x, y, z)`, `u` being the real part.
#[derive(Clone, Copy, Debug)]
pub struct PoseBits {
    pub trans: [F64Bits; 3],
    pub rot: [F64Bits; 4],
}

/// A point cloud: the points and the inverse of the last transform applied.
#[derive(Debug)]
pub struct PointcloudBits {
    pub points: Vec<[F64Bits; 3]>,
    pub current_inv_transform: PoseBits,
}

/// The bytes of `v`, least significant first.
pub open spec fn le_u64(v: u64) -> Seq<u8> {
    seq![
        v as u8,
        (v >> 8u64) as u8,
        (v >> 16u64) as u8,
        (v >> 24u64) as u8,
        (v >> 32u64) as u8,
        (v >> 40u64) as u8,
        (v >> 48u64) as u8,
        (v >> 56u64) as u8,
    ]
}

/// The bytes of `v`, least significant first.
pub open spec fn le_u32(v: u32) -> Seq<u8> {
    seq![v as u8, (v >> 8u32) as u8, (v >> 16u32) as u8, (v >> 24u32) as u8]
}

/// The `u64` whose little-endian bytes are `b[0..8]`.
pub open spec fn u64_of_le(b: Seq<u8>) -> u64 {
    (b[0] as u64) | ((b[1] as u64) << 8u64) | ((b[2] as u64) << 16u64) | ((b[3] as u64) << 24u64) | ((
    b[4] as u64) << 32u64) | ((b[5] as u64) << 40u64) | ((b[6] as u64) << 48u64) | ((b[7] as u64) << 56u64)
}

/// The `u32` whose little-endian bytes are `b[0..4]`.
pub open spec fn u32_of_le(b: Seq<u8>) -> u32 {
    (b[0] as u32) | ((b[1] as u32) << 8u32) | ((b[2] as u32) << 16u32) | ((b[3] as u32) << 24u32)
}

proof fn lemma_le_u64_roundtrip(v: u64)
    ensures
        u64_of_le(le_u64(v)) == v,
{
    let b = le_u64(v);
    assert((v as u8) as u64 | (((v >> 8u64) as u8) as u64) << 8u64 | (((v >> 16u64) as u8) as u64) << 16u64
        | (((v >> 24u64) as u8) as u64) << 24u64 | (((v >> 32u64) as u8) as u64) << 32u64 | (((v >> 40u64) as u8) as u64)
        << 40u64 | (((v >> 48u64) as u8) as u64) << 48u64 | (((v >> 56u64) as u8) as u64) << 56u64 == v) by (bit_vector);
}

proof fn lemma_le_u32_roundtrip(v: u32)
    ensures
        u32_of_le(le_u32(v)) == v,
{
    assert((v as u8) as u32 | (((v >> 8u32) as u8) as u32) << 8u32 | (((v >> 16u32) as u8) as u32) << 16u32
        | (((v >> 24u32) as u8) as u32) << 24u32 == v) by (bit_vector);
}

/// Appends the little-endian bytes of `v`.
fn push_u64_le(out: &mut Vec<u8>, v: u64)
    ensures
        final(out)@ == old(out)@ + le_u64(v),
{
    out.push(v as u8);
    out.push((v >> 8u64) as u8);
    out.push((v >> 16u64) as u8);
    out.push((v >> 24u64) as u8);
    out.push((v >> 32u64) as u8);
    out.push((v >> 40u64) as u8);
    out.push((v >> 48u64) as u8);
    out.push((v >> 56u64) as u8);
    proof {
        assert(out@ =~= old(out)@ + le_u64(v));
    }
}

/// Appends the little-endian bytes of `v`.
fn push_u32_le(out: &mut Vec<u8>, v: u32)
    ensures
        final(out)@ == old(out)@ + le_u32(v),
{
    out.push(v as u8);
    out.push((v >> 8u32) as u8);
    out.push((v >> 16u32) as u8);
    out.push((v >> 24u32) as u8);
    proof {
        assert(out@ =~= old(out)@ + le_u32(v));
    }
}

/// The `u64` stored little-endian at `data[pos..pos + 8]`.
fn read_u64_le(data: &[u8], pos: usize) -> (v: u64)
    requires
        pos + 8 <= data@.len(),
    ensures
        v == u64_of_le(data@.subrange(pos as int, pos + 8)),
{
    (data[pos] as u64) | ((data[pos + 1] as u64) << 8u64) | ((data[pos + 2] as u64) << 16u64) | ((data[pos + 3] as u64)
        << 24u64) | ((data[pos + 4] as u64) << 32u64) | ((data[pos + 5] as u64) << 40u64) | ((data[pos + 6] as u64)
        << 48u64) | ((data[pos + 7] as u64) << 56u64)
}

/// The `u32` stored little-endian at `data[pos..pos + 4]`.
fn read_u32_le(data: &[u8], pos: usize) -> (v: u32)
    requires
        pos + 4 <= data@.len(),
    ensures
        v == u32_of_le(data@.subrange(pos as int, pos + 4)),
{
    (data[pos] as u32) | ((data[pos + 1] as u32) << 8u32) | ((data[pos + 2] as u32) << 16u32) | ((data[pos + 3] as u32)
        << 24u32)
}

/// Text (ASCII bytes) of the standard, padded base64 encoding of `data`,
/// as the `base64` crate's `general_purpose::STANDARD` engine writes it.
pub uninterp spec fn base64_standard_encoding(data: Seq<u8>) -> Seq<u8>;

/// Bytes that the standard, padded base64 text `text` decodes to, or `None`
/// when the `STANDARD` engine refuses it.
pub uninterp spec fn base64_standard_decoding(text: Seq<u8>) -> Option<Seq<u8>>;

#[verifier::external_type_specification]
#[verifier::external_body]
pub struct ExBase64DecodeError(base64::DecodeError);

/// Calls `base64::engine::general_purpose::STANDARD.encode` and returns the
/// text's bytes. The contract names the result and claims that decoding it
/// with the same engine gives `data` back, which holds because the engine
/// writes canonical, padded text.
#[verifier::external_body]
fn base64_encode(data: &[u8]) -> (text: Vec<u8>)
    ensures
        text@ == base64_standard_encoding(data@),
        base64_standard_decoding(text@) == Some(data@),
{
    base64::engine::general_purpose::STANDARD.encode(data).into_bytes()
}

/// Calls `base64::engine::general_purpose::STANDARD.decode`. The contract
/// ties the result to the name `base64_standard_decoding`, and claims that
/// empty text decodes to no bytes, which the engine allows explicitly.
#[verifier::external_body]
fn base64_decode(text: &[u8]) -> (r: Result<Vec<u8>, base64::DecodeError>)
    ensures
        match r {
            Ok(data) => base64_standard_decoding(text@) == Some(data@) && (text@.len() == 0 ==> data@.len() == 0),
            Err(_) => base64_standard_decoding(text@) is None && text@.len() != 0,
        },
{
    base64::engine::general_purpose::STANDARD.decode(text)
}

/// Why a record could not be read.
#[derive(Debug, PartialEq, Eq)]
pub enum ScanReadError {
    /// The text is not standard base64.
    InvalidBase64,
    /// The bytes ran out before the record was complete.
    UnexpectedEof,
    /// An edge names a node id that the graph does not hold.
    NodeNotFound,
}

/// A scan taken at `pose`, with an id that is unique within its graph.
#[derive(Debug)]
pub struct ScanNode {
    pub scan: Option<PointcloudBits>,
    pub pose: PoseBits,
    pub id: u32,
}

/// A constraint `constraint` between the nodes with ids `first` and
/// `second`, with a weight.
#[derive(Clone, Copy, Debug)]
pub struct ScanEdge {
    pub first: u32,
    pub second: u32,
    pub constraint: PoseBits,
    pub weight: F64Bits,
}

/// Bytes of a sequence of words, each little-endian, one after the other.
pub open spec fn words_bytes(ws: Seq<u64>) -> Seq<u8>
    decreases ws.len(),
{
    if ws.len() == 0 {
        seq![]
    } else {
        words_bytes(ws.drop_last()) + le_u64(ws.last())
    }
}

/// The seven words of a pose: translation x, y, z, then rotation u, x, y, z.
pub open spec fn pose_words(p: PoseBits) -> Seq<u64> {
    p.trans@ + p.rot@
}

/// Bytes of a pose.
pub open spec fn pose_bytes(p: PoseBits) -> Seq<u8> {
    words_bytes(pose_words(p))
}

/// Bytes of a point: x, y, z.
pub open spec fn point_bytes(q: [F64Bits; 3]) -> Seq<u8> {
    words_bytes(q@)
}

/// Bytes of a sequence of points, one after the other.
pub open spec fn points_bytes(pts: Seq<[F64Bits; 3]>) -> Seq<u8>
    decreases pts.len(),
{
    if pts.len() == 0 {
        seq![]
    } else {
        points_bytes(pts.drop_last()) + point_bytes(pts.last())
    }
}

/// Binary record of a node before base64: when it has a scan, the point
/// count as a `u64` and the points; then the pose and the id.
pub open spec fn node_payload(n: ScanNode) -> Seq<u8> {
    (match n.scan {
        Some(pc) => le_u64(pc.points.len() as u64) + points_bytes(pc.points@),
        None => seq![],
    }) + pose_bytes(n.pose) + le_u32(n.id)
}

/// Binary record of an edge before base64: the two node ids, the
/// constraint and the weight.
pub open spec fn edge_payload(e: ScanEdge) -> Seq<u8> {
    le_u32(e.first) + le_u32(e.second) + pose_bytes(e.constraint) + le_u64(e.weight)
}

/// Appends the bytes of the words `ws`.
fn push_words(out: &mut Vec<u8>, ws: &[u64])
    ensures
        final(out)@ == old(out)@ + words_bytes(ws@),
{
    let mut i: usize = 0;
    while i < ws.len()
        invariant
            i <= ws@.len(),
            out@ == old(out)@ + words_bytes(ws@.subrange(0, i as int)),
        decreases ws.len() - i,
    {
        proof {
            assert(ws@.subrange(0, i + 1).drop_last() =~= ws@.subrange(0, i as int));
        }
        push_u64_le(out, ws[i]);
        i += 1;
        proof {
            assert(out@ =~= old(out)@ + words_bytes(ws@.subrange(0, i as int)));
        }
    }
    proof {
        assert(ws@.subrange(0, i as int) =~= ws@);
    }
}

/// Appends the bytes of a pose.
fn push_pose(out: &mut Vec<u8>, p: &PoseBits)
    ensures
        final(out)@ == old(out)@ + pose_bytes(*p),
{
    let ws = [p.trans[0], p.trans[1], p.trans[2], p.rot[0], p.rot[1], p.rot[2], p.rot[3]];
    proof {
        assert(ws@ =~= pose_words(*p));
    }
    push_words(out, ws.as_slice());
}

/// The `u64` stored little-endian at `d[pos..pos + 8]`.
pub open spec fn u64_at(d: Seq<u8>, pos: int) -> u64 {
    u64_of_le(d.subrange(pos, pos + 8))
}

/// The `u32` stored little-endian at `d[pos..pos + 4]`.
pub open spec fn u32_at(d: Seq<u8>, pos: int) -> u32 {
    u32_of_le(d.subrange(pos, pos + 4))
}

/// The three words of a point stored at `d[pos..pos + 24]`.
pub open spec fn point_at(d: Seq<u8>, pos: int) -> Seq<F64Bits> {
    seq![u64_at(d, pos), u64_at(d, pos + 8), u64_at(d, pos + 16)]
}

/// Whether `p` is the pose stored at `d[pos..pos + 56]`.
pub open spec fn pose_at(p: PoseBits, d: Seq<u8>, pos: int) -> bool {
    &&& p.trans@ == seq![u64_at(d, pos), u64_at(d, pos + 8), u64_at(d, pos + 16)]
    &&& p.rot@ == seq![u64_at(d, pos + 24), u64_at(d, pos + 32), u64_at(d, pos + 40), u64_at(d, pos + 48)]
}

/// The identity pose: no translation, rotation `(1, 0, 0, 0)`.
pub open spec fn is_identity_pose(p: PoseBits) -> bool {
    p.trans@ == seq![0u64, 0u64, 0u64] && p.rot@ == seq![ONE_BITS, 0u64, 0u64, 0u64]
}

/// Point count at the head of a decoded node record; 0 when the record is
/// too short to hold one.
pub open spec fn stored_point_count(d: Seq<u8>) -> nat {
    if d.len() >= 8 { u64_at(d, 0) as nat } else { 0 }
}

/// Whether the decoded node record holds all the points it announces.
pub open spec fn points_complete(d: Seq<u8>) -> bool {
    d.len() >= 8 && 8 + 24 * stored_point_count(d) <= d.len()
}

/// Number of whole points that a node read takes from `d`.
pub open spec fn readable_points(d: Seq<u8>) -> nat {
    if d.len() < 8 {
        0
    } else if points_complete(d) {
        stored_point_count(d)
    } else {
        ((d.len() - 8) / 24) as nat
    }
}

/// Offset of the pose in a decoded node record whose points are complete.
pub open spec fn node_pose_offset(d: Seq<u8>) -> int {
    8 + 24 * (stored_point_count(d) as int)
}

impl PoseBits {
    /// The identity pose.
    pub fn identity() -> (p: Self)
        ensures
            is_identity_pose(p),
    {
        let p = PoseBits { trans: [0, 0, 0], rot: [ONE_BITS, 0, 0, 0] };
        proof {
            assert(p.trans@ =~= seq![0u64, 0u64, 0u64]);
            assert(p.rot@ =~= seq![ONE_BITS, 0u64, 0u64, 0u64]);
        }
        p
    }
}

impl PointcloudBits {
    /// An empty point cloud whose inverse transform is the identity.
    pub fn new() -> (pc: Self)
        ensures
            pc.points@.len() == 0,
            is_identity_pose(pc.current_inv_transform),
    {
        PointcloudBits { points: Vec::new(), current_inv_transform: PoseBits::identity() }
    }
}

/// Whether `a` is a NaN bit pattern: all exponent bits set, fraction not 0.
pub open spec fn f64_is_nan(a: F64Bits) -> bool {
    (a & 0x7FF0_0000_0000_0000u64) == 0x7FF0_0000_0000_0000u64 && (a & 0x000F_FFFF_FFFF_FFFFu64) != 0
}

/// Whether `a` is `+0.0` or `-0.0`.
pub open spec fn f64_is_zero(a: F64Bits) -> bool {
    (a & 0x7FFF_FFFF_FFFF_FFFFu64) == 0
}

/// IEEE-754 equality of two `f64`s given by their bits: NaN equals
/// nothing, the two zeros are equal, other values are equal when their bits
/// are.
pub open spec fn f64_eq(a: F64Bits, b: F64Bits) -> bool {
    (a == b && !f64_is_nan(a)) || (f64_is_zero(a) && f64_is_zero(b))
}

/// IEEE-754 equality of two `f64`s given by their bits.
pub fn f64_bits_eq(a: F64Bits, b: F64Bits) -> (r: bool)
    ensures
        r == f64_eq(a, b),
{
    let a_nan = (a & 0x7FF0_0000_0000_0000u64) == 0x7FF0_0000_0000_0000u64 && (a & 0x000F_FFFF_FFFF_FFFFu64) != 0;
    let a_zero = (a & 0x7FFF_FFFF_FFFF_FFFFu64) == 0;
    let b_zero = (b & 0x7FFF_FFFF_FFFF_FFFFu64) == 0;
    (a == b && !a_nan) || (a_zero && b_zero)
}

/// The bits of `-a`: `a` with its sign bit flipped.
pub open spec fn f64_neg(a: F64Bits) -> F64Bits {
    a ^ 0x8000_0000_0000_0000u64
}

/// Equality of two rotations as unit quaternions: all four words are
/// IEEE-equal, or each word of `p` IEEE-equals the negation of `q`'s (a
/// quaternion and its negation are the same rotation).
pub open spec fn rot_eq(p: PoseBits, q: PoseBits) -> bool {
    ||| forall|i: int| 0 <= i < 4 ==> f64_eq(#[trigger] p.rot[i], q.rot[i])
    ||| forall|i: int| 0 <= i < 4 ==> f64_eq(#[trigger] p.rot[i], f64_neg(q.rot[i]))
}

/// Equality of two poses: the translations are IEEE-equal component by
/// component and the rotations are equal as unit quaternions (`rot_eq`).
pub open spec fn pose_eq(p: PoseBits, q: PoseBits) -> bool {
    &&& forall|i: int| 0 <= i < 3 ==> f64_eq(#[trigger] p.trans[i], q.trans[i])
    &&& rot_eq(p, q)
}

impl PartialEq for PoseBits {
    fn eq(&self, other: &Self) -> (r: bool) {
        let t = f64_bits_eq(self.trans[0], other.trans[0]) && f64_bits_eq(self.trans[1], other.trans[1])
            && f64_bits_eq(self.trans[2], other.trans[2]);
        let same = f64_bits_eq(self.rot[0], other.rot[0]) && f64_bits_eq(self.rot[1], other.rot[1])
            && f64_bits_eq(self.rot[2], other.rot[2]) && f64_bits_eq(self.rot[3], other.rot[3]);
        let sign: u64 = 0x8000_0000_0000_0000u64;
        let negated = f64_bits_eq(self.rot[0], other.rot[0] ^ sign) && f64_bits_eq(self.rot[1], other.rot[1] ^ sign)
            && f64_bits_eq(self.rot[2], other.rot[2] ^ sign) && f64_bits_eq(self.rot[3], other.rot[3] ^ sign);
        proof {
            assert(t == forall|i: int| 0 <= i < 3 ==> f64_eq(#[trigger] self.trans[i], other.trans[i])) by {
                if t {
                    assert forall|i: int| 0 <= i < 3 implies f64_eq(#[trigger] self.trans[i], other.trans[i]) by {
                        assert(i == 0 || i == 1 || i == 2);
                    }
                }
            }
            assert(same == forall|i: int| 0 <= i < 4 ==> f64_eq(#[trigger] self.rot[i], other.rot[i])) by {
                if same {
                    assert forall|i: int| 0 <= i < 4 implies f64_eq(#[trigger] self.rot[i], other.rot[i]) by {
                        assert(i == 0 || i == 1 || i == 2 || i == 3);
                    }
                }
            }
            assert(negated == forall|i: int| 0 <= i < 4 ==> f64_eq(#[trigger] self.rot[i], f64_neg(other.rot[i]))) by {
                if negated {
                    assert forall|i: int| 0 <= i < 4 implies f64_eq(#[trigger] self.rot[i], f64_neg(other.rot[i])) by {
                        assert(i == 0 || i == 1 || i == 2 || i == 3);
                    }
                }
            }
        }
        t && (same || negated)
    }
}

impl PartialEqSpecImpl for PoseBits {
    open spec fn obeys_eq_spec() -> bool {
        true
    }

    open spec fn eq_spec(&self, other: &Self) -> bool {
        pose_eq(*self, *other)
    }
}

/// A copy of the points.
fn copy_points(v: &Vec<[F64Bits; 3]>) -> (r: Vec<[F64Bits; 3]>)
    ensures
        r@ == v@,
{
    let mut r: Vec<[F64Bits; 3]> = Vec::new();
    let mut i: usize = 0;
    while i < v.len()
        invariant
            i <= v.len(),
            r@ == v@.subrange(0, i as int),
        decreases v.len() - i,
    {
        r.push(v[i]);
        i += 1;
        proof {
            assert(r@ =~= v@.subrange(0, i as int));
        }
    }
    proof {
        assert(v@.subrange(0, i as int) =~= v@);
    }
    r
}

/// Whether two point clouds hold the same points and inverse transform.
pub open spec fn same_cloud(a: PointcloudBits, b: PointcloudBits) -> bool {
    a.points@ == b.points@ && a.current_inv_transform == b.current_inv_transform
}

/// Whether two nodes hold the same scan, pose and id.
pub open spec fn same_node(a: ScanNode, b: ScanNode) -> bool {
    &&& a.pose == b.pose
    &&& a.id == b.id
    &&& match (a.scan, b.scan) {
        (None, None) => true,
        (Some(p), Some(q)) => same_cloud(p, q),
        _ => false,
    }
}

impl Clone for PointcloudBits {
    fn clone(&self) -> (r: Self)
        ensures
            same_cloud(r, *self),
    {
        PointcloudBits { points: copy_points(&self.points), current_inv_transform: self.current_inv_transform }
    }
}

/// Reads the pose stored at `data[pos..pos + 56]`.
fn read_pose(data: &[u8], pos: usize) -> (p: PoseBits)
    requires
        pos + 56 <= data.len(),
    ensures
        pose_at(p, data@, pos as int),
{
    let p = PoseBits {
        trans: [read_u64_le(data, pos), read_u64_le(data, pos + 8), read_u64_le(data, pos + 16)],
        rot: [
            read_u64_le(data, pos + 24),
            read_u64_le(data, pos + 32),
            read_u64_le(data, pos + 40),
            read_u64_le(data, pos + 48),
        ],
    };
    proof {
        assert(p.trans@ =~= seq![u64_at(data@, pos as int), u64_at(data@, pos + 8), u64_at(data@, pos + 16)]);
        assert(p.rot@ =~= seq![u64_at(data@, pos + 24), u64_at(data@, pos + 32), u64_at(data@, pos + 40), u64_at(data@, pos + 48)]);
    }
    p
}

/// Whether the decoded node record `d` holds all its announced points, a
/// pose and an id.
pub open spec fn node_record_complete(d: Seq<u8>) -> bool {
    points_complete(d) && node_pose_offset(d) + 60 <= d.len()
}

/// Whether `n`'s scan is the points read from the decoded node record `d`
/// (as many whole points as the record holds, up to the announced count),
/// with the identity inverse transform.
pub open spec fn node_points_read(n: ScanNode, d: Seq<u8>) -> bool {
    &&& n.scan is Some
    &&& is_identity_pose(n.scan.unwrap().current_inv_transform)
    &&& n.scan.unwrap().points@.len() == readable_points(d)
    &&& forall|j: int|
        0 <= j < readable_points(d) ==> (#[trigger] n.scan.unwrap().points@[j])@ == point_at(d, 8 + 24 * j)
}

/// Whether `n` holds what the complete decoded node record `d` holds.
pub open spec fn node_holds_record(n: ScanNode, d: Seq<u8>) -> bool {
    &&& node_points_read(n, d)
    &&& pose_at(n.pose, d, node_pose_offset(d))
    &&& n.id == u32_at(d, node_pose_offset(d) + 56)
}

/// What reading the decoded node record `d` does to a node that held
/// `prev`, leaving `next` and returning `r`: the scan becomes the points
/// read; the pose is replaced when all announced points and a whole pose
/// were there, then the id when four more bytes were; running out of bytes
/// at any step ends the read with `UnexpectedEof`, keeping what was read.
/// Bytes after the id are ignored.
pub open spec fn node_read_from(prev: ScanNode, d: Seq<u8>, next: ScanNode, r: Result<(), ScanReadError>) -> bool {
    if node_record_complete(d) {
        r is Ok && node_holds_record(next, d)
    } else {
        &&& r == Err::<(), ScanReadError>(ScanReadError::UnexpectedEof)
        &&& node_points_read(next, d)
        &&& next.id == prev.id
        &&& if points_complete(d) && node_pose_offset(d) + 56 <= d.len() {
            pose_at(next.pose, d, node_pose_offset(d))
        } else {
            next.pose == prev.pose
        }
    }
}

impl ScanNode {
    /// A node with the given scan, pose and id.
    pub fn new(scan: Option<PointcloudBits>, pose: PoseBits, id: u32) -> (n: Self)
        ensures
            n.scan == scan,
            n.pose == pose,
            n.id == id,
    {
        ScanNode { scan, pose, id }
    }

    /// A node with no scan, the identity pose and id 0.
    pub fn default() -> (n: Self)
        ensures
            n.scan is None,
            is_identity_pose(n.pose),
            n.id == 0,
    {
        ScanNode { scan: None, pose: PoseBits::identity(), id: 0 }
    }

    /// Reads a base64 node record (the text's bytes) into this node, as
    /// `node_read_from` describes. Text that is not standard base64 leaves
    /// the node as it was; empty text decodes to an empty record. The rotation
    /// is kept as read, without normalising (see `read_record`).
    pub fn read_binary(&mut self, encoded: &[u8]) -> (r: Result<(), ScanReadError>)
        ensures
            match base64_standard_decoding(encoded@) {
                None => r == Err::<(), ScanReadError>(ScanReadError::InvalidBase64) && *final(self) == *old(self),
                Some(d) => node_read_from(*old(self), d, *final(self), r),
            },
            encoded@.len() == 0 ==> r == Err::<(), ScanReadError>(ScanReadError::UnexpectedEof),
    {
        match base64_decode(encoded) {
            Ok(decoded) => self.read_record(decoded.as_slice()),
            Err(_) => Err(ScanReadError::InvalidBase64),
        }
    }

    /// Reads a decoded node record into this node, as `node_read_from`
    /// describes. The four rotation words are stored as read: they are not
    /// normalised to a unit quaternion (that is float arithmetic, which the
    /// pose types of the application do when they turn bits back into a
    /// pose), so pose equality here compares the words as written.
    pub fn read_record(&mut self, data: &[u8]) -> (r: Result<(), ScanReadError>)
        ensures
            node_read_from(*old(self), data@, *final(self), r),
    {
        let ghost d = data@;
        let len = data.len();
        if len < 8 {
            self.scan = Some(PointcloudBits::new());
            return Err(ScanReadError::UnexpectedEof);
        }
        let point_count = read_u64_le(data, 0);
        let mut pos: usize = 8;
        let mut scan = PointcloudBits::new();
        let mut k: u64 = 0;
        while k < point_count
            invariant
                data@ == d,
                self.pose == old(self).pose,
                self.id == old(self).id,
                len == d.len(),
                len >= 8,
                point_count == stored_point_count(d),
                k <= point_count,
                pos == 8 + 24 * k,
                pos <= len,
                scan.points@.len() == k,
                is_identity_pose(scan.current_inv_transform),
                forall|j: int| 0 <= j < k ==> (#[trigger] scan.points@[j])@ == point_at(d, 8 + 24 * j),
            decreases point_count - k,
        {
            if len - pos < 24 {
                proof {
                    assert(8 + 24 * (point_count as int) > len) by (nonlinear_arith)
                        requires
                            k < point_count,
                            pos == 8 + 24 * k,
                            len - pos < 24,
                    ;
                    assert((len - 8) / 24 == k) by (nonlinear_arith)
                        requires
                            len - 8 >= 24 * k,
                            len - 8 < 24 * k + 24,
                    ;
                    assert(!points_complete(d) && readable_points(d) == k);
                }
                self.scan = Some(scan);
                return Err(ScanReadError::UnexpectedEof);
            }
            let x = read_u64_le(data, pos);
            let y = read_u64_le(data, pos + 8);
            let z = read_u64_le(data, pos + 16);
            let q = [x, y, z];
            proof {
                assert(q@ =~= point_at(d, 8 + 24 * k));
            }
            scan.points.push(q);
            pos = pos + 24;
            k = k + 1;
        }
        self.scan = Some(scan);
        if len - pos < 56 {
            return Err(ScanReadError::UnexpectedEof);
        }
        self.pose = read_pose(data, pos);
        pos = pos + 56;
        if len - pos < 4 {
            return Err(ScanReadError::UnexpectedEof);
        }
        self.id = read_u32_le(data, pos);
        Ok(())
    }

    /// Binary record of the node, base64-encoded (the text's bytes).
    pub fn write_binary(&self) -> (text: Vec<u8>)
        ensures
            text@ == base64_standard_encoding(node_payload(*self)),
            base64_standard_decoding(text@) == Some(node_payload(*self)),
    {
        let record = self.record();
        base64_encode(record.as_slice())
    }

    /// Binary record of the node, before base64.
    pub fn record(&self) -> (bytes: Vec<u8>)
        ensures
            bytes@ == node_payload(*self),
    {
        let mut binary_data: Vec<u8> = Vec::new();
        if let Some(scan) = &self.scan {
            let point_count = scan.points.len() as u64;
            push_u64_le(&mut binary_data, point_count);
            let mut i: usize = 0;
            while i < scan.points.len()
                invariant
                    i <= scan.points.len(),
                    binary_data@ == le_u64(point_count) + points_bytes(scan.points@.subrange(0, i as int)),
                decreases scan.points.len() - i,
            {
                let q = scan.points[i];
                proof {
                    assert(scan.points@.subrange(0, i + 1).drop_last() =~= scan.points@.subrange(0, i as int));
                }
                push_words(&mut binary_data, q.as_slice());
                proof {
                    assert(binary_data@ =~= le_u64(point_count) + points_bytes(scan.points@.subrange(0, i + 1)));
                }
                i += 1;
            }
            proof {
                assert(scan.points@.subrange(0, i as int) =~= scan.points@);
            }
        }
        push_pose(&mut binary_data, &self.pose);
        push_u32_le(&mut binary_data, self.id);
        proof {
            assert(binary_data@ =~= node_payload(*self));
        }
        binary_data
    }
}

impl Clone for ScanNode {
    fn clone(&self) -> (r: Self)
        ensures
            same_node(r, *self),
    {
        let scan = match &self.scan {
            Some(pc) => Some(pc.clone()),
            None => None,
        };
        ScanNode { scan, pose: self.pose, id: self.id }
    }
}

impl PartialEq for ScanNode {
    fn eq(&self, other: &Self) -> (r: bool) {
        self.id == other.id
    }
}

impl PartialEqSpecImpl for ScanNode {
    open spec fn obeys_eq_spec() -> bool {
        true
    }

    open spec fn eq_spec(&self, other: &Self) -> bool {
        self.id == other.id
    }
}

/// Whether the edge joins the nodes with ids `a` and `b`, in either
/// direction.
pub open spec fn connects(e: ScanEdge, a: u32, b: u32) -> bool {
    (e.first == a && e.second == b) || (e.first == b && e.second == a)
}

/// Whether some edge of `edges` joins the nodes with ids `a` and `b`.
pub open spec fn edges_join(edges: Seq<ScanEdge>, a: u32, b: u32) -> bool {
    exists|i: int| 0 <= i < edges.len() && connects(#[trigger] edges[i], a, b)
}

/// Whether some node of `nodes` has id `id`.
pub open spec fn has_node_id(nodes: Seq<ScanNode>, id: u32) -> bool {
    exists|i: int| 0 <= i < nodes.len() && (#[trigger] nodes[i]).id == id
}

/// Whether `i` is the first position of `nodes` holding id `id`.
pub open spec fn first_with_id(nodes: Seq<ScanNode>, id: u32, i: int) -> bool {
    &&& 0 <= i < nodes.len()
    &&& nodes[i].id == id
    &&& forall|j: int| 0 <= j < i ==> (#[trigger] nodes[j]).id != id
}

/// What reading the decoded edge record `d` against the nodes `nodes` does
/// to an edge that held `prev`, leaving `next` and returning `r`: the two
/// ids come first (`UnexpectedEof` when the record is shorter than 8
/// bytes); each must name a node (`NodeNotFound` otherwise), the first id
/// being stored before the second is looked up; then the constraint and the
/// weight are replaced in turn while bytes last.
pub open spec fn edge_read_from(
    prev: ScanEdge,
    d: Seq<u8>,
    nodes: Seq<ScanNode>,
    next: ScanEdge,
    r: Result<(), ScanReadError>,
) -> bool {
    let a = u32_at(d, 0);
    let b = u32_at(d, 4);
    if d.len() < 8 {
        r == Err::<(), ScanReadError>(ScanReadError::UnexpectedEof) && next == prev
    } else if !has_node_id(nodes, a) {
        r == Err::<(), ScanReadError>(ScanReadError::NodeNotFound) && next == prev
    } else if !has_node_id(nodes, b) {
        &&& r == Err::<(), ScanReadError>(ScanReadError::NodeNotFound)
        &&& next == (ScanEdge { first: a, ..prev })
    } else if d.len() < 64 {
        &&& r == Err::<(), ScanReadError>(ScanReadError::UnexpectedEof)
        &&& next == (ScanEdge { first: a, second: b, ..prev })
    } else {
        &&& next.first == a
        &&& next.second == b
        &&& pose_at(next.constraint, d, 8)
        &&& if d.len() < 72 {
            r == Err::<(), ScanReadError>(ScanReadError::UnexpectedEof) && next.weight == prev.weight
        } else {
            r is Ok && next.weight == u64_at(d, 64)
        }
    }
}

impl ScanEdge {
    /// An edge between the nodes with ids `first` and `second`, weight 1.
    pub fn new(first: u32, second: u32, constraint: PoseBits) -> (e: Self)
        ensures
            e == (ScanEdge { first, second, constraint, weight: ONE_BITS }),
    {
        ScanEdge { first, second, constraint, weight: ONE_BITS }
    }

    /// An edge between node ids 0 and 0, with the identity constraint and
    /// weight 1.
    pub fn default() -> (e: Self)
        ensures
            e.first == 0,
            e.second == 0,
            is_identity_pose(e.constraint),
            e.weight == ONE_BITS,
    {
        ScanEdge { first: 0, second: 0, constraint: PoseBits::identity(), weight: ONE_BITS }
    }

    /// Reads a base64 edge record (the text's bytes) into this edge, looking
    /// its node ids up in `graph`, as `edge_read_from` describes. Text that
    /// is not standard base64 leaves the edge as it was.
    pub fn read_binary(&mut self, encoded: &[u8], graph: &ScanGraph) -> (r: Result<(), ScanReadError>)
        ensures
            match base64_standard_decoding(encoded@) {
                None => r == Err::<(), ScanReadError>(ScanReadError::InvalidBase64) && *final(self) == *old(self),
                Some(d) => edge_read_from(*old(self), d, graph.nodes@, *final(self), r),
            },
    {
        match base64_decode(encoded) {
            Ok(decoded) => self.read_record(decoded.as_slice(), graph),
            Err(_) => Err(ScanReadError::InvalidBase64),
        }
    }

    /// Reads a decoded edge record into this edge, looking its node ids up
    /// in `graph`, as `edge_read_from` describes.
    pub fn read_record(&mut self, data: &[u8], graph: &ScanGraph) -> (r: Result<(), ScanReadError>)
        ensures
            edge_read_from(*old(self), data@, graph.nodes@, *final(self), r),
    {
        let len = data.len();
        if len < 8 {
            return Err(ScanReadError::UnexpectedEof);
        }
        let first_id = read_u32_le(data, 0);
        let second_id = read_u32_le(data, 4);
        if graph.get_node_by_id(first_id).is_none() {
            return Err(ScanReadError::NodeNotFound);
        }
        self.first = first_id;
        if graph.get_node_by_id(second_id).is_none() {
            return Err(ScanReadError::NodeNotFound);
        }
        self.second = second_id;
        if len < 64 {
            return Err(ScanReadError::UnexpectedEof);
        }
        self.constraint = read_pose(data, 8);
        if len < 72 {
            return Err(ScanReadError::UnexpectedEof);
        }
        self.weight = read_u64_le(data, 64);
        Ok(())
    }

    /// Binary record of the edge, base64-encoded (the text's bytes).
    pub fn write_binary(&self) -> (text: Vec<u8>)
        ensures
            text@ == base64_standard_encoding(edge_payload(*self)),
            base64_standard_decoding(text@) == Some(edge_payload(*self)),
    {
        let record = self.record();
        base64_encode(record.as_slice())
    }

    /// Binary record of the edge, before base64.
    pub fn record(&self) -> (bytes: Vec<u8>)
        ensures
            bytes@ == edge_payload(*self),
    {
        let mut binary_data: Vec<u8> = Vec::new();
        push_u32_le(&mut binary_data, self.first);
        push_u32_le(&mut binary_data, self.second);
        push_pose(&mut binary_data, &self.constraint);
        push_u64_le(&mut binary_data, self.weight);
        proof {
            assert(binary_data@ =~= edge_payload(*self));
        }
        binary_data
    }
}

impl PartialEq for ScanEdge {
    fn eq(&self, other: &Self) -> (r: bool) {
        self.first == other.first && self.second == other.second
    }
}

impl PartialEqSpecImpl for ScanEdge {
    open spec fn obeys_eq_spec() -> bool {
        true
    }

    open spec fn eq_spec(&self, other: &Self) -> bool {
        self.first == other.first && self.second == other.second
    }
}

/// Ids of the nodes other than `id` that an edge joins to `id`, in node
/// order; empty when no node has id `id`.
pub open spec fn neighbor_ids(nodes: Seq<ScanNode>, edges: Seq<ScanEdge>, id: u32) -> Seq<u32> {
    if has_node_id(nodes, id) {
        nodes.filter_map(
            |n: ScanNode|
                if n.id != id && edges_join(edges, id, n.id) {
                    Some(n.id)
                } else {
                    None
                },
        )
    } else {
        seq![]
    }
}

/// Number of points of a node's scan; 0 without a scan.
pub open spec fn scan_size(n: ScanNode) -> nat {
    match n.scan {
        Some(pc) => pc.points@.len(),
        None => 0,
    }
}

/// Points of the nodes taken in order, up to and including the first node
/// with id `max_id` when `max_id` is not 0.
pub open spec fn num_points(nodes: Seq<ScanNode>, max_id: u32) -> nat
    decreases nodes.len(),
{
    if nodes.len() == 0 {
        0
    } else {
        scan_size(nodes[0]) + if max_id > 0 && nodes[0].id == max_id {
            0
        } else {
            num_points(nodes.skip(1), max_id)
        }
    }
}

/// The base64 records of the nodes, one after the other.
pub open spec fn nodes_text(nodes: Seq<ScanNode>) -> Seq<u8>
    decreases nodes.len(),
{
    if nodes.len() == 0 {
        seq![]
    } else {
        nodes_text(nodes.drop_last()) + base64_standard_encoding(node_payload(nodes.last()))
    }
}

/// The base64 records of the edges, one after the other.
pub open spec fn edges_text(edges: Seq<ScanEdge>) -> Seq<u8>
    decreases edges.len(),
{
    if edges.len() == 0 {
        seq![]
    } else {
        edges_text(edges.drop_last()) + base64_standard_encoding(edge_payload(edges.last()))
    }
}

/// Binary form of a graph: the node count as a `u32` (cut to 32 bits),
/// the node records, the edge count, the edge records.
pub open spec fn graph_bytes(nodes: Seq<ScanNode>, edges: Seq<ScanEdge>) -> Seq<u8> {
    le_u32(nodes.len() as u32) + nodes_text(nodes) + le_u32(edges.len() as u32) + edges_text(edges)
}

/// Outcome of reading a graph from `data`. Each record is read from all
/// the bytes that remain, so a first node record takes the rest of the
/// input and anything after it finds the input spent; only a graph with no
/// nodes and no edges reads back. With nodes announced: `InvalidBase64`
/// when the rest is not base64, else `UnexpectedEof`. With no nodes: an
/// announced edge fails on its text, its length, or its first id, which no
/// node holds.
pub open spec fn graph_read_result(data: Seq<u8>) -> Result<(), ScanReadError> {
    if data.len() < 4 {
        Err(ScanReadError::UnexpectedEof)
    } else if u32_at(data, 0) != 0 {
        if base64_standard_decoding(data.subrange(4, data.len() as int)) is None {
            Err(ScanReadError::InvalidBase64)
        } else {
            Err(ScanReadError::UnexpectedEof)
        }
    } else if data.len() < 8 {
        Err(ScanReadError::UnexpectedEof)
    } else if u32_at(data, 4) == 0 {
        Ok(())
    } else {
        match base64_standard_decoding(data.subrange(8, data.len() as int)) {
            None => Err(ScanReadError::InvalidBase64),
            Some(d) => if d.len() < 8 {
                Err(ScanReadError::UnexpectedEof)
            } else {
                Err(ScanReadError::NodeNotFound)
            },
        }
    }
}

/// Whether reading a graph from `data` keeps one node: nodes are announced
/// and the rest of the input is a complete node record.
pub open spec fn graph_read_keeps_node(data: Seq<u8>) -> bool {
    &&& data.len() >= 4
    &&& u32_at(data, 0) != 0
    &&& match base64_standard_decoding(data.subrange(4, data.len() as int)) {
        Some(d) => node_record_complete(d),
        None => false,
    }
}

/// Whether every edge's two ids name nodes of `nodes`.
pub open spec fn endpoints_present(nodes: Seq<ScanNode>, edges: Seq<ScanEdge>) -> bool {
    forall|i: int|
        0 <= i < edges.len() ==> has_node_id(nodes, (#[trigger] edges[i]).first) && has_node_id(nodes, edges[i].second)
}

/// Graph equality: as many nodes and edges, nodes pairwise of the same id
/// and equal poses, edges pairwise between the same ids.
pub open spec fn graph_eq(a: ScanGraph, b: ScanGraph) -> bool {
    &&& a.nodes@.len() == b.nodes@.len()
    &&& a.edges@.len() == b.edges@.len()
    &&& forall|i: int|
        0 <= i < a.nodes@.len() ==> (#[trigger] a.nodes@[i]).id == b.nodes@[i].id && pose_eq(
            a.nodes@[i].pose,
            b.nodes@[i].pose,
        )
    &&& forall|i: int|
        0 <= i < a.edges@.len() ==> (#[trigger] a.edges@[i]).first == b.edges@[i].first && a.edges@[i].second
            == b.edges@[i].second
}

/// A graph of scans: the nodes, and the edges between them by node id.
#[derive(Debug)]
pub struct ScanGraph {
    pub nodes: Vec<ScanNode>,
    pub edges: Vec<ScanEdge>,
}

impl ScanGraph {
    /// An empty graph.
    pub fn new() -> (g: Self)
        ensures
            g.nodes@.len() == 0,
            g.edges@.len() == 0,
    {
        ScanGraph { nodes: Vec::new(), edges: Vec::new() }
    }

    /// Removes all nodes and edges.
    pub fn clear(&mut self)
        ensures
            final(self).nodes@.len() == 0,
            final(self).edges@.len() == 0,
    {
        self.nodes.clear();
        self.edges.clear();
    }

    /// Appends a node whose id is the number of nodes before it (cut to
    /// 32 bits), and returns that id.
    pub fn add_node(&mut self, scan: Option<PointcloudBits>, pose: PoseBits) -> (id: u32)
        ensures
            id == old(self).nodes@.len() as u32,
            final(self).nodes@ == old(self).nodes@.push(ScanNode { scan, pose, id }),
            final(self).edges@ == old(self).edges@,
    {
        #[verifier::truncate]
        let id = self.nodes.len() as u32;
        self.nodes.push(ScanNode::new(scan, pose, id));
        id
    }

    /// Appends an edge of weight 1 between the nodes with ids `first` and
    /// `second`, and returns it.
    pub fn add_edge(&mut self, first: u32, second: u32, constraint: PoseBits) -> (e: ScanEdge)
        ensures
            e == (ScanEdge { first, second, constraint, weight: ONE_BITS }),
            final(self).edges@ == old(self).edges@.push(e),
            final(self).nodes@ == old(self).nodes@,
    {
        let e = ScanEdge::new(first, second, constraint);
        self.edges.push(e);
        e
    }

    /// When the graph has two nodes or more, joins the last two by an edge
    /// with the given constraint (the relative pose from the second-to-last
    /// node to the last); otherwise leaves the graph as it is.
    pub fn connect_previous(&mut self, constraint: PoseBits)
        ensures
            final(self).nodes@ == old(self).nodes@,
            old(self).nodes@.len() >= 2 ==> final(self).edges@ == old(self).edges@.push(
                (ScanEdge {
                    first: old(self).nodes@[old(self).nodes@.len() - 2].id,
                    second: old(self).nodes@[old(self).nodes@.len() - 1].id,
                    constraint,
                    weight: ONE_BITS,
                }),
            ),
            old(self).nodes@.len() < 2 ==> final(self).edges@ == old(self).edges@,
    {
        let n = self.nodes.len();
        if n >= 2 {
            let first = self.nodes[n - 2].id;
            let second = self.nodes[n - 1].id;
            self.add_edge(first, second, constraint);
        }
    }

    /// The first node with id `id`, if any.
    pub fn get_node_by_id(&self, id: u32) -> (r: Option<&ScanNode>)
        ensures
            match r {
                Some(n) => exists|i: int| first_with_id(self.nodes@, id, i) && *n == self.nodes@[i],
                None => !has_node_id(self.nodes@, id),
            },
    {
        let mut i: usize = 0;
        while i < self.nodes.len()
            invariant
                i <= self.nodes.len(),
                forall|j: int| 0 <= j < i ==> (#[trigger] self.nodes@[j]).id != id,
            decreases self.nodes.len() - i,
        {
            if self.nodes[i].id == id {
                proof {
                    assert(first_with_id(self.nodes@, id, i as int));
                }
                return Some(&self.nodes[i]);
            }
            i += 1;
        }
        None
    }

    /// Whether some edge joins the nodes with ids `first_id` and
    /// `second_id`, in either direction.
    pub fn edge_exists(&self, first_id: u32, second_id: u32) -> (r: bool)
        ensures
            r == edges_join(self.edges@, first_id, second_id),
    {
        let mut i: usize = 0;
        while i < self.edges.len()
            invariant
                i <= self.edges.len(),
                forall|j: int| 0 <= j < i ==> !connects(#[trigger] self.edges@[j], first_id, second_id),
            decreases self.edges.len() - i,
        {
            let e = &self.edges[i];
            if (e.first == first_id && e.second == second_id) || (e.first == second_id && e.second == first_id) {
                proof {
                    assert(connects(self.edges@[i as int], first_id, second_id));
                }
                return true;
            }
            i += 1;
        }
        false
    }

    /// A copy of the graph: copies of the nodes, and for each edge a new
    /// edge of weight 1 between the same node ids with the same
    /// constraint. Every edge's ids must name nodes of the graph.
    pub fn clone(&self) -> (g: Self)
        requires
            endpoints_present(self.nodes@, self.edges@),
        ensures
            g.nodes@.len() == self.nodes@.len(),
            forall|i: int| 0 <= i < self.nodes@.len() ==> same_node(#[trigger] g.nodes@[i], self.nodes@[i]),
            g.edges@.len() == self.edges@.len(),
            forall|i: int|
                0 <= i < self.edges@.len() ==> #[trigger] g.edges@[i] == (ScanEdge {
                    first: self.edges@[i].first,
                    second: self.edges@[i].second,
                    constraint: self.edges@[i].constraint,
                    weight: ONE_BITS,
                }),
    {
        let mut nodes: Vec<ScanNode> = Vec::new();
        let mut i: usize = 0;
        while i < self.nodes.len()
            invariant
                i <= self.nodes.len(),
                nodes@.len() == i,
                forall|k: int| 0 <= k < i ==> same_node(#[trigger] nodes@[k], self.nodes@[k]),
            decreases self.nodes.len() - i,
        {
            nodes.push(self.nodes[i].clone());
            i += 1;
        }
        let mut edges: Vec<ScanEdge> = Vec::new();
        let mut j: usize = 0;
        while j < self.edges.len()
            invariant
                j <= self.edges.len(),
                endpoints_present(self.nodes@, self.edges@),
                edges@.len() == j,
                forall|k: int|
                    0 <= k < j ==> #[trigger] edges@[k] == (ScanEdge {
                        first: self.edges@[k].first,
                        second: self.edges@[k].second,
                        constraint: self.edges@[k].constraint,
                        weight: ONE_BITS,
                    }),
            decreases self.edges.len() - j,
        {
            let e = &self.edges[j];
            proof {
                assert(has_node_id(self.nodes@, self.edges@[j as int].first));
            }
            let first = self.get_node_by_id(e.first).unwrap();
            let second = self.get_node_by_id(e.second).unwrap();
            edges.push(ScanEdge::new(first.id, second.id, e.constraint));
            j += 1;
        }
        ScanGraph { nodes, edges }
    }

    /// Replaces the graph by one read from `data`, the bytes of a stream
    /// read to its end: the node count, then that many node records, the
    /// edge count and that many edge records, each record being read from
    /// all the bytes that remain (see `graph_read_result`). A node or an
    /// edge is kept only when its record was read whole.
    pub fn read_binary_internal(&mut self, data: &[u8]) -> (r: Result<(), ScanReadError>)
        ensures
            r == graph_read_result(data@),
            final(self).edges@.len() == 0,
            final(self).nodes@.len() <= 1,
            final(self).nodes@.len() == 1 <==> graph_read_keeps_node(data@),
            final(self).nodes@.len() == 1 ==> (base64_standard_decoding(data@.subrange(4, data@.len() as int)) matches Some(
                d,
            ) && node_holds_record(final(self).nodes@[0], d)),
    {
        self.clear();
        let len = data.len();
        if len < 4 {
            return Err(ScanReadError::UnexpectedEof);
        }
        let node_count = read_u32_le(data, 0);
        let mut pos: usize = 4;
        let mut i: u32 = 0;
        while i < node_count
            invariant
                len == data@.len(),
                len >= 4,
                node_count == u32_at(data@, 0),
                i <= node_count,
                i <= 1,
                self.edges@.len() == 0,
                i == 0 ==> pos == 4 && self.nodes@.len() == 0,
                i == 1 ==> pos == len && self.nodes@.len() == 1 && graph_read_keeps_node(data@) && (
                base64_standard_decoding(data@.subrange(4, len as int)) matches Some(d) && node_holds_record(
                    self.nodes@[0],
                    d,
                )),
            decreases node_count - i,
        {
            let mut node = ScanNode::default();
            let rest = vstd::slice::slice_subrange(data, pos, len);
            let res = node.read_binary(rest);
            pos = len;
            match res {
                Err(e) => {
                    return Err(e);
                },
                Ok(()) => {},
            }
            self.nodes.push(node);
            i += 1;
        }
        if len - pos < 4 {
            return Err(ScanReadError::UnexpectedEof);
        }
        let edge_count = read_u32_le(data, pos);
        pos = pos + 4;
        let mut j: u32 = 0;
        while j < edge_count
            invariant
                len == data@.len(),
                pos == 8,
                len >= 8,
                u32_at(data@, 0) == 0,
                edge_count == u32_at(data@, 4),
                j == 0,
                self.nodes@.len() == 0,
                self.edges@.len() == 0,
            decreases edge_count - j,
        {
            let mut edge = ScanEdge::default();
            let rest = vstd::slice::slice_subrange(data, pos, len);
            let res = edge.read_binary(rest, self);
            pos = len;
            match res {
                Err(e) => {
                    return Err(e);
                },
                Ok(()) => {},
            }
            self.edges.push(edge);
            j += 1;
        }
        Ok(())
    }

    /// Ids of the neighbours of the node with id `id`: the other nodes,
    /// in order, that an edge joins to it; empty when no node has that id.
    pub fn get_neighbor_ids(&self, id: u32) -> (r: Vec<u32>)
        ensures
            r@ == neighbor_ids(self.nodes@, self.edges@, id),
    {
        let mut res: Vec<u32> = Vec::new();
        if self.get_node_by_id(id).is_some() {
            let ghost f = |n: ScanNode|
                if n.id != id && edges_join(self.edges@, id, n.id) {
                    Some(n.id)
                } else {
                    None
                };
            let mut i: usize = 0;
            while i < self.nodes.len()
                invariant
                    i <= self.nodes.len(),
                    f == (|n: ScanNode|
                        if n.id != id && edges_join(self.edges@, id, n.id) {
                            Some(n.id)
                        } else {
                            None
                        }),
                    res@ == self.nodes@.subrange(0, i as int).filter_map(f),
                decreases self.nodes.len() - i,
            {
                let other = self.nodes[i].id;
                proof {
                    assert(self.nodes@.subrange(0, i + 1).drop_last() =~= self.nodes@.subrange(0, i as int));
                }
                if other != id && self.edge_exists(id, other) {
                    res.push(other);
                }
                i += 1;
                proof {
                    assert(res@ =~= self.nodes@.subrange(0, i as int).filter_map(f));
                }
            }
            proof {
                assert(self.nodes@.subrange(0, i as int) =~= self.nodes@);
            }
        }
        res
    }

    /// The edges that leave `node`: those whose first id is its id, in
    /// order.
    pub fn get_out_edges(&self, node: &ScanNode) -> (r: Vec<ScanEdge>)
        ensures
            r@ == self.edges@.filter(|e: ScanEdge| e.first == node.id),
    {
        let mut res: Vec<ScanEdge> = Vec::new();
        let mut i: usize = 0;
        while i < self.edges.len()
            invariant
                i <= self.edges.len(),
                res@ == self.edges@.subrange(0, i as int).filter(|e: ScanEdge| e.first == node.id),
            decreases self.edges.len() - i,
        {
            let e = self.edges[i];
            proof {
                reveal_with_fuel(Seq::filter, 1);
                assert(self.edges@.subrange(0, i + 1).drop_last() =~= self.edges@.subrange(0, i as int));
            }
            if e.first == node.id {
                res.push(e);
            }
            i += 1;
            proof {
                assert(res@ =~= self.edges@.subrange(0, i as int).filter(|e: ScanEdge| e.first == node.id));
            }
        }
        proof {
            assert(self.edges@.subrange(0, i as int) =~= self.edges@);
        }
        res
    }

    /// The edges that reach `node`: those whose second id is its id, in
    /// order.
    pub fn get_in_edges(&self, node: &ScanNode) -> (r: Vec<ScanEdge>)
        ensures
            r@ == self.edges@.filter(|e: ScanEdge| e.second == node.id),
    {
        let mut res: Vec<ScanEdge> = Vec::new();
        let mut i: usize = 0;
        while i < self.edges.len()
            invariant
                i <= self.edges.len(),
                res@ == self.edges@.subrange(0, i as int).filter(|e: ScanEdge| e.second == node.id),
            decreases self.edges.len() - i,
        {
            let e = self.edges[i];
            proof {
                reveal_with_fuel(Seq::filter, 1);
                assert(self.edges@.subrange(0, i + 1).drop_last() =~= self.edges@.subrange(0, i as int));
            }
            if e.second == node.id {
                res.push(e);
            }
            i += 1;
            proof {
                assert(res@ =~= self.edges@.subrange(0, i as int).filter(|e: ScanEdge| e.second == node.id));
            }
        }
        proof {
            assert(self.edges@.subrange(0, i as int) =~= self.edges@);
        }
        res
    }

    /// Number of points in the scans of the nodes, taken in order up to and
    /// including the first node with id `max_id` when `max_id` is not 0.
    pub fn get_num_points(&self, max_id: u32) -> (r: usize)
        requires
            num_points(self.nodes@, max_id) <= usize::MAX,
        ensures
            r == num_points(self.nodes@, max_id),
    {
        let mut retval: usize = 0;
        let mut i: usize = 0;
        proof {
            assert(self.nodes@.skip(0) =~= self.nodes@);
        }
        while i < self.nodes.len()
            invariant
                i <= self.nodes.len(),
                retval + num_points(self.nodes@.skip(i as int), max_id) == num_points(self.nodes@, max_id),
                num_points(self.nodes@, max_id) <= usize::MAX,
            decreases self.nodes.len() - i,
        {
            let node = &self.nodes[i];
            proof {
                let rest = self.nodes@.skip(i as int);
                assert(rest[0] == self.nodes@[i as int]);
                assert(rest.skip(1) =~= self.nodes@.skip(i + 1));
            }
            if let Some(scan) = &node.scan {
                retval += scan.points.len();
            }
            if max_id > 0 && node.id == max_id {
                return retval;
            }
            i += 1;
        }
        proof {
            assert(self.nodes@.skip(i as int).len() == 0);
        }
        retval
    }

    /// Binary form of the graph: the node count, the node records, the edge
    /// count and the edge records.
    pub fn write_binary_internal(&self) -> (out: Vec<u8>)
        ensures
            out@ == graph_bytes(self.nodes@, self.edges@),
    {
        let mut out: Vec<u8> = Vec::new();
        #[verifier::truncate]
        let node_count = self.nodes.len() as u32;
        push_u32_le(&mut out, node_count);
        let mut i: usize = 0;
        while i < self.nodes.len()
            invariant
                i <= self.nodes.len(),
                out@ == le_u32(node_count) + nodes_text(self.nodes@.subrange(0, i as int)),
            decreases self.nodes.len() - i,
        {
            let mut text = self.nodes[i].write_binary();
            proof {
                assert(self.nodes@.subrange(0, i + 1).drop_last() =~= self.nodes@.subrange(0, i as int));
            }
            out.append(&mut text);
            i += 1;
            proof {
                assert(out@ =~= le_u32(node_count) + nodes_text(self.nodes@.subrange(0, i as int)));
            }
        }
        proof {
            assert(self.nodes@.subrange(0, i as int) =~= self.nodes@);
        }
        let ghost nodes_part = out@;
        #[verifier::truncate]
        let edge_count = self.edges.len() as u32;
        push_u32_le(&mut out, edge_count);
        let mut j: usize = 0;
        while j < self.edges.len()
            invariant
                j <= self.edges.len(),
                out@ == nodes_part + le_u32(edge_count) + edges_text(self.edges@.subrange(0, j as int)),
            decreases self.edges.len() - j,
        {
            let mut text = self.edges[j].write_binary();
            proof {
                assert(self.edges@.subrange(0, j + 1).drop_last() =~= self.edges@.subrange(0, j as int));
            }
            out.append(&mut text);
            j += 1;
            proof {
                assert(out@ =~= nodes_part + le_u32(edge_count) + edges_text(self.edges@.subrange(0, j as int)));
            }
        }
        proof {
            assert(self.edges@.subrange(0, j as int) =~= self.edges@);
            assert(out@ =~= graph_bytes(self.nodes@, self.edges@));
        }
        out
    }
}

impl PartialEq for ScanGraph {
    fn eq(&self, other: &Self) -> (r: bool) {
        if self.nodes.len() != other.nodes.len() {
            return false;
        }
        if self.edges.len() != other.edges.len() {
            return false;
        }
        let mut i: usize = 0;
        while i < self.nodes.len()
            invariant
                i <= self.nodes.len(),
                self.nodes@.len() == other.nodes@.len(),
                forall|k: int|
                    0 <= k < i ==> (#[trigger] self.nodes@[k]).id == other.nodes@[k].id && pose_eq(
                        self.nodes@[k].pose,
                        other.nodes@[k].pose,
                    ),
            decreases self.nodes.len() - i,
        {
            if self.nodes[i].id != other.nodes[i].id || !(self.nodes[i].pose == other.nodes[i].pose) {
                return false;
            }
            i += 1;
        }
        let mut j: usize = 0;
        while j < self.edges.len()
            invariant
                j <= self.edges.len(),
                self.edges@.len() == other.edges@.len(),
                forall|k: int|
                    0 <= k < j ==> (#[trigger] self.edges@[k]).first == other.edges@[k].first && self.edges@[k].second
                        == other.edges@[k].second,
            decreases self.edges.len() - j,
        {
            if self.edges[j].first != other.edges[j].first || self.edges[j].second != other.edges[j].second {
                return false;
            }
            j += 1;
        }
        true
    }
}

impl PartialEqSpecImpl for ScanGraph {
    open spec fn obeys_eq_spec() -> bool {
        true
    }

    open spec fn eq_spec(&self, other: &Self) -> bool {
        graph_eq(*self, *other)
    }
}

proof fn lemma_u64_at_le(d: Seq<u8>, pos: int, x: u64)
    requires
        0 <= pos,
        pos + 8 <= d.len(),
        d.subrange(pos, pos + 8) == le_u64(x),
    ensures
        u64_at(d, pos) == x,
{
    lemma_le_u64_roundtrip(x);
}

proof fn lemma_u32_at_le(d: Seq<u8>, pos: int, x: u32)
    requires
        0 <= pos,
        pos + 4 <= d.len(),
        d.subrange(pos, pos + 4) == le_u32(x),
    ensures
        u32_at(d, pos) == x,
{
    lemma_le_u32_roundtrip(x);
}

proof fn lemma_points_bytes(pts: Seq<[F64Bits; 3]>)
    ensures
        points_bytes(pts).len() == 24 * pts.len(),
        forall|j: int|
            0 <= j < pts.len() ==> points_bytes(pts).subrange(24 * j, 24 * j + 24) == point_bytes(#[trigger] pts[j]),
    decreases pts.len(),
{
    if pts.len() > 0 {
        let init = pts.drop_last();
        lemma_points_bytes(init);
        lemma_words_bytes(pts.last()@);
        let b = points_bytes(pts);
        assert forall|j: int| 0 <= j < pts.len() implies b.subrange(24 * j, 24 * j + 24) == point_bytes(
            #[trigger] pts[j],
        ) by {
            if j < pts.len() - 1 {
                assert(init[j] == pts[j]);
                assert(b.subrange(24 * j, 24 * j + 24) =~= points_bytes(init).subrange(24 * j, 24 * j + 24));
            } else {
                assert(b.subrange(24 * j, 24 * j + 24) =~= point_bytes(pts.last()));
            }
        }
    }
}

proof fn lemma_words_bytes(ws: Seq<u64>)
    ensures
        words_bytes(ws).len() == 8 * ws.len(),
        forall|j: int| 0 <= j < ws.len() ==> words_bytes(ws).subrange(8 * j, 8 * j + 8) == le_u64(#[trigger] ws[j]),
    decreases ws.len(),
{
    if ws.len() > 0 {
        let init = ws.drop_last();
        lemma_words_bytes(init);
        let b = words_bytes(ws);
        assert forall|j: int| 0 <= j < ws.len() implies b.subrange(8 * j, 8 * j + 8) == le_u64(#[trigger] ws[j]) by {
            if j < ws.len() - 1 {
                assert(init[j] == ws[j]);
                assert(b.subrange(8 * j, 8 * j + 8) =~= words_bytes(init).subrange(8 * j, 8 * j + 8));
            } else {
                assert(b.subrange(8 * j, 8 * j + 8) =~= le_u64(ws.last()));
            }
        }
    }
}

/// The words stored at `d[pos..]` as the bytes of `ws` read back.
proof fn lemma_words_read(d: Seq<u8>, pos: int, ws: Seq<u64>)
    requires
        0 <= pos,
        pos + 8 * ws.len() <= d.len(),
        d.subrange(pos, pos + 8 * ws.len()) == words_bytes(ws),
    ensures
        forall|j: int| 0 <= j < ws.len() ==> u64_at(d, pos + 8 * j) == #[trigger] ws[j],
{
    lemma_words_bytes(ws);
    assert forall|j: int| 0 <= j < ws.len() implies u64_at(d, pos + 8 * j) == #[trigger] ws[j] by {
        assert(d.subrange(pos + 8 * j, pos + 8 * j + 8) =~= words_bytes(ws).subrange(8 * j, 8 * j + 8));
        lemma_u64_at_le(d, pos + 8 * j, ws[j]);
    }
}

/// The pose whose bytes are stored at `pos` reads back.
proof fn lemma_pose_bytes_read(d: Seq<u8>, pos: int, p: PoseBits)
    requires
        0 <= pos,
        pos + 56 <= d.len(),
        d.subrange(pos, pos + 56) == pose_bytes(p),
    ensures
        pose_at(p, d, pos),
{
    let ws = pose_words(p);
    lemma_words_read(d, pos, ws);
    assert(u64_at(d, pos) == ws[0]);
    assert(u64_at(d, pos + 8) == ws[1]);
    assert(u64_at(d, pos + 16) == ws[2]);
    assert(u64_at(d, pos + 24) == ws[3]);
    assert(u64_at(d, pos + 32) == ws[4]);
    assert(u64_at(d, pos + 40) == ws[5]);
    assert(u64_at(d, pos + 48) == ws[6]);
    assert(p.trans@ =~= seq![u64_at(d, pos), u64_at(d, pos + 8), u64_at(d, pos + 16)]);
    assert(p.rot@ =~= seq![u64_at(d, pos + 24), u64_at(d, pos + 32), u64_at(d, pos + 40), u64_at(d, pos + 48)]);
}

/// The points whose bytes are stored from offset 8 read back.
proof fn lemma_points_read(d: Seq<u8>, pts: Seq<[F64Bits; 3]>)
    requires
        8 + 24 * pts.len() <= d.len(),
        d.subrange(8, 8 + 24 * pts.len() as int) == points_bytes(pts),
    ensures
        forall|j: int| 0 <= j < pts.len() ==> (#[trigger] pts[j])@ == point_at(d, 8 + 24 * j),
{
    lemma_points_bytes(pts);
    assert forall|j: int| 0 <= j < pts.len() implies (#[trigger] pts[j])@ == point_at(d, 8 + 24 * j) by {
        let q = pts[j];
        assert(d.subrange(8 + 24 * j, 8 + 24 * j + 24) =~= points_bytes(pts).subrange(24 * j, 24 * j + 24));
        lemma_words_read(d, 8 + 24 * j, q@);
        assert(u64_at(d, 8 + 24 * j) == q@[0]);
        assert(u64_at(d, 8 + 24 * j + 8) == q@[1]);
        assert(u64_at(d, 8 + 24 * j + 16) == q@[2]);
        assert(q@ =~= point_at(d, 8 + 24 * j));
    }
}

/// Reading back the record that a node with a scan writes gives back its
/// points, its pose and its id, and succeeds.
pub proof fn lemma_node_record_roundtrip(
    n: ScanNode,
    prev: ScanNode,
    next: ScanNode,
    r: Result<(), ScanReadError>,
)
    requires
        n.scan is Some,
        node_read_from(prev, node_payload(n), next, r),
    ensures
        r is Ok,
        next.scan.unwrap().points@ == n.scan.unwrap().points@,
        next.pose == n.pose,
        next.id == n.id,
{
    let pts = n.scan.unwrap().points@;
    let count = n.scan.unwrap().points.len() as u64;
    let d = node_payload(n);
    let pb = points_bytes(pts);
    lemma_points_bytes(pts);
    lemma_words_bytes(pose_words(n.pose));
    let len = pts.len() as int;
    assert(count == len);
    assert(d.len() == 8 + 24 * len + 60);
    assert(d.subrange(0, 8) =~= le_u64(count));
    lemma_u64_at_le(d, 0, count);
    assert(points_complete(d));
    assert(node_pose_offset(d) == 8 + 24 * len);
    assert(node_record_complete(d));
    assert(d.subrange(8, 8 + 24 * len) =~= pb);
    lemma_points_read(d, pts);
    let m = next.scan.unwrap().points@;
    assert(m.len() == len);
    assert forall|j: int| 0 <= j < len implies m[j] == pts[j] by {
        assert(m[j]@ == point_at(d, 8 + 24 * j));
        assert(pts[j]@ == point_at(d, 8 + 24 * j));
        assert(m[j] =~= pts[j]);
    }
    assert(m =~= pts);
    let off = 8 + 24 * len;
    assert(d.subrange(off, off + 56) =~= pose_bytes(n.pose));
    lemma_pose_bytes_read(d, off, n.pose);
    assert(next.pose.trans =~= n.pose.trans);
    assert(next.pose.rot =~= n.pose.rot);
    assert(d.subrange(off + 56, off + 60) =~= le_u32(n.id));
    lemma_u32_at_le(d, off + 56, n.id);
}

/// Reading back the record that an edge writes, against nodes that hold
/// both of its ids, gives back its ids, constraint and weight, and
/// succeeds.
pub proof fn lemma_edge_record_roundtrip(
    e: ScanEdge,
    nodes: Seq<ScanNode>,
    prev: ScanEdge,
    next: ScanEdge,
    r: Result<(), ScanReadError>,
)
    requires
        has_node_id(nodes, e.first),
        has_node_id(nodes, e.second),
        edge_read_from(prev, edge_payload(e), nodes, next, r),
    ensures
        r is Ok,
        next == e,
{
    let d = edge_payload(e);
    lemma_words_bytes(pose_words(e.constraint));
    assert(d.len() == 72);
    assert(d.subrange(0, 4) =~= le_u32(e.first));
    lemma_u32_at_le(d, 0, e.first);
    assert(d.subrange(4, 8) =~= le_u32(e.second));
    lemma_u32_at_le(d, 4, e.second);
    assert(d.subrange(8, 64) =~= pose_bytes(e.constraint));
    lemma_pose_bytes_read(d, 8, e.constraint);
    assert(d.subrange(64, 72) =~= le_u64(e.weight));
    lemma_u64_at_le(d, 64, e.weight);
    assert(next.constraint.trans =~= e.constraint.trans);
    assert(next.constraint.rot =~= e.constraint.rot);
}

/// A graph with no nodes and no edges reads back from what it writes: the
/// read succeeds and keeps no node.
pub proof fn lemma_empty_graph_roundtrip(nodes: Seq<ScanNode>, edges: Seq<ScanEdge>)
    requires
        nodes.len() == 0,
        edges.len() == 0,
    ensures
        graph_read_result(graph_bytes(nodes, edges)) == Ok::<(), ScanReadError>(()),
        !graph_read_keeps_node(graph_bytes(nodes, edges)),
{
    let d = graph_bytes(nodes, edges);
    assert(nodes_text(nodes) =~= Seq::<u8>::empty());
    assert(edges_text(edges) =~= Seq::<u8>::empty());
    assert(d.len() == 8);
    assert(d.subrange(0, 4) =~= le_u32(0u32));
    lemma_u32_at_le(d, 0, 0u32);
    assert(d.subrange(4, 8) =~= le_u32(0u32));
    lemma_u32_at_le(d, 4, 0u32);
}

/// Whether every node's id is its position.
pub open spec fn ids_are_positions(nodes: Seq<ScanNode>) -> bool {
    forall|i: int| 0 <= i < nodes.len() ==> (#[trigger] nodes[i]).id == i
}

/// Adding a node keeps every id at its position while ids fit in 32 bits,
/// and the new node is the first with its id, so a lookup by the returned
/// id finds it.
pub proof fn lemma_add_node_found_by_id(before: Seq<ScanNode>, scan: Option<PointcloudBits>, pose: PoseBits)
    requires
        ids_are_positions(before),
        before.len() < u32::MAX,
    ensures
        ({
            let id = before.len() as u32;
            let after = before.push(ScanNode { scan, pose, id });
            ids_are_positions(after) && first_with_id(after, id, before.len() as int)
        }),
{
    let id = before.len() as u32;
    let after = before.push(ScanNode { scan, pose, id });
    assert forall|i: int| 0 <= i < after.len() implies (#[trigger] after[i]).id == i by {
        if i < before.len() {
            assert(after[i] == before[i]);
        }
    }
    assert forall|j: int| 0 <= j < before.len() implies (#[trigger] after[j]).id != id by {
        assert(after[j] == before[j]);
    }
}

/// Whether no word of the pose is a NaN.
pub open spec fn pose_has_no_nan(p: PoseBits) -> bool {
    &&& forall|i: int| 0 <= i < 3 ==> !f64_is_nan(#[trigger] p.trans[i])
    &&& forall|i: int| 0 <= i < 4 ==> !f64_is_nan(#[trigger] p.rot[i])
}

/// An edge joins two ids in one direction exactly when it does in the
/// other, so `edge_exists` does not depend on the order of its ids.
pub proof fn lemma_edges_join_symmetric(edges: Seq<ScanEdge>, a: u32, b: u32)
    ensures
        edges_join(edges, a, b) == edges_join(edges, b, a),
{
    if edges_join(edges, a, b) {
        let i = choose|i: int| 0 <= i < edges.len() && connects(#[trigger] edges[i], a, b);
        assert(connects(edges[i], b, a));
    }
    if edges_join(edges, b, a) {
        let i = choose|i: int| 0 <= i < edges.len() && connects(#[trigger] edges[i], b, a);
        assert(connects(edges[i], a, b));
    }
}

/// A copy of a graph, as `ScanGraph::clone` makes it, equals the graph
/// when no pose holds a NaN: same ids and poses, edges between the same
/// ids.
pub proof fn lemma_clone_is_equal(g: ScanGraph, c: ScanGraph)
    requires
        forall|i: int| 0 <= i < g.nodes@.len() ==> pose_has_no_nan(#[trigger] g.nodes@[i].pose),
        c.nodes@.len() == g.nodes@.len(),
        forall|i: int| 0 <= i < g.nodes@.len() ==> same_node(#[trigger] c.nodes@[i], g.nodes@[i]),
        c.edges@.len() == g.edges@.len(),
        forall|i: int|
            0 <= i < g.edges@.len() ==> #[trigger] c.edges@[i] == (ScanEdge {
                first: g.edges@[i].first,
                second: g.edges@[i].second,
                constraint: g.edges@[i].constraint,
                weight: ONE_BITS,
            }),
    ensures
        graph_eq(c, g),
{
    assert forall|i: int| 0 <= i < c.nodes@.len() implies (#[trigger] c.nodes@[i]).id == g.nodes@[i].id && pose_eq(
        c.nodes@[i].pose,
        g.nodes@[i].pose,
    ) by {
        assert(same_node(c.nodes@[i], g.nodes@[i]));
        assert(pose_has_no_nan(g.nodes@[i].pose));
    }
    assert forall|i: int| 0 <= i < c.edges@.len() implies (#[trigger] c.edges@[i]).first == g.edges@[i].first
        && c.edges@[i].second == g.edges@[i].second by {
        assert(c.edges@[i] == (ScanEdge {
            first: g.edges@[i].first,
            second: g.edges@[i].second,
            constraint: g.edges@[i].constraint,
            weight: ONE_BITS,
        }));
    }
}

/// Pose equality (`==` on `PoseBits`, as `ScanGraph` equality uses it)
/// holds exactly when each of the three translation words, x, y and z,
/// IEEE-equals the other pose's, and the rotation words are either all
/// IEEE-equal or all IEEE-equal to the other's negated words. In
/// particular poses whose z translations differ as numbers are never
/// equal.
pub proof fn lemma_pose_eq_compares_every_word(p: PoseBits, q: PoseBits)
    ensures
        pose_eq(p, q) <==> {
            &&& f64_eq(p.trans[0], q.trans[0])
            &&& f64_eq(p.trans[1], q.trans[1])
            &&& f64_eq(p.trans[2], q.trans[2])
            &&& {
                ||| f64_eq(p.rot[0], q.rot[0]) && f64_eq(p.rot[1], q.rot[1]) && f64_eq(p.rot[2], q.rot[2]) && f64_eq(
                    p.rot[3],
                    q.rot[3],
                )
                ||| f64_eq(p.rot[0], q.rot[0] ^ 0x8000_0000_0000_0000u64) && f64_eq(
                    p.rot[1],
                    q.rot[1] ^ 0x8000_0000_0000_0000u64,
                ) && f64_eq(p.rot[2], q.rot[2] ^ 0x8000_0000_0000_0000u64) && f64_eq(
                    p.rot[3],
                    q.rot[3] ^ 0x8000_0000_0000_0000u64,
                )
            }
        },
        p.trans[2] != q.trans[2] && !f64_is_nan(p.trans[2]) && !(f64_is_zero(p.trans[2]) && f64_is_zero(q.trans[2]))
            ==> !pose_eq(p, q),
{
    if f64_eq(p.trans[0], q.trans[0]) && f64_eq(p.trans[1], q.trans[1]) && f64_eq(p.trans[2], q.trans[2]) {
        assert(forall|i: int| 0 <= i < 3 ==> f64_eq(#[trigger] p.trans[i], q.trans[i])) by {
            assert forall|i: int| 0 <= i < 3 implies f64_eq(#[trigger] p.trans[i], q.trans[i]) by {
                assert(i == 0 || i == 1 || i == 2);
            }
        }
    }
    if f64_eq(p.rot[0], q.rot[0]) && f64_eq(p.rot[1], q.rot[1]) && f64_eq(p.rot[2], q.rot[2]) && f64_eq(p.rot[3], q.rot[3]) {
        assert forall|i: int| 0 <= i < 4 implies f64_eq(#[trigger] p.rot[i], q.rot[i]) by {
            assert(i == 0 || i == 1 || i == 2 || i == 3);
        }
    }
    if f64_eq(p.rot[0], f64_neg(q.rot[0])) && f64_eq(p.rot[1], f64_neg(q.rot[1])) && f64_eq(p.rot[2], f64_neg(q.rot[2]))
        && f64_eq(p.rot[3], f64_neg(q.rot[3])) {
        assert forall|i: int| 0 <= i < 4 implies f64_eq(#[trigger] p.rot[i], f64_neg(q.rot[i])) by {
            assert(i == 0 || i == 1 || i == 2 || i == 3);
        }
    }
    if pose_eq(p, q) {
        assert(f64_eq(p.trans[0], q.trans[0]));
        assert(f64_eq(p.trans[1], q.trans[1]));
        assert(f64_eq(p.trans[2], q.trans[2]));
        assert(f64_eq(p.rot[0], q.rot[0]) || f64_eq(p.rot[0], f64_neg(q.rot[0])));
        assert(f64_eq(p.rot[1], q.rot[1]) || f64_eq(p.rot[1], f64_neg(q.rot[1])));
        assert(f64_eq(p.rot[2], q.rot[2]) || f64_eq(p.rot[2], f64_neg(q.rot[2])));
        assert(f64_eq(p.rot[3], q.rot[3]) || f64_eq(p.rot[3], f64_neg(q.rot[3])));
    }
}

/// Graph equality (`==` on `ScanGraph`) holds exactly when both graphs have
/// as many nodes and as many edges, the nodes at each position have the
/// same id and equal poses, and the edges at each position join the same
/// first id and the same second id. In particular two graphs whose edges at
/// some position differ in their second id are never equal.
pub proof fn lemma_graph_eq_compares_both_ends(a: ScanGraph, b: ScanGraph)
    ensures
        graph_eq(a, b) <==> {
            &&& a.nodes@.len() == b.nodes@.len()
            &&& a.edges@.len() == b.edges@.len()
            &&& forall|i: int|
                0 <= i < a.nodes@.len() ==> (#[trigger] a.nodes@[i]).id == b.nodes@[i].id && pose_eq(
                    a.nodes@[i].pose,
                    b.nodes@[i].pose,
                )
            &&& forall|i: int| 0 <= i < a.edges@.len() ==> (#[trigger] a.edges@[i]).first == b.edges@[i].first
            &&& forall|i: int| 0 <= i < a.edges@.len() ==> (#[trigger] a.edges@[i]).second == b.edges@[i].second
        },
        forall|i: int|
            0 <= i < a.edges@.len() && i < b.edges@.len() && (#[trigger] a.edges@[i]).second != b.edges@[i].second
                ==> !graph_eq(a, b),
{
}

/// Layout of a graph's binary form: the node count (as a `u32`, cut to 32
/// bits) in the first four bytes, then the node records, then the edge
/// count (as a `u32`, cut to 32 bits) in the next four bytes, then the
/// edge records, and nothing more.
pub proof fn lemma_graph_bytes_layout(nodes: Seq<ScanNode>, edges: Seq<ScanEdge>)
    ensures
        graph_bytes(nodes, edges).len() == 8 + nodes_text(nodes).len() + edges_text(edges).len(),
        u32_at(graph_bytes(nodes, edges), 0) == nodes.len() as u32,
        graph_bytes(nodes, edges).subrange(4, 4 + nodes_text(nodes).len() as int) == nodes_text(nodes),
        u32_at(graph_bytes(nodes, edges), 4 + nodes_text(nodes).len() as int) == edges.len() as u32,
        graph_bytes(nodes, edges).subrange(8 + nodes_text(nodes).len() as int, graph_bytes(nodes, edges).len() as int)
            == edges_text(edges),
{
    let d = graph_bytes(nodes, edges);
    let t = nodes_text(nodes).len() as int;
    assert(d.subrange(0, 4) =~= le_u32(nodes.len() as u32));
    lemma_u32_at_le(d, 0, nodes.len() as u32);
    assert(d.subrange(4, 4 + t) =~= nodes_text(nodes));
    assert(d.subrange(4 + t, 8 + t) =~= le_u32(edges.len() as u32));
    lemma_u32_at_le(d, 4 + t, edges.len() as u32);
    assert(d.subrange(8 + t, d.len() as int) =~= edges_text(edges));
}

/// The node records are written in node order, each one exactly the base64
/// text of its node's record: the text of one node is that node's encoded
/// record, and the text of two runs of nodes one after the other is the
/// text of the first run followed by the text of the second.
pub proof fn lemma_nodes_text_in_order(a: Seq<ScanNode>, b: Seq<ScanNode>, n: ScanNode)
    ensures
        nodes_text(seq![n]) == base64_standard_encoding(node_payload(n)),
        nodes_text(a + b) == nodes_text(a) + nodes_text(b),
    decreases b.len(),
{
    assert(seq![n].drop_last() =~= Seq::<ScanNode>::empty());
    assert(nodes_text(Seq::<ScanNode>::empty()) =~= Seq::<u8>::empty());
    assert(nodes_text(seq![n]) =~= base64_standard_encoding(node_payload(n)));
    if b.len() == 0 {
        assert(a + b =~= a);
        assert(nodes_text(a) + nodes_text(b) =~= nodes_text(a));
    } else {
        lemma_nodes_text_in_order(a, b.drop_last(), n);
        assert((a + b).drop_last() =~= a + b.drop_last());
        assert((a + b).last() == b.last());
        assert(nodes_text(a + b) =~= nodes_text(a) + nodes_text(b));
    }
}

/// The edge records are written in edge order, each one exactly the base64
/// text of its edge's record, as `lemma_nodes_text_in_order` states for
/// nodes.
pub proof fn lemma_edges_text_in_order(a: Seq<ScanEdge>, b: Seq<ScanEdge>, e: ScanEdge)
    ensures
        edges_text(seq![e]) == base64_standard_encoding(edge_payload(e)),
        edges_text(a + b) == edges_text(a) + edges_text(b),
    decreases b.len(),
{
    assert(seq![e].drop_last() =~= Seq::<ScanEdge>::empty());
    assert(edges_text(Seq::<ScanEdge>::empty()) =~= Seq::<u8>::empty());
    assert(edges_text(seq![e]) =~= base64_standard_encoding(edge_payload(e)));
    if b.len() == 0 {
        assert(a + b =~= a);
        assert(edges_text(a) + edges_text(b) =~= edges_text(a));
    } else {
        lemma_edges_text_in_order(a, b.drop_last(), e);
        assert((a + b).drop_last() =~= a + b.drop_last());
        assert((a + b).last() == b.last());
        assert(edges_text(a + b) =~= edges_text(a) + edges_text(b));
    }
}

} // verus!
