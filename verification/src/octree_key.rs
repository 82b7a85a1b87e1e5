//! Keys that address voxels of an octree: one 16-bit coordinate per axis.

use vstd::prelude::*;
use vstd::arithmetic::power2::{pow2, lemma2_to64, lemma_pow2_pos, lemma_pow2_unfold, lemma_pow2_adds};
use vstd::arithmetic::div_mod::{
    lemma_fundamental_div_mod, lemma_fundamental_div_mod_converse, lemma_div_denominator,
    lemma_div_by_multiple,
};

verus! {

/// Coordinate type of an octree key.
pub type OcTreeKeyType = u16;

/// A set of keys.
pub type OcTreeKeySet = std::collections::HashSet<OcTreeKey>;

/// A map from keys to flags.
pub type KeyBoolMap = std::collections::HashMap<OcTreeKey, bool>;

/// Key of a voxel: `k[0]`, `k[1]`, `k[2]` are its x, y and z coordinates.
#[derive(Clone, Copy)]
pub struct OcTreeKey {
    pub k: [OcTreeKeyType; 3],
}

impl OcTreeKey {
    /// The key with all three coordinates zero.
    pub fn new() -> (key: Self)
        ensures
            key.k@ == seq![0u16, 0u16, 0u16],
    {
        OcTreeKey { k: [0, 0, 0] }
    }

    /// The key with coordinates `(a, b, c)`.
    pub fn from_xyz(a: OcTreeKeyType, b: OcTreeKeyType, c: OcTreeKeyType) -> (key: Self)
        ensures
            key.k@ == seq![a, b, c],
    {
        OcTreeKey { k: [a, b, c] }
    }

    /// Whether both keys have the same three coordinates.
    pub fn eq(&self, other: &Self) -> (r: bool)
        ensures
            r == (self.k@ == other.k@),
    {
        proof {
            assert(self.k@ =~= seq![self.k[0], self.k[1], self.k[2]]);
            assert(other.k@ =~= seq![other.k[0], other.k[1], other.k[2]]);
        }
        self.k[0] == other.k[0] && self.k[1] == other.k[1] && self.k[2] == other.k[2]
    }

    /// Whether the keys differ in at least one coordinate.
    pub fn ne(&self, other: &Self) -> (r: bool)
        ensures
            r == (self.k@ != other.k@),
    {
        proof {
            assert(self.k@ =~= seq![self.k[0], self.k[1], self.k[2]]);
            assert(other.k@ =~= seq![other.k[0], other.k[1], other.k[2]]);
        }
        self.k[0] != other.k[0] || self.k[1] != other.k[1] || self.k[2] != other.k[2]
    }

    /// Coordinate `i` of the key.
    pub fn get(&self, i: usize) -> (v: OcTreeKeyType)
        requires
            i < 3,
        ensures
            v == self.k@[i as int],
    {
        self.k[i]
    }

    /// Mutable access to coordinate `i` of the key.
    pub fn get_mut(&mut self, i: usize) -> (v: &mut OcTreeKeyType)
        requires
            i < 3,
        ensures
            *v == old(self).k@[i as int],
            final(self).k@ == old(self).k@.update(i as int, *final(v)),
    {
        &mut self.k[i]
    }
}

impl OcTreeKey {
    /// The value that `Hash` feeds to the hasher: `k0 + 1447 k1 + 345637 k2`.
    pub fn hash_value(&self) -> (h: u64)
        ensures
            h == self.k[0] + 1447 * self.k[1] + 345637 * self.k[2],
    {
        self.k[0] as u64 + 1447 * (self.k[1] as u64) + 345637 * (self.k[2] as u64)
    }
}

/// Calls `std::hash::Hasher::write_usize`, which Verus gives no
/// specification; nothing is claimed of what it does to the hasher.
#[verifier::external_body]
fn hasher_write_usize<H: std::hash::Hasher>(state: &mut H, v: usize) {
    state.write_usize(v);
}

impl std::hash::Hash for OcTreeKey {
    /// Feeds `hash_value`, cut to `usize`, to the hasher.
    fn hash<H: std::hash::Hasher>(&self, state: &mut H) {
        let h = self.hash_value();
        hasher_write_usize(state, h as usize);
    }
}

impl PartialEq for OcTreeKey {
    fn eq(&self, other: &Self) -> (r: bool) {
        self.k[0] == other.k[0] && self.k[1] == other.k[1] && self.k[2] == other.k[2]
    }
}

impl vstd::std_specs::cmp::PartialEqSpecImpl for OcTreeKey {
    open spec fn obeys_eq_spec() -> bool {
        true
    }

    open spec fn eq_spec(&self, other: &Self) -> bool {
        self.k[0] == other.k[0] && self.k[1] == other.k[1] && self.k[2] == other.k[2]
    }
}

impl Eq for OcTreeKey {}

impl std::ops::Index<usize> for OcTreeKey {
    type Output = OcTreeKeyType;

    fn index(&self, i: usize) -> (v: &OcTreeKeyType)
        ensures
            *v == self.k@[i as int],
    {
        &self.k[i]
    }
}

impl vstd::std_specs::core::IndexSpecImpl<usize> for OcTreeKey {
    open spec fn index_req(&self, index: &usize) -> bool {
        *index < 3
    }
}

impl std::ops::IndexMut<usize> for OcTreeKey {
    /// Mutable access to coordinate `i`, as `get_mut` gives it for `i < 3`.
    /// The trait leaves no place for the bound `i < 3`, so this method is
    /// total: an index of 3 or more addresses the z coordinate (an array
    /// index would panic there).
    fn index_mut(&mut self, i: usize) -> (v: &mut OcTreeKeyType)
        ensures
            i < 3 ==> *v == old(self).k@[i as int] && final(self).k@ == old(self).k@.update(
                i as int,
                *final(v),
            ),
            i >= 3 ==> *v == old(self).k@[2] && final(self).k@ == old(self).k@.update(2, *final(v)),
    {
        let j: usize = if i < 3 { i } else { 2 };
        &mut self.k[j]
    }
}

/// Keys along a ray: the first `end_of_ray` entries of `ray` are in use, and
/// `max_size` is the capacity that `add_key` respects.
#[derive(Clone, PartialEq)]
pub struct OcTreeKeyRay {
    pub ray: Vec<OcTreeKey>,
    pub end_of_ray: usize,
    pub max_size: usize,
}

impl OcTreeKeyRay {
    /// The capacity of a fresh ray.
    pub open spec fn default_capacity() -> nat {
        100000
    }

    /// Whether the ray has the shape that `new` gives and that `reset` and
    /// `add_key` keep: capacity 100000, as many stored keys as the capacity,
    /// and no more keys in use than the capacity.
    pub open spec fn is_standard(&self) -> bool {
        &&& self.max_size == Self::default_capacity()
        &&& self.ray.len() == self.max_size
        &&& self.end_of_ray <= self.max_size
    }

    /// A ray with room for 100000 keys, all set to the zero key, none in use.
    pub fn new() -> (r: Self)
        ensures
            r.is_standard(),
            r.max_size == Self::default_capacity(),
            r.ray.len() == Self::default_capacity(),
            r.end_of_ray == 0,
            forall|i: int| 0 <= i < r.ray.len() ==> (#[trigger] r.ray@[i]).k@ == seq![0u16, 0u16, 0u16],
    {
        let max_size: usize = 100000;
        let mut ray: Vec<OcTreeKey> = Vec::new();
        while ray.len() < max_size
            invariant
                ray.len() <= max_size,
                max_size == 100000,
                forall|i: int| 0 <= i < ray.len() ==> (#[trigger] ray@[i]).k@ == seq![0u16, 0u16, 0u16],
            decreases max_size - ray.len(),
        {
            ray.push(OcTreeKey::new());
        }
        OcTreeKeyRay { ray, end_of_ray: 0, max_size }
    }

    /// Marks the ray empty; the stored keys stay.
    pub fn reset(&mut self)
        ensures
            final(self).end_of_ray == 0,
            final(self).ray@ == old(self).ray@,
            final(self).max_size == old(self).max_size,
            old(self).is_standard() ==> final(self).is_standard(),
            ray_step(*old(self), *final(self)),
    {
        self.end_of_ray = 0;
    }

    /// Appends `k` after the keys in use.
    pub fn add_key(&mut self, k: OcTreeKey)
        requires
            old(self).end_of_ray < old(self).max_size,
            old(self).end_of_ray < old(self).ray.len(),
        ensures
            final(self).ray@ == old(self).ray@.update(old(self).end_of_ray as int, k),
            final(self).end_of_ray == old(self).end_of_ray + 1,
            final(self).max_size == old(self).max_size,
            old(self).is_standard() ==> final(self).is_standard(),
            ray_step(*old(self), *final(self)),
    {
        let i = self.end_of_ray;
        self.ray.set(i, k);
        self.end_of_ray = i + 1;
        proof {
            assert(self.ray@ == old(self).ray@.update(old(self).end_of_ray as int, k));
        }
    }

    /// Number of keys in use.
    pub fn size(&self) -> (n: usize)
        ensures
            n == self.end_of_ray,
    {
        self.end_of_ray
    }

    /// Capacity of the ray.
    pub fn size_max(&self) -> (n: usize)
        ensures
            n == self.max_size,
    {
        self.max_size
    }
}

/// On a ray of the standard shape, which `new` gives and `reset` and
/// `add_key` keep, `size()` never exceeds `size_max()` and room below the
/// capacity (`size() < size_max()`) is all that `add_key` needs.
pub proof fn lemma_standard_ray_bounds(r: OcTreeKeyRay)
    requires
        r.is_standard(),
    ensures
        r.max_size == OcTreeKeyRay::default_capacity(),
        r.ray.len() == r.max_size,
        r.end_of_ray <= r.max_size,
        r.end_of_ray < r.max_size ==> r.end_of_ray < r.ray.len(),
{
}

/// Whether `next` is what `reset`, or `add_key` called while `size() <
/// size_max()`, makes of `prev`, as their contracts state.
pub open spec fn ray_step(prev: OcTreeKeyRay, next: OcTreeKeyRay) -> bool {
    ||| {
        &&& next.end_of_ray == 0
        &&& next.ray@ == prev.ray@
        &&& next.max_size == prev.max_size
    }
    ||| exists|k: OcTreeKey|
        {
            &&& prev.end_of_ray < prev.max_size
            &&& next.ray@ == #[trigger] prev.ray@.update(prev.end_of_ray as int, k)
            &&& next.end_of_ray == prev.end_of_ray + 1
            &&& next.max_size == prev.max_size
        }
}

/// A ray made by `new` and then changed by any run of `reset` and
/// `add_key` calls, each `add_key` made while `size() < size_max()`, keeps
/// capacity 100000, as many stored keys as the capacity, and `size()` at
/// most `size_max()`; every such `add_key` call meets its precondition.
pub proof fn lemma_ray_history_stays_standard(states: Seq<OcTreeKeyRay>)
    requires
        states.len() >= 1,
        states[0].max_size == OcTreeKeyRay::default_capacity(),
        states[0].ray.len() == OcTreeKeyRay::default_capacity(),
        states[0].end_of_ray == 0,
        forall|i: int| 0 <= i < states.len() - 1 ==> #[trigger] ray_step(states[i], states[i + 1]),
    ensures
        forall|i: int|
            0 <= i < states.len() ==> (#[trigger] states[i]).max_size == OcTreeKeyRay::default_capacity()
                && states[i].ray.len() == states[i].max_size && states[i].end_of_ray <= states[i].max_size,
        forall|i: int|
            0 <= i < states.len() && states[i].end_of_ray < states[i].max_size ==> #[trigger] states[i].end_of_ray
                < states[i].ray.len(),
    decreases states.len(),
{
    if states.len() > 1 {
        let prefix = states.drop_last();
        assert forall|i: int| 0 <= i < prefix.len() - 1 implies #[trigger] ray_step(prefix[i], prefix[i + 1]) by {
            assert(ray_step(states[i], states[i + 1]));
        }
        lemma_ray_history_stays_standard(prefix);
        let n = states.len() - 1;
        let m = n - 1;
        assert(ray_step(states[m], states[m + 1]));
        assert(prefix[n - 1] == states[n - 1]);
        assert(states[n].ray@.len() == states[n - 1].ray@.len());
        assert forall|i: int|
            0 <= i < states.len() implies (#[trigger] states[i]).max_size == OcTreeKeyRay::default_capacity()
            && states[i].ray.len() == states[i].max_size && states[i].end_of_ray <= states[i].max_size by {
            if i < n {
                assert(prefix[i] == states[i]);
            }
        }
    }
}

/// Whether bit `axis` of the child position `pos` is set: bit 0 selects the
/// upper half along x, bit 1 along y, bit 2 along z.
pub open spec fn pos_selects(pos: u8, axis: nat) -> bool {
    (pos as nat / pow2(axis)) % 2 == 1
}

/// Coordinate of a child along one axis: `offset` above the parent's when
/// `upper`, else `offset` below it, one lower still when `offset` is zero.
pub open spec fn child_coord(parent: u16, offset: u16, upper: bool) -> int {
    if upper {
        parent + offset
    } else if offset != 0 {
        parent - offset
    } else {
        parent - 1
    }
}

/// Whether `child_coord` stays within the key type.
pub open spec fn child_coord_fits(parent: u16, offset: u16, upper: bool) -> bool {
    0 <= child_coord(parent, offset, upper) <= u16::MAX
}

/// Bit `d` of a key coordinate.
pub open spec fn key_bit(v: u16, d: nat) -> bool {
    (v as nat / pow2(d)) % 2 == 1
}

/// Child position that the bits `d` of the three coordinates select.
pub open spec fn child_index_of(k: Seq<u16>, d: nat) -> nat {
    (if key_bit(k[0], d) { 1nat } else { 0nat }) + (if key_bit(k[1], d) { 2nat } else { 0nat }) + (
    if key_bit(k[2], d) { 4nat } else { 0nat })
}

/// A coordinate with its lowest `level` bits cleared.
pub open spec fn coord_at_level(v: u16, level: nat) -> nat {
    (v as nat / pow2(level)) * pow2(level)
}

proof fn lemma_pos_bits(pos: u8)
    ensures
        (pos & 1u8 != 0) == pos_selects(pos, 0),
        (pos & 2u8 != 0) == pos_selects(pos, 1),
        (pos & 4u8 != 0) == pos_selects(pos, 2),
{
    vstd::arithmetic::power2::lemma2_to64();
    assert((pos & 1u8 != 0) == (pos % 2 == 1)) by (bit_vector);
    assert((pos & 2u8 != 0) == ((pos / 2) % 2 == 1)) by (bit_vector);
    assert((pos & 4u8 != 0) == ((pos / 4) % 2 == 1)) by (bit_vector);
}

/// Key of child `pos` (0 to 7) of the voxel with key `parent_key`, whose
/// children lie `center_offset_key` away from its center along each axis.
pub fn compute_child_key(pos: u8, center_offset_key: OcTreeKeyType, parent_key: &OcTreeKey) -> (child_key: OcTreeKey)
    requires
        child_coord_fits(parent_key.k[0], center_offset_key, pos_selects(pos, 0)),
        child_coord_fits(parent_key.k[1], center_offset_key, pos_selects(pos, 1)),
        child_coord_fits(parent_key.k[2], center_offset_key, pos_selects(pos, 2)),
    ensures
        child_key.k[0] == child_coord(parent_key.k[0], center_offset_key, pos_selects(pos, 0)),
        child_key.k[1] == child_coord(parent_key.k[1], center_offset_key, pos_selects(pos, 1)),
        child_key.k[2] == child_coord(parent_key.k[2], center_offset_key, pos_selects(pos, 2)),
{
    proof {
        lemma_pos_bits(pos);
    }
    let mut child_key = OcTreeKey::new();
    let below: OcTreeKeyType = if center_offset_key != 0 { 0 } else { 1 };

    if pos & 1 != 0 {
        child_key.k[0] = parent_key.k[0] + center_offset_key;
    } else {
        child_key.k[0] = parent_key.k[0] - center_offset_key - below;
    }

    if pos & 2 != 0 {
        child_key.k[1] = parent_key.k[1] + center_offset_key;
    } else {
        child_key.k[1] = parent_key.k[1] - center_offset_key - below;
    }

    if pos & 4 != 0 {
        child_key.k[2] = parent_key.k[2] + center_offset_key;
    } else {
        child_key.k[2] = parent_key.k[2] - center_offset_key - below;
    }

    child_key
}

proof fn lemma_key_bit(v: u16, d: u8)
    requires
        d < 16,
    ensures
        (v & (1u16 << d) != 0) == key_bit(v, d as nat),
{
    assert((v & (1u16 << d) != 0) == (((v >> (d as u16)) % 2) == 1)) by (bit_vector)
        requires
            d < 16,
    ;
    vstd::bits::lemma_u16_shr_is_div(v, d as u16);
}

/// Child position (0 to 7) that `key` falls in, one level above depth bit
/// `depth`: bit `depth` of the x, y and z coordinates give bits 0, 1 and 2.
pub fn compute_child_idx(key: &OcTreeKey, depth: u8) -> (pos: u8)
    requires
        depth < 16,
    ensures
        pos == child_index_of(key.k@, depth as nat),
        pos < 8,
{
    proof {
        lemma_key_bit(key.k[0], depth);
        lemma_key_bit(key.k[1], depth);
        lemma_key_bit(key.k[2], depth);
    }
    let mut pos: u8 = 0;
    if key.k[0] & (1 << depth) != 0 {
        pos += 1;
    }
    if key.k[1] & (1 << depth) != 0 {
        pos += 2;
    }
    if key.k[2] & (1 << depth) != 0 {
        pos += 4;
    }
    pos
}

proof fn lemma_mask_level(v: u16, level: u16)
    requires
        level < 16,
    ensures
        (v & (65535u16 << level)) as nat == coord_at_level(v, level as nat),
{
    assert(v & (65535u16 << level) == (v >> level) << level) by (bit_vector)
        requires
            level < 16,
    ;
    let q = v >> level;
    vstd::bits::lemma_u16_shr_is_div(v, level);
    vstd::arithmetic::power2::lemma_pow2_pos(level as nat);
    let p = pow2(level as nat) as int;
    vstd::arithmetic::div_mod::lemma_fundamental_div_mod(v as int, p);
    vstd::arithmetic::div_mod::lemma_mod_pos_bound(v as int, p);
    vstd::arithmetic::mul::lemma_mul_is_commutative(p, v as int / p);
    assert(q * pow2(level as nat) <= u16::MAX);
    vstd::bits::lemma_u16_shl_is_mul(q, level);
}

/// Key of the ancestor voxel `level` levels up: each coordinate with its
/// lowest `level` bits cleared.
pub fn compute_index_key(level: OcTreeKeyType, key: &OcTreeKey) -> (result: OcTreeKey)
    requires
        level < 16,
    ensures
        result.k[0] == coord_at_level(key.k[0], level as nat),
        result.k[1] == coord_at_level(key.k[1], level as nat),
        result.k[2] == coord_at_level(key.k[2], level as nat),
{
    if level == 0 {
        proof {
            vstd::arithmetic::power2::lemma2_to64();
            assert(coord_at_level(key.k[0], 0) == key.k[0]);
            assert(coord_at_level(key.k[1], 0) == key.k[1]);
            assert(coord_at_level(key.k[2], 0) == key.k[2]);
        }
        *key
    } else {
        let mask: OcTreeKeyType = 65535 << level;
        proof {
            lemma_mask_level(key.k[0], level);
            lemma_mask_level(key.k[1], level);
            lemma_mask_level(key.k[2], level);
        }
        let mut result = *key;
        result.k[0] = result.k[0] & mask;
        result.k[1] = result.k[1] & mask;
        result.k[2] = result.k[2] & mask;
        result
    }
}

/// Offset from a voxel's center to its children's centers along one axis,
/// for a voxel whose center coordinates have bit `d` set and lower bits clear.
pub open spec fn center_offset(d: nat) -> u16 {
    if d == 0 {
        0
    } else {
        pow2((d - 1) as nat) as u16
    }
}

/// Whether `v` is the coordinate of a voxel center at depth bit `d`: bit `d`
/// set, all lower bits clear.
pub open spec fn is_center_coord(v: u16, d: nat) -> bool {
    v as nat % pow2(d + 1) == pow2(d)
}

#[verifier::spinoff_prover]
proof fn lemma_child_coord_bit(p: u16, d: nat, upper: bool)
    requires
        d < 16,
        is_center_coord(p, d),
    ensures
        child_coord_fits(p, center_offset(d), upper),
        key_bit(child_coord(p, center_offset(d), upper) as u16, d) == upper,
{
    lemma_pow2_pos(d);
    lemma_pow2_unfold(d + 1);
    lemma2_to64();
    lemma_pow2_adds(d + 1, (15 - d) as nat);
    let big: int = pow2(((d + 1) + (15 - d)) as nat) as int;
    assert(big == 65536) by {
        assert(((d + 1) + (15 - d)) as nat == 16);
    }
    let pp: int = pow2(d) as int;
    let p2: int = pow2(d + 1) as int;
    let m: int = pow2((15 - d) as nat) as int;
    let a: int = p as int / p2;
    lemma_fundamental_div_mod(p as int, p2);
    assert(p as int == a * p2 + pp);
    assert(p2 * m == 65536);
    assert(a * p2 <= 65536 - p2) by (nonlinear_arith)
        requires
            a * p2 + pp <= 65535,
            p2 * m == 65536,
            p2 == 2 * pp,
            pp > 0,
            a >= 0,
    {
        if a > m - 1 {
            assert(a * p2 >= m * p2);
        }
        assert(a <= m - 1);
        assert(a * p2 <= (m - 1) * p2);
    }
    let o: int = center_offset(d) as int;
    if d == 0 {
        assert(pp == 1);
        assert(o == 0);
    } else {
        lemma_pow2_unfold(d);
        assert(pp == 2 * (pow2((d - 1) as nat) as int));
        assert(pow2((d - 1) as nat) < 65536);
        assert(o == pp / 2);
    }
    assert(0 <= o < pp);
    let c: int = child_coord(p, center_offset(d), upper);
    if upper {
        assert(c == (2 * a + 1) * pp + o) by (nonlinear_arith)
            requires
                c == a * p2 + pp + o,
                p2 == 2 * pp,
        ;
        lemma_fundamental_div_mod_converse(c, pp, 2 * a + 1, o);
        assert(c <= 65535);
        assert((c / pp) % 2 == 1);
    } else if d == 0 {
        assert(c == 2 * a);
        assert(c / pp == 2 * a) by (nonlinear_arith)
            requires
                pp == 1,
                c == 2 * a,
        ;
    } else {
        assert(c == (2 * a) * pp + o) by (nonlinear_arith)
            requires
                c == a * p2 + pp - o,
                p2 == 2 * pp,
                pp == 2 * o,
        ;
        lemma_fundamental_div_mod_converse(c, pp, 2 * a, o);
    }
    assert(c >= 0) by (nonlinear_arith)
        requires
            a >= 0,
            pp > 0,
            0 <= o < pp,
            c == a * p2 + pp + o || c == (2 * a) * pp + o || c == 2 * a,
            p2 == 2 * pp,
    ;
}

proof fn lemma_pos_decomposes(pos: u8)
    requires
        pos < 8,
    ensures
        pos as nat == (if pos_selects(pos, 0) { 1nat } else { 0nat }) + (if pos_selects(pos, 1) { 2nat } else { 0nat }) + (
        if pos_selects(pos, 2) { 4nat } else { 0nat }),
{
    vstd::arithmetic::power2::lemma2_to64();
    assert(pos == pos % 2 + 2 * ((pos / 2) % 2) + 4 * ((pos / 4) % 2)) by (bit_vector)
        requires
            pos < 8,
    ;
}

/// The child position that `compute_child_idx` reads back at depth bit
/// `d` from the key that `compute_child_key` builds for position `pos` is
/// `pos`, for any parent whose coordinates are voxel centers at that depth
/// (bit `d` set, lower bits clear) and the center offset of that depth; the
/// child key then always fits the key type.
pub proof fn lemma_child_idx_inverts_child_key(pos: u8, d: nat, parent: OcTreeKey)
    requires
        pos < 8,
        d < 16,
        is_center_coord(parent.k[0], d),
        is_center_coord(parent.k[1], d),
        is_center_coord(parent.k[2], d),
    ensures
        child_coord_fits(parent.k[0], center_offset(d), pos_selects(pos, 0)),
        child_coord_fits(parent.k[1], center_offset(d), pos_selects(pos, 1)),
        child_coord_fits(parent.k[2], center_offset(d), pos_selects(pos, 2)),
        child_index_of(
            seq![
                child_coord(parent.k[0], center_offset(d), pos_selects(pos, 0)) as u16,
                child_coord(parent.k[1], center_offset(d), pos_selects(pos, 1)) as u16,
                child_coord(parent.k[2], center_offset(d), pos_selects(pos, 2)) as u16,
            ],
            d,
        ) == pos,
{
    lemma_child_coord_bit(parent.k[0], d, pos_selects(pos, 0));
    lemma_child_coord_bit(parent.k[1], d, pos_selects(pos, 1));
    lemma_child_coord_bit(parent.k[2], d, pos_selects(pos, 2));
    lemma_pos_decomposes(pos);
}

/// Clearing the lowest `level` bits of a coordinate, as
/// `compute_index_key` does, is idempotent and leaves every bit at or above
/// `level` as it was, so every child position that `compute_child_idx` reads
/// at a depth bit `d >= level` is unchanged.
pub proof fn lemma_index_key_keeps_upper_bits(v: u16, level: nat, d: nat)
    requires
        level <= d < 16,
    ensures
        coord_at_level(v, level) <= u16::MAX,
        coord_at_level(coord_at_level(v, level) as u16, level) == coord_at_level(v, level),
        key_bit(coord_at_level(v, level) as u16, d) == key_bit(v, d),
{
    let pl: int = pow2(level) as int;
    let e: nat = (d - level) as nat;
    let pe: int = pow2(e) as int;
    lemma_pow2_pos(level);
    lemma_pow2_pos(e);
    lemma_pow2_adds(level, e);
    assert(level + e == d);
    let q: int = v as int / pl;
    assert(q >= 0);
    lemma_fundamental_div_mod(v as int, pl);
    assert(q * pl <= v) by (nonlinear_arith)
        requires
            v as int == pl * q + v as int % pl,
            v as int % pl >= 0,
    ;
    lemma_div_by_multiple(q, pl);
    assert(coord_at_level(v, level) == q * pl);
    lemma_div_denominator(q * pl, pl, pe);
    lemma_div_denominator(v as int, pl, pe);
    assert(pl * pe == pow2(d) as int);
}

} // verus!
