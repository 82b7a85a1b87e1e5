//! Grid geometry of the SegLink text detector: the six detection layers, the
//! flat offsets of their nodes and links, and the neighbours of a node.

use vstd::prelude::*;
use vstd::arithmetic::power2::{pow2, lemma2_to64, lemma_pow2_unfold, lemma_pow2_pos};
use vstd::arithmetic::div_mod::{lemma_fundamental_div_mod, lemma_fundamental_div_mod_converse};

verus! {

/// Number of detection layers.
pub const N_DET_LAYERS: usize = 6;

/// Links from a node to its eight neighbours in the same layer.
pub const N_LOCAL_LINKS: usize = 8;

/// Links from a node to the four nodes below it in the previous layer.
pub const N_CROSS_LINKS: usize = 4;

/// Downscaling factor of layer `i`: `4 * 2^i`.
pub open spec fn layer_scale(i: nat) -> nat {
    pow2(i + 2)
}

/// Size of layer `i`'s map, both sides of the image divided by its scale.
pub open spec fn layer_dims(image_size: (usize, usize), i: nat) -> (nat, nat) {
    (image_size.0 as nat / layer_scale(i), image_size.1 as nat / layer_scale(i))
}

/// Number of nodes in layer `i`.
pub open spec fn layer_nodes(image_size: (usize, usize), i: nat) -> nat {
    layer_dims(image_size, i).0 * layer_dims(image_size, i).1
}

/// Links per node of layer `i`: eight local links, and in every layer but
/// the first four cross links as well.
pub open spec fn links_per_node(i: nat) -> nat {
    if i == 0 { 8 } else { 12 }
}

/// Flat offset of layer `i`'s first node: the nodes of all layers below it.
pub open spec fn nodes_before(image_size: (usize, usize), i: nat) -> nat
    decreases i,
{
    if i == 0 {
        0
    } else {
        nodes_before(image_size, (i - 1) as nat) + layer_nodes(image_size, (i - 1) as nat)
    }
}

/// Flat offset of layer `i`'s first link: the links of all layers below it.
pub open spec fn links_before(image_size: (usize, usize), i: nat) -> nat
    decreases i,
{
    if i == 0 {
        0
    } else {
        links_before(image_size, (i - 1) as nat) + layer_nodes(image_size, (i - 1) as nat)
            * links_per_node((i - 1) as nat)
    }
}

/// Whether the node and link counts of all six layers fit in `usize`.
pub open spec fn layout_fits(image_size: (usize, usize)) -> bool {
    nodes_before(image_size, 6) <= usize::MAX && links_before(image_size, 6) <= usize::MAX
}

proof fn lemma_before_monotonic(image_size: (usize, usize), i: nat, j: nat)
    requires
        i <= j,
    ensures
        nodes_before(image_size, i) <= nodes_before(image_size, j),
        links_before(image_size, i) <= links_before(image_size, j),
    decreases j - i,
{
    if i < j {
        lemma_before_monotonic(image_size, i, (j - 1) as nat);
    }
}

/// Whether the node and link counts of all six layers for an image of
/// `image_size` fit in `usize`, as `layer_layout` needs.
pub fn layout_fits_in_usize(image_size: (usize, usize)) -> (r: bool)
    ensures
        r == layout_fits(image_size),
{
    let mut node: usize = 0;
    let mut link: usize = 0;
    let mut scale: usize = 4;
    proof {
        lemma2_to64();
    }
    let mut i: usize = 0;
    while i < N_DET_LAYERS
        invariant
            i <= N_DET_LAYERS,
            scale == layer_scale(i as nat),
            node == nodes_before(image_size, i as nat),
            link == links_before(image_size, i as nat),
        decreases N_DET_LAYERS - i,
    {
        proof {
            lemma_pow2_pos(i as nat + 2);
            lemma_before_monotonic(image_size, (i + 1) as nat, 6);
            assert(nodes_before(image_size, (i + 1) as nat) == nodes_before(image_size, i as nat)
                + layer_nodes(image_size, i as nat));
            assert(links_before(image_size, (i + 1) as nat) == links_before(image_size, i as nat)
                + layer_nodes(image_size, i as nat) * links_per_node(i as nat));
        }
        let d0 = image_size.0 / scale;
        let d1 = image_size.1 / scale;
        let per: usize = if i == 0 { N_LOCAL_LINKS } else { N_LOCAL_LINKS + N_CROSS_LINKS };
        let count = match d0.checked_mul(d1) {
            Some(c) => c,
            None => {
                return false;
            },
        };
        node = match node.checked_add(count) {
            Some(v) => v,
            None => {
                return false;
            },
        };
        let layer_links = match count.checked_mul(per) {
            Some(c) => c,
            None => {
                proof {
                    assert(count * per <= layer_nodes(image_size, i as nat) * links_per_node(i as nat));
                }
                return false;
            },
        };
        link = match link.checked_add(layer_links) {
            Some(v) => v,
            None => {
                return false;
            },
        };
        proof {
            lemma_pow2_unfold(i as nat + 3);
            assert(layer_scale((i + 1) as nat) == 2 * layer_scale(i as nat));
            assert(layer_scale((i + 1) as nat) <= 256) by {
                lemma2_to64();
            }
        }
        scale = scale * 2;
        i += 1;
    }
    true
}

/// Map sizes and first offsets of the six layers for an image of
/// `image_size`: entry `i` of the first vector is layer `i`'s map size, entry
/// `i` of the second the flat offsets of its first node and first link.
pub fn layer_layout(image_size: (usize, usize)) -> (layout: (Vec<(usize, usize)>, Vec<(usize, usize)>))
    requires
        layout_fits(image_size),
    ensures
        layout.0.len() == N_DET_LAYERS,
        layout.1.len() == N_DET_LAYERS,
        forall|i: int|
            0 <= i < N_DET_LAYERS ==> (#[trigger] layout.0@[i]).0 == layer_dims(image_size, i as nat).0
                && layout.0@[i].1 == layer_dims(image_size, i as nat).1,
        forall|i: int|
            0 <= i < N_DET_LAYERS ==> (#[trigger] layout.1@[i]).0 == nodes_before(image_size, i as nat)
                && layout.1@[i].1 == links_before(image_size, i as nat),
        origins_chain(layout.0@, layout.1@),
{
    let mut map_size: Vec<(usize, usize)> = Vec::new();
    let mut offsets_defaults: Vec<(usize, usize)> = Vec::new();
    let mut offsets_default_node: usize = 0;
    let mut offsets_default_link: usize = 0;
    let mut scale: usize = 4;
    proof {
        lemma2_to64();
    }
    let mut i: usize = 0;
    while i < N_DET_LAYERS
        invariant
            i <= N_DET_LAYERS,
            layout_fits(image_size),
            scale == layer_scale(i as nat),
            offsets_default_node == nodes_before(image_size, i as nat),
            offsets_default_link == links_before(image_size, i as nat),
            map_size.len() == i,
            offsets_defaults.len() == i,
            forall|j: int|
                0 <= j < i ==> (#[trigger] map_size@[j]).0 == layer_dims(image_size, j as nat).0
                    && map_size@[j].1 == layer_dims(image_size, j as nat).1,
            forall|j: int|
                0 <= j < i ==> (#[trigger] offsets_defaults@[j]).0 == nodes_before(image_size, j as nat)
                    && offsets_defaults@[j].1 == links_before(image_size, j as nat),
        decreases N_DET_LAYERS - i,
    {
        offsets_defaults.push((offsets_default_node, offsets_default_link));
        proof {
            lemma_pow2_pos(i as nat + 2);
        }
        let layer_size = (image_size.0 / scale, image_size.1 / scale);
        map_size.push(layer_size);
        proof {
            lemma_before_monotonic(image_size, (i + 1) as nat, 6);
            assert(nodes_before(image_size, (i + 1) as nat) == nodes_before(image_size, i as nat)
                + layer_nodes(image_size, i as nat));
            assert(links_before(image_size, (i + 1) as nat) == links_before(image_size, i as nat)
                + layer_nodes(image_size, i as nat) * links_per_node(i as nat));
        }
        let count = layer_size.0 * layer_size.1;
        offsets_default_node += count;
        if i == 0 {
            offsets_default_link += count * N_LOCAL_LINKS;
        } else {
            offsets_default_link += count * (N_LOCAL_LINKS + N_CROSS_LINKS);
        }
        proof {
            lemma_pow2_unfold(i as nat + 3);
            assert(layer_scale((i + 1) as nat) == 2 * layer_scale(i as nat));
            assert(layer_scale((i + 1) as nat) <= 256) by {
                lemma2_to64();
            }
        }
        scale = scale * 2;
        i += 1;
    }
    proof {
        assert forall|l: int| 0 < l < N_DET_LAYERS implies #[trigger] offsets_defaults@[l].0 == offsets_defaults@[l
            - 1].0 + map_size@[l - 1].0 * map_size@[l - 1].1 by {
            assert(nodes_before(image_size, l as nat) == nodes_before(image_size, (l - 1) as nat) + layer_nodes(
                image_size,
                (l - 1) as nat,
            ));
            assert(map_size@[l - 1].0 == layer_dims(image_size, (l - 1) as nat).0);
            assert(offsets_defaults@[l - 1].0 == nodes_before(image_size, (l - 1) as nat));
        }
        assert(offsets_defaults@[0].0 == 0);
    }
    (map_size, offsets_defaults)
}

/// Layer that flat node offset `offsets` falls in: the first layer whose
/// successor starts above it, the last layer for all larger offsets.
pub open spec fn coord_layer(offsets: usize, offsets_defaults: Seq<(usize, usize)>) -> nat {
    if offsets < offsets_defaults[1].0 {
        0
    } else if offsets < offsets_defaults[2].0 {
        1
    } else if offsets < offsets_defaults[3].0 {
        2
    } else if offsets < offsets_defaults[4].0 {
        3
    } else if offsets < offsets_defaults[5].0 {
        4
    } else {
        5
    }
}

/// Offset that positions in layer `l` are counted from; layer 0 counts
/// from zero.
pub open spec fn layer_origin(l: nat, offsets_defaults: Seq<(usize, usize)>) -> nat {
    if l == 0 { 0 } else { offsets_defaults[l as int].0 as nat }
}

/// `(layer, x, y)` of flat node offset `offsets`: its position in its layer,
/// row by row, with rows as long as the layer's map is wide (`.1`).
pub open spec fn coord_of(offsets: usize, map_size: Seq<(usize, usize)>, offsets_defaults: Seq<(usize, usize)>) -> (nat, nat, nat) {
    let l = coord_layer(offsets, offsets_defaults);
    let rel = (offsets - layer_origin(l, offsets_defaults)) as nat;
    let w = map_size[l as int].1 as nat;
    (l, rel % w, rel / w)
}

/// Whether `get_coord` can place `offsets`: six layers are described and
/// the layer it falls in has a nonzero width.
pub open spec fn coord_defined(offsets: usize, map_size: Seq<(usize, usize)>, offsets_defaults: Seq<(usize, usize)>) -> bool {
    &&& map_size.len() >= N_DET_LAYERS
    &&& offsets_defaults.len() >= N_DET_LAYERS
    &&& map_size[coord_layer(offsets, offsets_defaults) as int].1 > 0
}

/// Whether `get_coord` can place `offsets`.
pub fn coord_is_defined(offsets: usize, map_size: &Vec<(usize, usize)>, offsets_defaults: &Vec<(usize, usize)>) -> (r: bool)
    ensures
        r == coord_defined(offsets, map_size@, offsets_defaults@),
{
    if map_size.len() < N_DET_LAYERS || offsets_defaults.len() < N_DET_LAYERS {
        return false;
    }
    let l: usize = if offsets < offsets_defaults[1].0 {
        0
    } else if offsets < offsets_defaults[2].0 {
        1
    } else if offsets < offsets_defaults[3].0 {
        2
    } else if offsets < offsets_defaults[4].0 {
        3
    } else if offsets < offsets_defaults[5].0 {
        4
    } else {
        5
    };
    map_size[l].1 > 0
}

/// Layer and position of flat node offset `offsets`.
pub fn get_coord(offsets: usize, map_size: &Vec<(usize, usize)>, offsets_defaults: &Vec<(usize, usize)>) -> (c: (usize, usize, usize))
    requires
        coord_defined(offsets, map_size@, offsets_defaults@),
    ensures
        c.0 == coord_of(offsets, map_size@, offsets_defaults@).0,
        c.1 == coord_of(offsets, map_size@, offsets_defaults@).1,
        c.2 == coord_of(offsets, map_size@, offsets_defaults@).2,
{
    if offsets < offsets_defaults[1].0 {
        let l_idx: usize = 0;
        let x = offsets % map_size[0].1;
        let y = offsets / map_size[0].1;
        (l_idx, x, y)
    } else if offsets < offsets_defaults[2].0 {
        let l_idx: usize = 1;
        let x = (offsets - offsets_defaults[1].0) % map_size[1].1;
        let y = (offsets - offsets_defaults[1].0) / map_size[1].1;
        (l_idx, x, y)
    } else if offsets < offsets_defaults[3].0 {
        let l_idx: usize = 2;
        let x = (offsets - offsets_defaults[2].0) % map_size[2].1;
        let y = (offsets - offsets_defaults[2].0) / map_size[2].1;
        (l_idx, x, y)
    } else if offsets < offsets_defaults[4].0 {
        let l_idx: usize = 3;
        let x = (offsets - offsets_defaults[3].0) % map_size[3].1;
        let y = (offsets - offsets_defaults[3].0) / map_size[3].1;
        (l_idx, x, y)
    } else if offsets < offsets_defaults[5].0 {
        let l_idx: usize = 4;
        let x = (offsets - offsets_defaults[4].0) % map_size[4].1;
        let y = (offsets - offsets_defaults[4].0) / map_size[4].1;
        (l_idx, x, y)
    } else {
        let l_idx: usize = 5;
        let x = (offsets - offsets_defaults[5].0) % map_size[5].1;
        let y = (offsets - offsets_defaults[5].0) / map_size[5].1;
        (l_idx, x, y)
    }
}

/// Whether `(x, y)` lies on layer `l`'s map: `x` below its width (`.1`),
/// `y` below its height (`.0`).
pub open spec fn coord_valid(l: usize, x: usize, y: usize, map_size: Seq<(usize, usize)>) -> bool {
    x < map_size[l as int].1 && y < map_size[l as int].0
}

/// Whether `(x, y)` lies on layer `l_idx`'s map.
pub fn is_valid_coord(l_idx: usize, x: usize, y: usize, map_size: &Vec<(usize, usize)>) -> (r: bool)
    requires
        l_idx < map_size.len(),
    ensures
        r == coord_valid(l_idx, x, y, map_size@),
{
    let w = map_size[l_idx].1;
    let h = map_size[l_idx].0;
    x < w && y < h
}

/// Cells that node `(l, x, y)` may link to, in link order: its eight
/// neighbours in layer `l` (coordinates wrap at zero and at the top of
/// `usize`), and above layer 0 also the four cells under it in layer `l - 1`.
pub open spec fn neighbour_candidates(l: usize, x: usize, y: usize) -> Seq<(usize, usize, usize)> {
    let xm = x.wrapping_sub(1);
    let xp = x.wrapping_add(1);
    let ym = y.wrapping_sub(1);
    let yp = y.wrapping_add(1);
    let same = seq![
        (l, xm, ym),
        (l, x, ym),
        (l, xp, ym),
        (l, xm, y),
        (l, xp, y),
        (l, xm, yp),
        (l, x, yp),
        (l, xp, yp),
    ];
    if l == 0 {
        same
    } else {
        let lm = (l - 1) as usize;
        let x2 = (2 * x) as usize;
        let y2 = (2 * y) as usize;
        same + seq![
            (lm, x2, y2),
            ((l - 1) as usize, (2 * x + 1) as usize, y2),
            (lm, x2, (2 * y + 1) as usize),
            (lm, (2 * x + 1) as usize, (2 * y + 1) as usize),
        ]
    }
}

/// Flat offset of the node at cell `c`.
pub open spec fn cell_node_offset(c: (usize, usize, usize), map_size: Seq<(usize, usize)>, offsets_defaults: Seq<(usize, usize)>) -> int {
    offsets_defaults[c.0 as int].0 + map_size[c.0 as int].1 * c.2 + c.1
}

/// Flat offset of link `k` of node `(l, x, y)`.
pub open spec fn link_offset(l: usize, x: usize, y: usize, k: nat, map_size: Seq<(usize, usize)>, offsets_defaults: Seq<(usize, usize)>) -> int {
    offsets_defaults[l as int].1 + (map_size[l as int].1 * y + x) * links_per_node(l as nat) + k
}

/// The first `n` neighbour entries of node `(l, x, y)`: for each candidate
/// cell on its map, in link order, the cell's node offset, the link's
/// offset and the link's index.
pub open spec fn neighbour_entries(
    l: usize,
    x: usize,
    y: usize,
    map_size: Seq<(usize, usize)>,
    offsets_defaults: Seq<(usize, usize)>,
    n: nat,
) -> Seq<(usize, usize, usize)>
    decreases n,
{
    if n == 0 {
        seq![]
    } else {
        let prev = neighbour_entries(l, x, y, map_size, offsets_defaults, (n - 1) as nat);
        let c = neighbour_candidates(l, x, y)[n - 1];
        if coord_valid(c.0, c.1, c.2, map_size) {
            prev.push(
                (
                    cell_node_offset(c, map_size, offsets_defaults) as usize,
                    link_offset(l, x, y, (n - 1) as nat, map_size, offsets_defaults) as usize,
                    (n - 1) as usize,
                ),
            )
        } else {
            prev
        }
    }
}

/// Whether `get_neighbours` can run on node `(l, x, y)`: the layer is
/// described, doubling the position fits when there is a layer below, and
/// the offsets of all neighbours on the map fit in `usize`.
pub open spec fn neighbours_defined(
    l: usize,
    x: usize,
    y: usize,
    map_size: Seq<(usize, usize)>,
    offsets_defaults: Seq<(usize, usize)>,
) -> bool {
    &&& l < map_size.len()
    &&& l < offsets_defaults.len()
    &&& l > 0 ==> 2 * x + 1 <= usize::MAX && 2 * y + 1 <= usize::MAX
    &&& forall|k: int|
        0 <= k < neighbour_candidates(l, x, y).len() && #[trigger] coord_valid(
            neighbour_candidates(l, x, y)[k].0,
            neighbour_candidates(l, x, y)[k].1,
            neighbour_candidates(l, x, y)[k].2,
            map_size,
        ) ==> cell_node_offset(neighbour_candidates(l, x, y)[k], map_size, offsets_defaults) <= usize::MAX
            && link_offset(l, x, y, k as nat, map_size, offsets_defaults) <= usize::MAX
}

/// The cells that node `(l, x, y)` may link to, in link order.
pub fn neighbour_cells(l: usize, x: usize, y: usize) -> (cells: Vec<(usize, usize, usize)>)
    requires
        l > 0 ==> 2 * x + 1 <= usize::MAX && 2 * y + 1 <= usize::MAX,
    ensures
        cells@ == neighbour_candidates(l, x, y),
{
    let cells: Vec<(usize, usize, usize)>;
    if l == 0 {
        cells = vec![
            (0, x.wrapping_sub(1), y.wrapping_sub(1)),
            (0, x, y.wrapping_sub(1)),
            (0, x.wrapping_add(1), y.wrapping_sub(1)),
            (0, x.wrapping_sub(1), y),
            (0, x.wrapping_add(1), y),
            (0, x.wrapping_sub(1), y.wrapping_add(1)),
            (0, x, y.wrapping_add(1)),
            (0, x.wrapping_add(1), y.wrapping_add(1)),
        ];
    } else {
        cells = vec![
            (l, x.wrapping_sub(1), y.wrapping_sub(1)),
            (l, x, y.wrapping_sub(1)),
            (l, x.wrapping_add(1), y.wrapping_sub(1)),
            (l, x.wrapping_sub(1), y),
            (l, x.wrapping_add(1), y),
            (l, x.wrapping_sub(1), y.wrapping_add(1)),
            (l, x, y.wrapping_add(1)),
            (l, x.wrapping_add(1), y.wrapping_add(1)),
            (l.wrapping_sub(1), 2 * x, 2 * y),
            (l.wrapping_sub(1), 2 * x + 1, 2 * y),
            (l.wrapping_sub(1), 2 * x, 2 * y + 1),
            (l.wrapping_sub(1), 2 * x + 1, 2 * y + 1),
        ];
    }
    proof {
        assert(cells@ =~= neighbour_candidates(l, x, y));
    }
    cells
}

/// Whether `get_neighbours` can run on node `(l, x, y)` of a layer that is
/// described, whose position can be doubled when there is a layer below:
/// whether the offsets of all its neighbours on the map fit in `usize`.
pub fn neighbour_offsets_fit(
    l: usize,
    x: usize,
    y: usize,
    map_size: &Vec<(usize, usize)>,
    offsets_defaults: &Vec<(usize, usize)>,
) -> (r: bool)
    requires
        l < map_size.len(),
        l < offsets_defaults.len(),
        l > 0 ==> 2 * x + 1 <= usize::MAX && 2 * y + 1 <= usize::MAX,
    ensures
        r == neighbours_defined(l, x, y, map_size@, offsets_defaults@),
{
    let cells = neighbour_cells(l, x, y);
    let per_node: usize = if l == 0 { N_LOCAL_LINKS } else { N_LOCAL_LINKS + N_CROSS_LINKS };
    let mut k: usize = 0;
    while k < cells.len()
        invariant
            cells@ == neighbour_candidates(l, x, y),
            l < map_size.len(),
            l < offsets_defaults.len(),
            per_node == links_per_node(l as nat),
            k <= cells.len(),
            forall|j: int|
                0 <= j < k && #[trigger] coord_valid(cells@[j].0, cells@[j].1, cells@[j].2, map_size@) ==> cell_node_offset(
                    cells@[j],
                    map_size@,
                    offsets_defaults@,
                ) <= usize::MAX && link_offset(l, x, y, j as nat, map_size@, offsets_defaults@) <= usize::MAX,
        decreases cells.len() - k,
    {
        let (nl, nx, ny) = cells[k];
        proof {
            assert(nl < map_size.len());
        }
        if is_valid_coord(nl, nx, ny, map_size) {
            let w = map_size[nl].1;
            let node_ok = match w.checked_mul(ny) {
                Some(a) => match a.checked_add(nx) {
                    Some(b) => offsets_defaults[nl].0.checked_add(b).is_some(),
                    None => false,
                },
                None => false,
            };
            let lw = map_size[l].1;
            let link_ok = match lw.checked_mul(y) {
                Some(a) => match a.checked_add(x) {
                    Some(b) => match b.checked_mul(per_node) {
                        Some(c) => match offsets_defaults[l].1.checked_add(c) {
                            Some(d) => d.checked_add(k).is_some(),
                            None => false,
                        },
                        None => false,
                    },
                    None => false,
                },
                None => false,
            };
            proof {
                assert(cells@[k as int] == (nl, nx, ny));
                assert(cell_node_offset(cells@[k as int], map_size@, offsets_defaults@) == offsets_defaults@[nl as int].0
                    + w * ny + nx);
                assert(0 <= w * ny) by (nonlinear_arith);
                assert(0 <= (lw * y + x) * per_node) by (nonlinear_arith);
                assert((lw * y + x) * per_node >= lw * y + x) by (nonlinear_arith)
                    requires
                        per_node >= 1,
                        lw * y + x >= 0,
                ;
            }
            if !node_ok || !link_ok {
                return false;
            }
        }
        k += 1;
    }
    true
}

/// Neighbours of node `(l_idx, x, y)` that lie on their layer's map: for
/// each, its node offset, the offset of the link to it and the link index.
pub fn get_neighbours(
    l_idx: usize,
    x: usize,
    y: usize,
    map_size: &Vec<(usize, usize)>,
    offsets_defaults: &Vec<(usize, usize)>,
) -> (neighbours: Vec<(usize, usize, usize)>)
    requires
        neighbours_defined(l_idx, x, y, map_size@, offsets_defaults@),
    ensures
        neighbours@ == neighbour_entries(
            l_idx,
            x,
            y,
            map_size@,
            offsets_defaults@,
            neighbour_candidates(l_idx, x, y).len(),
        ),
{
    let coord = neighbour_cells(l_idx, x, y);

    let mut neighbours_offsets: Vec<(usize, usize, usize)> = Vec::new();
    let mut link_idx: usize = 0;
    let n = coord.len();
    while link_idx < n
        invariant
            n == coord.len(),
            coord@ == neighbour_candidates(l_idx, x, y),
            link_idx <= n,
            neighbours_defined(l_idx, x, y, map_size@, offsets_defaults@),
            neighbours_offsets@ == neighbour_entries(l_idx, x, y, map_size@, offsets_defaults@, link_idx as nat),
        decreases n - link_idx,
    {
        let (nl_idx, nx, ny) = coord[link_idx];
        if is_valid_coord(nl_idx, nx, ny, map_size) {
            proof {
                assert(coord_valid(coord@[link_idx as int].0, coord@[link_idx as int].1, coord@[link_idx as int].2, map_size@));
            }
            let neighbours_offset_node = offsets_defaults[nl_idx].0 + map_size[nl_idx].1 * ny + nx;
            if l_idx == 0 {
                let neighbours_offset_link = offsets_defaults[l_idx].1 + (map_size[l_idx].1 * y + x) * N_LOCAL_LINKS + link_idx;
                neighbours_offsets.push((neighbours_offset_node, neighbours_offset_link, link_idx));
            } else {
                let off_tmp = (map_size[l_idx].1 * y + x) * (N_LOCAL_LINKS + N_CROSS_LINKS);
                let neighbours_offset_link = offsets_defaults[l_idx].1 + off_tmp + link_idx;
                neighbours_offsets.push((neighbours_offset_node, neighbours_offset_link, link_idx));
            }
        }
        link_idx += 1;
    }
    neighbours_offsets
}

/// Placing a node offset and flattening the place back give the offset:
/// for every offset that `get_coord` can place, in a layout whose first
/// layer starts at offset 0 (as `layer_layout` builds it), the node offset
/// of `get_coord`'s cell, as `get_neighbours` computes it, is the offset.
pub proof fn lemma_coord_of_flattens_back(
    offsets: usize,
    map_size: Seq<(usize, usize)>,
    offsets_defaults: Seq<(usize, usize)>,
)
    requires
        coord_defined(offsets, map_size, offsets_defaults),
        offsets_defaults[0].0 == 0,
    ensures
        ({
            let c = coord_of(offsets, map_size, offsets_defaults);
            cell_node_offset((c.0 as usize, c.1 as usize, c.2 as usize), map_size, offsets_defaults) == offsets
        }),
{
    let l = coord_layer(offsets, offsets_defaults);
    let origin = layer_origin(l, offsets_defaults);
    let rel = (offsets - origin) as nat;
    let w = map_size[l as int].1 as nat;
    lemma_fundamental_div_mod(rel as int, w as int);
    assert(rel % w < w);
    assert(rel / w <= rel) by (nonlinear_arith)
        requires
            w > 0,
    ;
}

/// Whether the layer origins chain as `layer_layout` builds them: layer 0
/// starts at offset 0 and each later layer right after the nodes (height
/// times width) of the one before.
pub open spec fn origins_chain(map_size: Seq<(usize, usize)>, offsets_defaults: Seq<(usize, usize)>) -> bool {
    &&& map_size.len() >= N_DET_LAYERS
    &&& offsets_defaults.len() >= N_DET_LAYERS
    &&& offsets_defaults[0].0 == 0
    &&& forall|l: int|
        0 < l < N_DET_LAYERS ==> #[trigger] offsets_defaults[l].0 == offsets_defaults[l - 1].0 + map_size[l
            - 1].0 * map_size[l - 1].1
}

/// Flat offset of the node at `(x, y)` in layer `l`: the layer's origin
/// plus the row `y` times the layer's width, plus `x`.
pub open spec fn flat_offset(
    l: nat,
    x: nat,
    y: nat,
    map_size: Seq<(usize, usize)>,
    offsets_defaults: Seq<(usize, usize)>,
) -> int {
    offsets_defaults[l as int].0 + map_size[l as int].1 * y + x
}

/// `get_coord` gives back the layer and position of every node of every
/// layer, once the layer origins chain as `layer_layout` builds them: the
/// flat offset of `(x, y)` in layer `l` is placed, and at `(l, x, y)`.
pub proof fn lemma_get_coord_of_flat_offset(
    map_size: Seq<(usize, usize)>,
    offsets_defaults: Seq<(usize, usize)>,
    l: nat,
    x: nat,
    y: nat,
)
    requires
        origins_chain(map_size, offsets_defaults),
        l < N_DET_LAYERS,
        x < map_size[l as int].1,
        y < map_size[l as int].0,
        flat_offset(l, x, y, map_size, offsets_defaults) <= usize::MAX,
    ensures
        0 <= flat_offset(l, x, y, map_size, offsets_defaults) <= usize::MAX,
        coord_defined(flat_offset(l, x, y, map_size, offsets_defaults) as usize, map_size, offsets_defaults),
        coord_of(flat_offset(l, x, y, map_size, offsets_defaults) as usize, map_size, offsets_defaults) == (l, x, y),
{
    let od = offsets_defaults;
    let ms = map_size;
    let h = ms[l as int].0 as int;
    let w = ms[l as int].1 as int;
    let rel = w * y + x;
    assert(0 <= rel < h * w) by (nonlinear_arith)
        requires
            rel == w * y + x,
            x < w,
            y < h,
            x >= 0,
            y >= 0,
    ;
    assert forall|j: int| 0 <= j < N_DET_LAYERS implies #[trigger] (ms[j].0 * ms[j].1) >= 0 by {
        assert(ms[j].0 * ms[j].1 >= 0) by (nonlinear_arith);
    }
    assert(od[1].0 == od[0].0 + ms[0].0 * ms[0].1);
    assert(od[2].0 == od[1].0 + ms[1].0 * ms[1].1);
    assert(od[3].0 == od[2].0 + ms[2].0 * ms[2].1);
    assert(od[4].0 == od[3].0 + ms[3].0 * ms[3].1);
    assert(od[5].0 == od[4].0 + ms[4].0 * ms[4].1);
    assert(ms[0].0 * ms[0].1 >= 0);
    assert(ms[1].0 * ms[1].1 >= 0);
    assert(ms[2].0 * ms[2].1 >= 0);
    assert(ms[3].0 * ms[3].1 >= 0);
    assert(ms[4].0 * ms[4].1 >= 0);
    let off = flat_offset(l, x, y, ms, od);
    assert(off == od[l as int].0 + rel);
    assert(off < od[l as int].0 + h * w);
    if l < 5 {
        assert(od[l + 1int].0 == od[l as int].0 + h * w);
    }
    let o = off as usize;
    assert(coord_layer(o, od) == l);
    assert(layer_origin(l, od) == od[l as int].0);
    assert(rel == (y as int) * w + x) by (nonlinear_arith)
        requires
            rel == w * y + x,
    ;
    lemma_fundamental_div_mod_converse(rel, w, y as int, x as int);
}

/// Link `k` (0 to 7) of a node points across the 3 by 3 block around it,
/// read row by row from the top-left and skipping the centre: link `k` is
/// square `s` of the block, `s = k` for `k < 4` and `s = k + 1` after the
/// centre, at column offset `s % 3 - 1` and row offset `s / 3 - 1`. Above
/// layer 0, links 8 to 11 point to the four cells under the node in the
/// layer below, `(2x, 2y)`, `(2x + 1, 2y)`, `(2x, 2y + 1)`,
/// `(2x + 1, 2y + 1)`: link `8 + j` at column offset `j % 2` and row offset
/// `j / 2`. Layer 0 has the eight local links only. Stated for nodes whose
/// neighbours' coordinates do not wrap.
pub proof fn lemma_link_directions(l: usize, x: usize, y: usize)
    requires
        1 <= x < usize::MAX,
        1 <= y < usize::MAX,
        l > 0 ==> 2 * x + 1 <= usize::MAX && 2 * y + 1 <= usize::MAX,
    ensures
        neighbour_candidates(l, x, y).len() == if l == 0 { 8int } else { 12int },
        forall|k: int|
            0 <= k < 8 ==> {
                let s = if k < 4 { k } else { k + 1 };
                #[trigger] neighbour_candidates(l, x, y)[k] == (l, (x + s % 3 - 1) as usize, (y + s / 3 - 1) as usize)
            },
        l > 0 ==> forall|j: int|
            0 <= j < 4 ==> #[trigger] neighbour_candidates(l, x, y)[8 + j] == (
                (l - 1) as usize,
                (2 * x + j % 2) as usize,
                (2 * y + j / 2) as usize,
            ),
{
    let c = neighbour_candidates(l, x, y);
    assert forall|k: int| 0 <= k < 8 implies {
        let s = if k < 4 { k } else { k + 1 };
        #[trigger] c[k] == (l, (x + s % 3 - 1) as usize, (y + s / 3 - 1) as usize)
    } by {
        assert(k == 0 || k == 1 || k == 2 || k == 3 || k == 4 || k == 5 || k == 6 || k == 7);
    }
    if l > 0 {
        assert forall|j: int| 0 <= j < 4 implies #[trigger] c[8 + j] == (
            (l - 1) as usize,
            (2 * x + j % 2) as usize,
            (2 * y + j / 2) as usize,
        ) by {
            assert(j == 0 || j == 1 || j == 2 || j == 3);
        }
    }
}

proof fn lemma_neighbour_entries_shape(
    l: usize,
    x: usize,
    y: usize,
    map_size: Seq<(usize, usize)>,
    offsets_defaults: Seq<(usize, usize)>,
    n: nat,
)
    requires
        n <= neighbour_candidates(l, x, y).len(),
        neighbours_defined(l, x, y, map_size, offsets_defaults),
    ensures
        forall|k: int|
            0 <= k < neighbour_entries(l, x, y, map_size, offsets_defaults, n).len() ==> {
                let e = #[trigger] neighbour_entries(l, x, y, map_size, offsets_defaults, n)[k];
                let c = neighbour_candidates(l, x, y)[e.2 as int];
                &&& e.2 < n
                &&& coord_valid(c.0, c.1, c.2, map_size)
                &&& e.0 as int == cell_node_offset(c, map_size, offsets_defaults)
                &&& e.1 as int == link_offset(l, x, y, e.2 as nat, map_size, offsets_defaults)
            },
    decreases n,
{
    if n > 0 {
        lemma_neighbour_entries_shape(l, x, y, map_size, offsets_defaults, (n - 1) as nat);
        let prev = neighbour_entries(l, x, y, map_size, offsets_defaults, (n - 1) as nat);
        let cur = neighbour_entries(l, x, y, map_size, offsets_defaults, n);
        let c = neighbour_candidates(l, x, y)[n - 1];
        if coord_valid(c.0, c.1, c.2, map_size) {
            assert(coord_valid(
                neighbour_candidates(l, x, y)[n - 1].0,
                neighbour_candidates(l, x, y)[n - 1].1,
                neighbour_candidates(l, x, y)[n - 1].2,
                map_size,
            ));
            assert(cell_node_offset(c, map_size, offsets_defaults) <= usize::MAX);
            assert(link_offset(l, x, y, (n - 1) as nat, map_size, offsets_defaults) <= usize::MAX);
            assert(map_size[c.0 as int].1 * c.2 >= 0) by (nonlinear_arith);
            assert(map_size[l as int].1 * y >= 0) by (nonlinear_arith);
            let lk = map_size[l as int].1 * y + x;
            assert(lk * links_per_node(l as nat) >= 0) by (nonlinear_arith)
                requires
                    lk >= 0,
            ;
            assert(cur == prev.push(
                (
                    cell_node_offset(c, map_size, offsets_defaults) as usize,
                    link_offset(l, x, y, (n - 1) as nat, map_size, offsets_defaults) as usize,
                    (n - 1) as usize,
                ),
            ));
            assert forall|k: int| 0 <= k < cur.len() implies {
                let e = #[trigger] cur[k];
                let cc = neighbour_candidates(l, x, y)[e.2 as int];
                &&& e.2 < n
                &&& coord_valid(cc.0, cc.1, cc.2, map_size)
                &&& e.0 as int == cell_node_offset(cc, map_size, offsets_defaults)
                &&& e.1 as int == link_offset(l, x, y, e.2 as nat, map_size, offsets_defaults)
            } by {
                if k < prev.len() {
                    assert(cur[k] == prev[k]);
                }
            }
        } else {
            assert(cur == prev);
        }
    }
}

/// Links are numbered in the same row-major order as nodes. For the node at
/// flat offset `i`, in layer `l`, each neighbour entry that `get_neighbours`
/// lists (as `neighbour_entries` of the node's position) names a link `k`
/// below the layer's links per node, and its link offset is the layer's
/// first link offset plus the node's place in its layer times the links
/// per node, plus `k`: distinct node and link pairs of a layer never share
/// a link offset. When the layer origins chain as `layer_layout` builds
/// them, `get_coord` of the entry's node offset gives back the cell that
/// link `k` points to.
pub proof fn lemma_links_follow_node_order(
    i: usize,
    map_size: Seq<(usize, usize)>,
    offsets_defaults: Seq<(usize, usize)>,
)
    requires
        coord_defined(i, map_size, offsets_defaults),
        offsets_defaults[0].0 == 0,
        neighbours_defined(
            coord_of(i, map_size, offsets_defaults).0 as usize,
            coord_of(i, map_size, offsets_defaults).1 as usize,
            coord_of(i, map_size, offsets_defaults).2 as usize,
            map_size,
            offsets_defaults,
        ),
    ensures
        ({
            let c = coord_of(i, map_size, offsets_defaults);
            let (l, x, y) = (c.0 as usize, c.1 as usize, c.2 as usize);
            let es = neighbour_entries(l, x, y, map_size, offsets_defaults, neighbour_candidates(l, x, y).len());
            forall|k: int|
                0 <= k < es.len() ==> {
                    &&& (#[trigger] es[k]).2 < links_per_node(l as nat)
                    &&& es[k].1 == offsets_defaults[l as int].1 + (i - offsets_defaults[l as int].0)
                        * links_per_node(l as nat) + es[k].2
                    &&& origins_chain(map_size, offsets_defaults) ==> {
                        let cell = neighbour_candidates(l, x, y)[es[k].2 as int];
                        coord_of(es[k].0, map_size, offsets_defaults) == (cell.0 as nat, cell.1 as nat, cell.2 as nat)
                    }
                }
        }),
{
    let c = coord_of(i, map_size, offsets_defaults);
    let (l, x, y) = (c.0 as usize, c.1 as usize, c.2 as usize);
    let cands = neighbour_candidates(l, x, y);
    let es = neighbour_entries(l, x, y, map_size, offsets_defaults, cands.len());
    lemma_neighbour_entries_shape(l, x, y, map_size, offsets_defaults, cands.len());
    let w = map_size[l as int].1 as int;
    let rel = i - layer_origin(c.0, offsets_defaults);
    lemma_fundamental_div_mod(rel, w);
    assert(rel == w * y + x);
    assert(layer_origin(c.0, offsets_defaults) == offsets_defaults[l as int].0);
    assert(cands.len() == links_per_node(l as nat));
    assert forall|k: int| 0 <= k < es.len() implies {
        &&& (#[trigger] es[k]).2 < links_per_node(l as nat)
        &&& es[k].1 == offsets_defaults[l as int].1 + (i - offsets_defaults[l as int].0) * links_per_node(l as nat)
            + es[k].2
        &&& origins_chain(map_size, offsets_defaults) ==> {
            let cell = neighbour_candidates(l, x, y)[es[k].2 as int];
            coord_of(es[k].0, map_size, offsets_defaults) == (cell.0 as nat, cell.1 as nat, cell.2 as nat)
        }
    } by {
        let e = es[k];
        let cell = cands[e.2 as int];
        assert(e.1 as int == link_offset(l, x, y, e.2 as nat, map_size, offsets_defaults));
        if origins_chain(map_size, offsets_defaults) {
            assert(coord_valid(cell.0, cell.1, cell.2, map_size));
            assert(cell.0 < N_DET_LAYERS) by {
                assert(l < N_DET_LAYERS);
            }
            assert(e.0 as int == cell_node_offset(cell, map_size, offsets_defaults));
            lemma_get_coord_of_flat_offset(map_size, offsets_defaults, cell.0 as nat, cell.1 as nat, cell.2 as nat);
        }
    }
}

/// At the left edge (`x == 0`) the three links to the left (0, 3 and 5),
/// and at the top edge (`y == 0`) the three links upwards (0, 1 and 2),
/// point to no cell of any map, so `get_neighbours` lists none of them.
pub proof fn lemma_edge_links_leave_the_map(l: usize, x: usize, y: usize, map_size: Seq<(usize, usize)>)
    requires
        l < map_size.len(),
    ensures
        x == 0 ==> forall|k: int|
            k == 0 || k == 3 || k == 5 ==> !coord_valid(
                #[trigger] neighbour_candidates(l, x, y)[k].0,
                neighbour_candidates(l, x, y)[k].1,
                neighbour_candidates(l, x, y)[k].2,
                map_size,
            ),
        y == 0 ==> forall|k: int|
            0 <= k < 3 ==> !coord_valid(
                #[trigger] neighbour_candidates(l, x, y)[k].0,
                neighbour_candidates(l, x, y)[k].1,
                neighbour_candidates(l, x, y)[k].2,
                map_size,
            ),
{
    let c = neighbour_candidates(l, x, y);
    if x == 0 {
        assert(c[0].1 == usize::MAX && c[3].1 == usize::MAX && c[5].1 == usize::MAX);
    }
    if y == 0 {
        assert(c[0].2 == usize::MAX && c[1].2 == usize::MAX && c[2].2 == usize::MAX);
    }
}

} // verus!
