//! On-disk format of an HNSW graph.
//!
//! After the common header (`index_type = 2`, `num_vectors` = node count):
//!
//! ```text
//! m, ef_construction, ef_search: u32 each
//! entry_point: i64             (-1 for none)
//! num_nodes:   u64
//! vector data: num_nodes * dim coordinates
//! per node:    id: u64, max_layer: u32, then for each layer 0..=max_layer
//!              neighbor_count: u32 and that many u32 node indices
//! ```

use vstd::prelude::*;
use std::collections::HashMap;
use crate::codec::{is_prefix, concat_map, at, lemma_at_concat, lemma_prefix_at, lemma_at_element, lemma_at_push, le32, le64, le32s, lemma_le_facts, lemma_le32s_len, lemma_le32s_injective, lemma_concat_push, lemma_prefix_concat, read_u32, read_u64, read_u32s, write_u32, write_u64, write_u32s};
use crate::batch::VectorBatch;
use crate::hnsw::{HnswConfig, HnswGraph, HnswNode, NodeView, GraphView, node_wf, index_map, lemma_index_map_push};
use crate::hnsw_insert::{capacity, sound};
use crate::serialize::{FormatError, HeaderMetadata, Section, INDEX_TYPE_HNSW, HEADER_LEN, header_bytes, header_check, lemma_header_check_ok, lemma_header_round_trip, read_header, write_header};

verus! {

broadcast use vstd::std_specs::hash::group_hash_axioms;

/// One adjacency list: its length, then its node indices.
pub open spec fn layer_bytes(l: Seq<u32>) -> Seq<u8> {
    le32(l.len() as u32) + le32s(l)
}

/// [`layer_bytes`] as a function value.
pub open spec fn layer_fn() -> spec_fn(Seq<u32>) -> Seq<u8> {
    |l: Seq<u32>| layer_bytes(l)
}

/// The adjacency lists of a node, layer 0 first.
pub open spec fn layers_bytes(ls: Seq<Seq<u32>>) -> Seq<u8> {
    concat_map(ls, layer_fn())
}

/// One node's record: ID, top layer, adjacency lists.
pub open spec fn node_bytes(n: NodeView) -> Seq<u8> {
    le64(n.id) + le32(n.max_layer as u32) + layers_bytes(n.neighbors)
}

/// [`node_bytes`] as a function value.
pub open spec fn node_fn() -> spec_fn(NodeView) -> Seq<u8> {
    |n: NodeView| node_bytes(n)
}

/// The records of the nodes, in order.
pub open spec fn nodes_bytes(ns: Seq<NodeView>) -> Seq<u8> {
    concat_map(ns, node_fn())
}

/// The raw entry point: the node index, or all ones (`-1`) for none.
pub open spec fn entry_code(e: Option<usize>) -> u64 {
    match e {
        Some(i) => i as u64,
        None => u64::MAX,
    }
}

/// The three configuration words.
pub open spec fn config_bytes(c: HnswConfig) -> Seq<u8> {
    le32(c.m as u32) + le32(c.ef_construction as u32) + le32(c.ef_search as u32)
}

/// The bytes of a graph and its configuration.
pub open spec fn hnsw_bytes(g: GraphView, c: HnswConfig) -> Seq<u8> {
    header_bytes(INDEX_TYPE_HNSW, g.metric, g.dim, g.nodes.len()) + config_bytes(c) + le64(
        entry_code(g.entry_point),
    ) + le64(g.nodes.len() as u64) + le32s(g.vectors) + nodes_bytes(g.nodes)
}

/// Adjacency lists that the format holds for a graph of `count` nodes.
pub open spec fn layers_encodable(ls: Seq<Seq<u32>>, count: nat) -> bool {
    forall|l: int|
        0 <= l < ls.len() ==> (#[trigger] ls[l]).len() <= u32::MAX && forall|j: int|
            0 <= j < ls[l].len() ==> #[trigger] ls[l][j] < count
}

/// Node `i` of `count` as the format holds it: its vector is row `i`.
pub open spec fn node_encodable(n: NodeView, i: int, count: nat) -> bool {
    &&& n.vector_idx == i
    &&& n.max_layer <= u32::MAX
    &&& n.neighbors.len() == n.max_layer + 1
    &&& layers_encodable(n.neighbors, count)
}

/// A graph and configuration that the format holds and gives back unchanged.
pub open spec fn hnsw_encodable(g: GraphView, c: HnswConfig) -> bool {
    &&& g.wf()
    &&& 0 < g.dim <= u32::MAX
    &&& g.num_vectors == g.nodes.len()
    &&& forall|i: int| 0 <= i < g.nodes.len() ==> node_encodable(#[trigger] g.nodes[i], i, g.nodes.len())
    &&& c.m <= u32::MAX
    &&& c.ef_construction <= u32::MAX
    &&& c.ef_search <= u32::MAX
}

/// Append the adjacency lists of one node.
fn write_layers(out: &mut Vec<u8>, ls: &Vec<Vec<u32>>)
    ensures
        final(out)@ == old(out)@ + layers_bytes(ls@.map_values(|l: Vec<u32>| l@)),
{
    let ghost f = layer_fn();
    let ghost views = ls@.map_values(|l: Vec<u32>| l@);
    let mut k: usize = 0;
    while k < ls.len()
        invariant
            k <= ls@.len(),
            views == ls@.map_values(|l: Vec<u32>| l@),
            f == layer_fn(),
            out@ == old(out)@ + concat_map(views.take(k as int), f),
        decreases ls@.len() - k,
    {
        proof {
            assert(views.take(k as int + 1) =~= views.take(k as int).push(views[k as int]));
            lemma_concat_push(views.take(k as int), views[k as int], f);
        }
        write_u32(out, ls[k].len() as u32);
        write_u32s(out, ls[k].as_slice());
        proof {
            assert(out@ =~= old(out)@ + concat_map(views.take(k as int), f) + layer_bytes(views[k as int]));
        }
        k = k + 1;
    }
    proof {
        assert(views.take(ls@.len() as int) =~= views);
    }
}

/// Serialize a graph and its configuration.
pub fn encode_hnsw_index(graph: &HnswGraph, config: &HnswConfig) -> (out: Vec<u8>)
    requires
        graph.wf(),
    ensures
        out@ == hnsw_bytes(graph@, *config),
{
    let n = graph.nodes.len();
    let mut out: Vec<u8> = Vec::new();
    write_header(&mut out, INDEX_TYPE_HNSW, graph.metric, graph.dim, n);
    write_u32(&mut out, config.m as u32);
    write_u32(&mut out, config.ef_construction as u32);
    write_u32(&mut out, config.ef_search as u32);
    let ep: u64 = match graph.entry_point {
        Some(i) => i as u64,
        None => u64::MAX,
    };
    write_u64(&mut out, ep);
    write_u64(&mut out, n as u64);
    write_u32s(&mut out, graph.vectors.data.as_slice());
    let ghost start = out@;
    let ghost f = node_fn();
    let mut i: usize = 0;
    while i < n
        invariant
            i <= n,
            n == graph.nodes@.len(),
            f == node_fn(),
            out@ == start + concat_map(graph@.nodes.take(i as int), f),
        decreases n - i,
    {
        let node = &graph.nodes[i];
        let ghost views = graph@.nodes;
        proof {
            assert(views.take(i as int + 1) =~= views.take(i as int).push(views[i as int]));
            lemma_concat_push(views.take(i as int), views[i as int], f);
        }
        write_u64(&mut out, node.id);
        write_u32(&mut out, node.max_layer as u32);
        write_layers(&mut out, &node.neighbors);
        proof {
            assert(views[i as int] == node@);
            assert(node.neighbors@.map_values(|l: Vec<u32>| l@) =~= node@.neighbors);
            assert(out@ =~= start + concat_map(views.take(i as int), f) + node_bytes(node@));
        }
        i = i + 1;
    }
    proof {
        assert(graph@.nodes.take(n as int) =~= graph@.nodes);
        assert(out@ =~= hnsw_bytes(graph@, *config));
    }
    out
}

/// Read the adjacency list of `node` at `layer` that starts at `pos`,
/// checking every index against the node count.
fn decode_layer(bytes: &[u8], pos: usize, node: usize, layer: usize, count: usize) -> (res: Result<
    (Vec<u32>, usize),
    FormatError,
>)
    requires
        pos <= bytes@.len(),
    ensures
        res matches Ok((l, p)) ==> {
            &&& at(bytes@, pos as int, layer_bytes(l@))
            &&& p == pos + layer_bytes(l@).len()
            &&& l@.len() <= u32::MAX
            &&& forall|j: int| 0 <= j < l@.len() ==> #[trigger] l@[j] < count
        },
        forall|lv: Seq<u32>|
            lv.len() <= u32::MAX && (forall|j: int| 0 <= j < lv.len() ==> #[trigger] lv[j] < count) && at(
                bytes@,
                pos as int,
                #[trigger] layer_bytes(lv),
            ) ==> (res matches Ok((l, p)) && l@ == lv),
{
    proof {
        lemma_le_facts();
        assert forall|lv: Seq<u32>| #[trigger] at(bytes@, pos as int, layer_bytes(lv)) implies at(
            bytes@,
            pos as int,
            le32(lv.len() as u32),
        ) && at(bytes@, pos + 4, le32s(lv)) by {
            lemma_at_concat(bytes@, pos as int, le32(lv.len() as u32), le32s(lv));
        }
    }
    let blen = bytes.len();
    let c = match read_u32(bytes, pos) {
        Some(c) => c,
        None => {
            return Err(FormatError::Truncated(Section::NeighborCount(node, layer)));
        },
    };
    let start = pos + 4;
    let l = match read_u32s(bytes, start, c as usize) {
        Some(l) => l,
        None => {
            proof {
                assert forall|lv: Seq<u32>|
                    lv.len() <= u32::MAX && #[trigger] at(bytes@, pos as int, layer_bytes(lv)) implies false by {
                    assert(le32(lv.len() as u32) == bytes@.subrange(pos as int, pos + 4));
                    lemma_le32s_len(lv);
                }
            }
            return Err(FormatError::Truncated(Section::NeighborIndices(node, layer)));
        },
    };
    proof {
        lemma_le32s_len(l@);
        assert forall|lv: Seq<u32>|
            lv.len() <= u32::MAX && #[trigger] at(bytes@, pos as int, layer_bytes(lv)) implies lv == l@ by {
            assert(le32(lv.len() as u32) == bytes@.subrange(pos as int, pos + 4));
            assert(lv.len() as u32 == c);
            lemma_le32s_len(lv);
            lemma_le32s_injective(lv, l@);
        }
        lemma_at_concat(bytes@, pos as int, le32(c), le32s(l@));
        assert(l@.len() as u32 == c);
    }
    let mut j: usize = 0;
    while j < l.len()
        invariant
            j <= l@.len(),
            forall|t: int| 0 <= t < j ==> #[trigger] l@[t] < count,
            forall|lv: Seq<u32>|
                lv.len() <= u32::MAX && #[trigger] at(bytes@, pos as int, layer_bytes(lv)) ==> lv == l@,
        decreases l@.len() - j,
    {
        if l[j] as usize >= count {
            let bad = l[j];
            proof {
                assert forall|lv: Seq<u32>|
                    lv.len() <= u32::MAX && (forall|t: int| 0 <= t < lv.len() ==> #[trigger] lv[t] < count)
                        && #[trigger] at(bytes@, pos as int, layer_bytes(lv)) implies false by {
                    assert(lv[j as int] < count);
                }
            }
            return Err(FormatError::NeighborOutOfBounds { neighbor: bad, nodes: count });
        }
        j = j + 1;
    }
    let p = start + 4 * (c as usize);
    Ok((l, p))
}

/// The contents of a list of adjacency lists.
pub open spec fn lists_view(ls: Seq<Vec<u32>>) -> Seq<Seq<u32>> {
    Seq::new(ls.len(), |i: int| ls[i]@)
}

/// Read `num_layers` adjacency lists of `node` starting at `pos`.
fn decode_layers(bytes: &[u8], pos: usize, num_layers: u64, node: usize, count: usize) -> (res: Result<
    (Vec<Vec<u32>>, usize),
    FormatError,
>)
    requires
        pos <= bytes@.len(),
    ensures
        res matches Ok((ls, p)) ==> {
            &&& ls@.len() == num_layers
            &&& at(bytes@, pos as int, layers_bytes(lists_view(ls@)))
            &&& p == pos + layers_bytes(lists_view(ls@)).len()
            &&& layers_encodable(lists_view(ls@), count as nat)
        },
        forall|lsv: Seq<Seq<u32>>|
            lsv.len() == num_layers && layers_encodable(lsv, count as nat) && at(
                bytes@,
                pos as int,
                #[trigger] layers_bytes(lsv),
            ) ==> (res matches Ok((ls, p)) && lists_view(ls@) == lsv),
{
    let blen = bytes.len();
    let mut ls: Vec<Vec<u32>> = Vec::new();
    let mut cur = pos;
    let mut k: u64 = 0;
    proof {
        assert(lists_view(ls@) =~= Seq::<Seq<u32>>::empty());
        assert(layers_bytes(lists_view(ls@)) =~= Seq::<u8>::empty());
        assert(bytes@.subrange(pos as int, pos as int) =~= Seq::<u8>::empty());
    }
    while k < num_layers
        invariant
            k <= num_layers,
            blen == bytes@.len(),
            pos <= cur <= bytes@.len(),
            ls@.len() == k,
            at(bytes@, pos as int, layers_bytes(lists_view(ls@))),
            cur == pos + layers_bytes(lists_view(ls@)).len(),
            layers_encodable(lists_view(ls@), count as nat),
            forall|lsv: Seq<Seq<u32>>|
                lsv.len() == num_layers && layers_encodable(lsv, count as nat) && at(
                    bytes@,
                    pos as int,
                    #[trigger] layers_bytes(lsv),
                ) ==> lists_view(ls@) == lsv.take(k as int),
        decreases num_layers - k,
    {
        proof {
            assert forall|lsv: Seq<Seq<u32>>|
                lsv.len() == num_layers && layers_encodable(lsv, count as nat) && #[trigger] at(
                    bytes@,
                    pos as int,
                    layers_bytes(lsv),
                ) implies at(bytes@, cur as int, layer_bytes(lsv[k as int])) by {
                lemma_at_element(bytes@, pos as int, lsv, k as int, layer_fn());
            }
        }
        match decode_layer(bytes, cur, node, k as usize, count) {
            Err(e) => {
                proof {
                    assert forall|lsv: Seq<Seq<u32>>|
                        lsv.len() == num_layers && layers_encodable(lsv, count as nat) && #[trigger] at(
                            bytes@,
                            pos as int,
                            layers_bytes(lsv),
                        ) implies false by {
                        let lv = lsv[k as int];
                        assert(lv.len() <= u32::MAX);
                        assert(forall|j: int| 0 <= j < lv.len() ==> #[trigger] lv[j] < count);
                        assert(at(bytes@, cur as int, layer_bytes(lv)));
                    }
                }
                return Err(e);
            },
            Ok((l, p)) => {
                let ghost before = lists_view(ls@);
                proof {
                    lemma_at_push(bytes@, pos as int, before, l@, layer_fn());
                }
                ls.push(l);
                cur = p;
                proof {
                    assert(lists_view(ls@) =~= before.push(l@));
                    assert forall|lsv: Seq<Seq<u32>>|
                        lsv.len() == num_layers && layers_encodable(lsv, count as nat) && #[trigger] at(
                            bytes@,
                            pos as int,
                            layers_bytes(lsv),
                        ) implies lists_view(ls@) == lsv.take(k + 1) by {
                        let lv = lsv[k as int];
                        assert(lv.len() <= u32::MAX);
                        assert(forall|j: int| 0 <= j < lv.len() ==> #[trigger] lv[j] < count);
                        assert(lsv.take(k + 1) =~= lsv.take(k as int).push(lv));
                    }
                    assert forall|t: int| 0 <= t < lists_view(ls@).len() implies (#[trigger] lists_view(ls@)[t]).len() <= u32::MAX
                        && forall|j: int| 0 <= j < lists_view(ls@)[t].len() ==> #[trigger] lists_view(ls@)[t][j] < count by {
                        if t < k {
                            assert(lists_view(ls@)[t] == before[t]);
                        }
                    }
                }
            },
        }
        k = k + 1;
    }
    proof {
        assert forall|lsv: Seq<Seq<u32>>|
            lsv.len() == num_layers && layers_encodable(lsv, count as nat) && #[trigger] at(
                bytes@,
                pos as int,
                layers_bytes(lsv),
            ) implies lists_view(ls@) == lsv by {
            assert(lsv.take(k as int) =~= lsv);
        }
    }
    Ok((ls, cur))
}

/// Read the record of node `i` of `count` starting at `pos`.
fn decode_node(bytes: &[u8], pos: usize, i: usize, count: usize) -> (res: Result<(HnswNode, usize), FormatError>)
    requires
        pos <= bytes@.len(),
    ensures
        res matches Ok((node, p)) ==> {
            &&& at(bytes@, pos as int, node_bytes(node@))
            &&& p == pos + node_bytes(node@).len()
            &&& node_encodable(node@, i as int, count as nat)
        },
        forall|nv: NodeView|
            node_encodable(nv, i as int, count as nat) && at(bytes@, pos as int, #[trigger] node_bytes(nv))
                ==> (res matches Ok((node, p)) && node@ == nv),
{
    let blen = bytes.len();
    proof {
        lemma_le_facts();
        assert forall|nv: NodeView| #[trigger] at(bytes@, pos as int, node_bytes(nv)) implies {
            &&& at(bytes@, pos as int, le64(nv.id))
            &&& at(bytes@, pos + 8, le32(nv.max_layer as u32))
            &&& at(bytes@, pos + 12, layers_bytes(nv.neighbors))
        } by {
            lemma_at_concat(bytes@, pos as int, le64(nv.id) + le32(nv.max_layer as u32), layers_bytes(nv.neighbors));
            lemma_at_concat(bytes@, pos as int, le64(nv.id), le32(nv.max_layer as u32));
        }
    }
    let id = match read_u64(bytes, pos) {
        Some(x) => x,
        None => {
            return Err(FormatError::Truncated(Section::NodeId(i)));
        },
    };
    let max_layer = match read_u32(bytes, pos + 8) {
        Some(x) => x,
        None => {
            return Err(FormatError::Truncated(Section::MaxLayer(i)));
        },
    };
    proof {
        assert forall|nv: NodeView|
            node_encodable(nv, i as int, count as nat) && #[trigger] at(bytes@, pos as int, node_bytes(nv)) implies nv.id == id
            && nv.max_layer == max_layer by {
            assert(le64(nv.id) == bytes@.subrange(pos as int, pos + 8));
            assert(le32(nv.max_layer as u32) == bytes@.subrange(pos + 8, pos + 12));
        }
    }
    let num_layers = (max_layer as u64) + 1;
    let (ls, p) = match decode_layers(bytes, pos + 12, num_layers, i, count) {
        Ok(r) => r,
        Err(e) => {
            proof {
                assert forall|nv: NodeView|
                    node_encodable(nv, i as int, count as nat) && #[trigger] at(bytes@, pos as int, node_bytes(nv)) implies false by {
                    assert(nv.neighbors.len() == num_layers);
                    assert(at(bytes@, pos + 12, layers_bytes(nv.neighbors)));
                }
            }
            return Err(e);
        },
    };
    let node = HnswNode { id, vector_idx: i, max_layer: max_layer as usize, neighbors: ls };
    proof {
        assert(node@.neighbors =~= lists_view(ls@));
        let head = le64(id) + le32(max_layer);
        lemma_at_concat(bytes@, pos as int, le64(id), le32(max_layer));
        assert(bytes@.subrange(pos as int, pos + 8) == le64(id));
        assert(bytes@.subrange(pos + 8, pos + 12) == le32(max_layer));
        lemma_at_concat(bytes@, pos as int, head, layers_bytes(lists_view(ls@)));
        assert(node_bytes(node@) == head + layers_bytes(lists_view(ls@)));
        assert forall|nv: NodeView|
            node_encodable(nv, i as int, count as nat) && #[trigger] at(bytes@, pos as int, node_bytes(nv)) implies node@ == nv by {
            assert(nv.neighbors.len() == num_layers);
            assert(at(bytes@, pos + 12, layers_bytes(nv.neighbors)));
            assert(lists_view(ls@) == nv.neighbors);
        }
    }
    Ok((node, p))
}

/// The contents of a list of nodes.
pub open spec fn nodes_view(ns: Seq<HnswNode>) -> Seq<NodeView> {
    Seq::new(ns.len(), |i: int| ns[i]@)
}

/// Every node of `ns` is encodable at its position among `count` nodes.
pub open spec fn nodes_encodable(ns: Seq<NodeView>, count: nat) -> bool {
    forall|i: int| 0 <= i < ns.len() ==> node_encodable(#[trigger] ns[i], i, count)
}

/// Read the records of `count` nodes starting at `pos`.
fn decode_nodes(bytes: &[u8], pos: usize, count: usize) -> (res: Result<(Vec<HnswNode>, usize), FormatError>)
    requires
        pos <= bytes@.len(),
    ensures
        res matches Ok((ns, p)) ==> {
            &&& ns@.len() == count
            &&& at(bytes@, pos as int, nodes_bytes(nodes_view(ns@)))
            &&& p == pos + nodes_bytes(nodes_view(ns@)).len()
            &&& nodes_encodable(nodes_view(ns@), count as nat)
        },
        forall|nvs: Seq<NodeView>|
            nvs.len() == count && nodes_encodable(nvs, count as nat) && at(
                bytes@,
                pos as int,
                #[trigger] nodes_bytes(nvs),
            ) ==> (res matches Ok((ns, p)) && nodes_view(ns@) == nvs),
{
    let blen = bytes.len();
    let mut ns: Vec<HnswNode> = Vec::new();
    let mut cur = pos;
    let mut i: usize = 0;
    proof {
        assert(nodes_view(ns@) =~= Seq::<NodeView>::empty());
        assert(nodes_bytes(nodes_view(ns@)) =~= Seq::<u8>::empty());
        assert(bytes@.subrange(pos as int, pos as int) =~= Seq::<u8>::empty());
    }
    while i < count
        invariant
            i <= count,
            blen == bytes@.len(),
            pos <= cur <= bytes@.len(),
            ns@.len() == i,
            at(bytes@, pos as int, nodes_bytes(nodes_view(ns@))),
            cur == pos + nodes_bytes(nodes_view(ns@)).len(),
            nodes_encodable(nodes_view(ns@), count as nat),
            forall|nvs: Seq<NodeView>|
                nvs.len() == count && nodes_encodable(nvs, count as nat) && at(
                    bytes@,
                    pos as int,
                    #[trigger] nodes_bytes(nvs),
                ) ==> nodes_view(ns@) == nvs.take(i as int),
        decreases count - i,
    {
        proof {
            assert forall|nvs: Seq<NodeView>|
                nvs.len() == count && nodes_encodable(nvs, count as nat) && #[trigger] at(
                    bytes@,
                    pos as int,
                    nodes_bytes(nvs),
                ) implies at(bytes@, cur as int, node_bytes(nvs[i as int])) by {
                lemma_at_element(bytes@, pos as int, nvs, i as int, node_fn());
            }
        }
        match decode_node(bytes, cur, i, count) {
            Err(e) => {
                proof {
                    assert forall|nvs: Seq<NodeView>|
                        nvs.len() == count && nodes_encodable(nvs, count as nat) && #[trigger] at(
                            bytes@,
                            pos as int,
                            nodes_bytes(nvs),
                        ) implies false by {
                        assert(node_encodable(nvs[i as int], i as int, count as nat));
                        assert(at(bytes@, cur as int, node_bytes(nvs[i as int])));
                    }
                }
                return Err(e);
            },
            Ok((node, p)) => {
                let ghost before = nodes_view(ns@);
                proof {
                    lemma_at_push(bytes@, pos as int, before, node@, node_fn());
                }
                ns.push(node);
                cur = p;
                proof {
                    assert(nodes_view(ns@) =~= before.push(node@));
                    assert forall|nvs: Seq<NodeView>|
                        nvs.len() == count && nodes_encodable(nvs, count as nat) && #[trigger] at(
                            bytes@,
                            pos as int,
                            nodes_bytes(nvs),
                        ) implies nodes_view(ns@) == nvs.take(i + 1) by {
                        assert(node_encodable(nvs[i as int], i as int, count as nat));
                        assert(nvs.take(i + 1) =~= nvs.take(i as int).push(nvs[i as int]));
                    }
                    assert forall|t: int| 0 <= t < nodes_view(ns@).len() implies node_encodable(
                        #[trigger] nodes_view(ns@)[t],
                        t,
                        count as nat,
                    ) by {
                        if t < i {
                            assert(nodes_view(ns@)[t] == before[t]);
                        }
                    }
                }
            },
        }
        i = i + 1;
    }
    proof {
        assert forall|nvs: Seq<NodeView>|
            nvs.len() == count && nodes_encodable(nvs, count as nat) && #[trigger] at(
                bytes@,
                pos as int,
                nodes_bytes(nvs),
            ) implies nodes_view(ns@) == nvs by {
            assert(nvs.take(i as int) =~= nvs);
        }
    }
    Ok((ns, cur))
}

/// A graph's encoding is a prefix of `b` exactly when each of its parts
/// occurs at its offset.
pub proof fn lemma_hnsw_parts(v: GraphView, c: HnswConfig, b: Seq<u8>)
    ensures
        is_prefix(hnsw_bytes(v, c), b) <==> {
            &&& is_prefix(header_bytes(INDEX_TYPE_HNSW, v.metric, v.dim, v.nodes.len()), b)
            &&& at(b, 22, le32(c.m as u32))
            &&& at(b, 26, le32(c.ef_construction as u32))
            &&& at(b, 30, le32(c.ef_search as u32))
            &&& at(b, 34, le64(entry_code(v.entry_point)))
            &&& at(b, 42, le64(v.nodes.len() as u64))
            &&& at(b, 50, le32s(v.vectors))
            &&& at(b, (50 + 4 * v.vectors.len()) as int, nodes_bytes(v.nodes))
        },
{
    lemma_le_facts();
    lemma_le32s_len(v.vectors);
    let h = header_bytes(INDEX_TYPE_HNSW, v.metric, v.dim, v.nodes.len());
    assert(h.len() == 22);
    let m = le32(c.m as u32);
    let efc = le32(c.ef_construction as u32);
    let efs = le32(c.ef_search as u32);
    let e = le64(entry_code(v.entry_point));
    let nc = le64(v.nodes.len() as u64);
    let vs = le32s(v.vectors);
    let ns = nodes_bytes(v.nodes);
    let cfg = m + efc + efs;
    assert(config_bytes(c) == cfg);
    lemma_prefix_at(hnsw_bytes(v, c), b);
    lemma_prefix_at(h, b);
    lemma_at_concat(b, 0, h + cfg + e + nc + vs, ns);
    lemma_at_concat(b, 0, h + cfg + e + nc, vs);
    lemma_at_concat(b, 0, h + cfg + e, nc);
    lemma_at_concat(b, 0, h + cfg, e);
    lemma_at_concat(b, 0, h, cfg);
    lemma_at_concat(b, 22, m + efc, efs);
    lemma_at_concat(b, 22, m, efc);
}

/// Deserialize an HNSW graph and its configuration from the start of
/// `bytes`.
///
/// Succeeds exactly when `bytes` starts with the encoding of a graph the
/// format can hold, and then gives that graph and configuration back.
pub fn decode_hnsw_index(bytes: &[u8]) -> (res: Result<(HnswGraph, HnswConfig), FormatError>)
    ensures
        header_check(bytes@, INDEX_TYPE_HNSW) is Err ==> res == Err::<(HnswGraph, HnswConfig), FormatError>(
            header_check(bytes@, INDEX_TYPE_HNSW)->Err_0,
        ),
        res matches Ok((g, c)) ==> g.wf() && hnsw_encodable(g@, c) && is_prefix(hnsw_bytes(g@, c), bytes@),
        forall|v: GraphView, c: HnswConfig|
            hnsw_encodable(v, c) && is_prefix(#[trigger] hnsw_bytes(v, c), bytes@) ==> (res matches Ok(
                (g, c2),
            ) && g@ == v && c2 == c),
        header_check(bytes@, INDEX_TYPE_HNSW) is Ok ==> {
            &&& bytes@.len() < 34 ==> res == Err::<(HnswGraph, HnswConfig), FormatError>(
                FormatError::Truncated(Section::HnswConfig),
            )
            &&& 34 <= bytes@.len() < 42 ==> res == Err::<(HnswGraph, HnswConfig), FormatError>(
                FormatError::Truncated(Section::EntryPoint),
            )
            &&& forall|raw: u64|
                42 <= bytes@.len() < 50 && #[trigger] le64(raw) == bytes@.subrange(34, 42) && (raw == u64::MAX || raw
                    < 0x8000_0000_0000_0000u64) ==> res == Err::<(HnswGraph, HnswConfig), FormatError>(
                    FormatError::Truncated(Section::NodeCount),
                )
        },
{
    proof {
        lemma_le_facts();
    }
    let blen = bytes.len();
    proof {
        lemma_le_facts();
        assert forall|v: GraphView, c: HnswConfig|
            hnsw_encodable(v, c) && #[trigger] is_prefix(hnsw_bytes(v, c), bytes@) implies header_check(
                bytes@,
                INDEX_TYPE_HNSW,
            ) == Ok::<HeaderMetadata, FormatError>(
                (HeaderMetadata {
                    index_type: INDEX_TYPE_HNSW,
                    metric: v.metric,
                    dim: v.dim as usize,
                    num_vectors: v.nodes.len() as usize,
                }),
            ) by {
            lemma_hnsw_parts(v, c, bytes@);
            lemma_header_round_trip(bytes@, INDEX_TYPE_HNSW, v.metric, v.dim, v.nodes.len());
        }
    }
    let header = match read_header(bytes, INDEX_TYPE_HNSW) {
        Ok(h) => h,
        Err(e) => {
            return Err(e);
        },
    };
    proof {
        lemma_header_check_ok(bytes@, INDEX_TYPE_HNSW);
    }
    let dim = header.dim;
    let n = header.num_vectors;
    let m = match read_u32(bytes, 22) {
        Some(x) => x,
        None => {
            proof {
                assert forall|v: GraphView, c: HnswConfig|
                    hnsw_encodable(v, c) && #[trigger] is_prefix(hnsw_bytes(v, c), bytes@) implies false by {
                    lemma_hnsw_parts(v, c, bytes@);
                }
            }
            return Err(FormatError::Truncated(Section::HnswConfig));
        },
    };
    let ef_construction = match read_u32(bytes, 26) {
        Some(x) => x,
        None => {
            proof {
                assert forall|v: GraphView, c: HnswConfig|
                    hnsw_encodable(v, c) && #[trigger] is_prefix(hnsw_bytes(v, c), bytes@) implies false by {
                    lemma_hnsw_parts(v, c, bytes@);
                }
            }
            return Err(FormatError::Truncated(Section::HnswConfig));
        },
    };
    let ef_search = match read_u32(bytes, 30) {
        Some(x) => x,
        None => {
            proof {
                assert forall|v: GraphView, c: HnswConfig|
                    hnsw_encodable(v, c) && #[trigger] is_prefix(hnsw_bytes(v, c), bytes@) implies false by {
                    lemma_hnsw_parts(v, c, bytes@);
                }
            }
            return Err(FormatError::Truncated(Section::HnswConfig));
        },
    };
    let raw = match read_u64(bytes, 34) {
        Some(x) => x,
        None => {
            proof {
                assert forall|v: GraphView, c: HnswConfig|
                    hnsw_encodable(v, c) && #[trigger] is_prefix(hnsw_bytes(v, c), bytes@) implies false by {
                    lemma_hnsw_parts(v, c, bytes@);
                }
            }
            return Err(FormatError::Truncated(Section::EntryPoint));
        },
    };
    proof {
        assert forall|v: GraphView, c: HnswConfig|
            hnsw_encodable(v, c) && #[trigger] is_prefix(hnsw_bytes(v, c), bytes@) implies {
            &&& entry_code(v.entry_point) == raw
            &&& c.m == m
            &&& c.ef_construction == ef_construction
            &&& c.ef_search == ef_search
        } by {
            lemma_hnsw_parts(v, c, bytes@);
            assert(bytes@.subrange(34, 42) == le64(entry_code(v.entry_point)));
            assert(bytes@.subrange(22, 26) == le32(c.m as u32));
            assert(bytes@.subrange(26, 30) == le32(c.ef_construction as u32));
            assert(bytes@.subrange(30, 34) == le32(c.ef_search as u32));
        }
    }
    if raw != u64::MAX && raw >= 0x8000_0000_0000_0000u64 {
        proof {
            assert forall|v: GraphView, c: HnswConfig|
                hnsw_encodable(v, c) && #[trigger] is_prefix(hnsw_bytes(v, c), bytes@) implies false by {
                lemma_hnsw_parts(v, c, bytes@);
            }
        }
        return Err(FormatError::NegativeEntryPoint(raw as i64));
    }
    let node_count = match read_u64(bytes, 42) {
        Some(x) => x,
        None => {
            proof {
                assert forall|v: GraphView, c: HnswConfig|
                    hnsw_encodable(v, c) && #[trigger] is_prefix(hnsw_bytes(v, c), bytes@) implies false by {
                    lemma_hnsw_parts(v, c, bytes@);
                }
            }
            return Err(FormatError::Truncated(Section::NodeCount));
        },
    };
    proof {
        assert forall|v: GraphView, c: HnswConfig|
            hnsw_encodable(v, c) && #[trigger] is_prefix(hnsw_bytes(v, c), bytes@) implies node_count == v.nodes.len() by {
            lemma_hnsw_parts(v, c, bytes@);
            assert(bytes@.subrange(42, 50) == le64(v.nodes.len() as u64));
        }
    }
    if node_count as u128 != n as u128 {
        return Err(FormatError::NodeCountMismatch { header: n, nodes: node_count });
    }
    if n > 0xffff_ffffusize {
        return Err(FormatError::CountTooLarge(node_count));
    }
    let entry_point: Option<usize> = if raw == u64::MAX {
        None
    } else {
        if raw >= node_count {
            proof {
                assert forall|v: GraphView, c: HnswConfig|
                    hnsw_encodable(v, c) && #[trigger] is_prefix(hnsw_bytes(v, c), bytes@) implies false by {
                    lemma_hnsw_parts(v, c, bytes@);
                }
            }
            return Err(FormatError::EntryPointOutOfBounds { entry: raw, nodes: n });
        }
        Some(raw as usize)
    };
    proof {
        assert forall|v: GraphView, c: HnswConfig|
            hnsw_encodable(v, c) && #[trigger] is_prefix(hnsw_bytes(v, c), bytes@) implies v.entry_point == entry_point by {
            lemma_hnsw_parts(v, c, bytes@);
        }
    }
    let total = match n.checked_mul(dim) {
        Some(t) => t,
        None => {
            proof {
                assert forall|v: GraphView, c: HnswConfig|
                    hnsw_encodable(v, c) && #[trigger] is_prefix(hnsw_bytes(v, c), bytes@) implies false by {
                    lemma_hnsw_parts(v, c, bytes@);
                    assert(v.dim * v.num_vectors == v.num_vectors * v.dim) by (nonlinear_arith);
                }
            }
            return Err(FormatError::FloatCountOverflow);
        },
    };
    let data = match read_u32s(bytes, 50, total) {
        Some(d) => d,
        None => {
            proof {
                assert forall|v: GraphView, c: HnswConfig|
                    hnsw_encodable(v, c) && #[trigger] is_prefix(hnsw_bytes(v, c), bytes@) implies false by {
                    lemma_hnsw_parts(v, c, bytes@);
                    assert(v.dim * v.num_vectors == v.num_vectors * v.dim) by (nonlinear_arith);
                    lemma_le32s_len(v.vectors);
                }
            }
            return Err(FormatError::Truncated(Section::VectorData));
        },
    };
    proof {
        lemma_le32s_len(data@);
        assert forall|v: GraphView, c: HnswConfig|
            hnsw_encodable(v, c) && #[trigger] is_prefix(hnsw_bytes(v, c), bytes@) implies v.vectors == data@ by {
            lemma_hnsw_parts(v, c, bytes@);
            assert(v.dim * v.num_vectors == v.num_vectors * v.dim) by (nonlinear_arith);
            lemma_le32s_len(v.vectors);
            lemma_le32s_injective(v.vectors, data@);
        }
    }
    let start = 50 + 4 * total;
    let (nodes, _end) = match decode_nodes(bytes, start, n) {
        Ok(r) => r,
        Err(e) => {
            proof {
                assert forall|v: GraphView, c: HnswConfig|
                    hnsw_encodable(v, c) && #[trigger] is_prefix(hnsw_bytes(v, c), bytes@) implies false by {
                    lemma_hnsw_parts(v, c, bytes@);
                    assert(nodes_encodable(v.nodes, n as nat));
                }
            }
            return Err(e);
        },
    };
    let mut map: HashMap<u64, usize> = HashMap::new();
    let mut i: usize = 0;
    proof {
        assert(nodes_view(nodes@).take(0) =~= Seq::<NodeView>::empty());
        assert(map@ =~= index_map(nodes_view(nodes@).take(0)));
    }
    while i < n
        invariant
            i <= n,
            nodes@.len() == n,
            map@ == index_map(nodes_view(nodes@).take(i as int)),
        decreases n - i,
    {
        let id = nodes[i].id;
        proof {
            let vs = nodes_view(nodes@);
            assert(vs.take(i + 1) =~= vs.take(i as int).push(vs[i as int]));
            lemma_index_map_push(vs.take(i as int), vs[i as int]);
        }
        map.insert(id, i);
        i = i + 1;
    }
    let graph = HnswGraph {
        nodes,
        id_to_index: map,
        vectors: VectorBatch { data, dim, num_vectors: n },
        entry_point,
        dim,
        metric: header.metric,
    };
    let config = HnswConfig {
        m: m as usize,
        ef_construction: ef_construction as usize,
        ef_search: ef_search as usize,
    };
    proof {
        let vs = nodes_view(graph.nodes@);
        assert(graph@.nodes =~= vs);
        assert(vs.take(n as int) =~= vs);
        assert(dim * n == n * dim) by (nonlinear_arith);
        assert forall|k: int| 0 <= k < vs.len() implies node_wf(#[trigger] vs[k], vs.len()) by {
            assert(node_encodable(vs[k], k, n as nat));
        }
        assert forall|k: int| 0 <= k < vs.len() implies #[trigger] vs[k].vector_idx < n by {
            assert(node_encodable(vs[k], k, n as nat));
        }
        assert(graph@.wf());
        assert(hnsw_encodable(graph@, config));
        lemma_hnsw_parts(graph@, config, bytes@);
        assert forall|v: GraphView, c: HnswConfig|
            hnsw_encodable(v, c) && #[trigger] is_prefix(hnsw_bytes(v, c), bytes@) implies graph@ == v && config == c by {
            lemma_hnsw_parts(v, c, bytes@);
            assert(nodes_encodable(v.nodes, n as nat));
            assert(vs == v.nodes);
            assert(graph@.id_to_index == v.id_to_index);
        }
    }
    Ok((graph, config))
}

/// A graph kept sound by the library (`HnswGraph::new`, then whole
/// insertions: see `lemma_finished_sound`) is encodable with the
/// configuration it was built with whenever its sizes fit the format's
/// fields; so `decode_hnsw_index` of `encode_hnsw_index` of it gives the
/// graph and the configuration back unchanged.
pub proof fn lemma_hnsw_graph_encodable(g: GraphView, c: HnswConfig)
    requires
        sound(g, c.m as nat),
        0 < g.dim <= u32::MAX,
        2 * c.m <= u32::MAX,
        c.ef_construction <= u32::MAX,
        c.ef_search <= u32::MAX,
        forall|i: int| 0 <= i < g.nodes.len() ==> (#[trigger] g.nodes[i]).max_layer <= u32::MAX,
    ensures
        hnsw_encodable(g, c),
{
    assert forall|i: int| 0 <= i < g.nodes.len() implies node_encodable(#[trigger] g.nodes[i], i, g.nodes.len()) by {
        let n = g.nodes[i];
        assert(node_wf(n, g.nodes.len()));
        assert forall|l: int| 0 <= l < n.neighbors.len() implies (#[trigger] n.neighbors[l]).len() <= u32::MAX
            && forall|j: int| 0 <= j < n.neighbors[l].len() ==> #[trigger] n.neighbors[l][j] < g.nodes.len() by {
            assert(g.nodes[i].neighbors[l].len() <= capacity(c.m as nat, l as nat));
            assert forall|j: int| 0 <= j < n.neighbors[l].len() implies #[trigger] n.neighbors[l][j] < g.nodes.len() by {
                assert(n.neighbors[l][j] < g.nodes.len());
            }
        }
    }
}

} // verus!
