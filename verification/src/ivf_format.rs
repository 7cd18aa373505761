//! On-disk format of an IVF index.
//!
//! After the common header (`index_type = 1`, `num_vectors` = total of all
//! lists):
//!
//! ```text
//! num_clusters: u32
//! centroids:    num_clusters * dim coordinates (zeros while untrained)
//! per cluster:  count: u32, count IDs (u64), count * dim coordinates
//! is_trained:   u8 (1 = trained, 0 = untrained)
//! ```

use vstd::prelude::*;
use crate::codec::{is_prefix, concat_map, at, lemma_at_concat, lemma_prefix_at, lemma_at_element, lemma_at_push, le32, le64s, le32s, lemma_le_facts, lemma_le32s_len, lemma_le64s_len, lemma_le32s_injective, lemma_le64s_injective, lemma_concat_push, read_u8, read_u32, read_u64s, read_u32s, write_u8, write_u32, write_u64s, write_u32s};
use crate::batch::VectorBatch;
use crate::flat_index::{FlatIndex, FlatIndexView, first_repeat};
use crate::ivf::{IVFIndex, IvfView, flat_views, lists_total};
use crate::metric::Metric;
use crate::serialize::{FormatError, HeaderMetadata, Section, INDEX_TYPE_IVF, header_bytes, header_check, lemma_header_check_ok, lemma_header_round_trip, read_header, write_header};

verus! {

/// One inverted list: its size, its IDs, its coordinates.
pub open spec fn cluster_bytes(f: FlatIndexView) -> Seq<u8> {
    le32(f.num_vectors as u32) + le64s(f.ids) + le32s(f.data)
}

/// [`cluster_bytes`] as a function value.
pub open spec fn cluster_fn() -> spec_fn(FlatIndexView) -> Seq<u8> {
    |f: FlatIndexView| cluster_bytes(f)
}

/// The inverted lists, in cluster order.
pub open spec fn clusters_bytes(ls: Seq<FlatIndexView>) -> Seq<u8> {
    concat_map(ls, cluster_fn())
}

/// `n` zero words.
pub open spec fn zeros(n: nat) -> Seq<u32> {
    Seq::new(n, |i: int| 0u32)
}

/// The layout of an IVF file whose centroid section holds `centroid_words`
/// and whose trained flag is the byte `flag`.
pub open spec fn ivf_layout(v: IvfView, centroid_words: Seq<u32>, flag: u8) -> Seq<u8> {
    header_bytes(INDEX_TYPE_IVF, v.metric, v.dim, lists_total(v.lists)) + le32(v.lists.len() as u32)
        + le32s(centroid_words) + clusters_bytes(v.lists) + seq![flag]
}

/// The trained flag as written: 1 or 0.
pub open spec fn flag_byte(trained: bool) -> u8 {
    if trained {
        1u8
    } else {
        0u8
    }
}

/// The bytes of an IVF index: the centroids once trained, zeros before.
pub open spec fn ivf_bytes(v: IvfView) -> Seq<u8> {
    ivf_layout(
        v,
        if v.is_trained {
            v.centroids
        } else {
            zeros(v.lists.len() * v.dim)
        },
        flag_byte(v.is_trained),
    )
}

/// An inverted list that the format holds for an index of `dim` and `metric`.
pub open spec fn cluster_encodable(f: FlatIndexView, dim: nat, metric: Metric) -> bool {
    &&& f.wf()
    &&& f.dim == dim
    &&& f.metric == metric
    &&& f.num_vectors <= u32::MAX
}

/// Every list is encodable.
pub open spec fn clusters_encodable(ls: Seq<FlatIndexView>, dim: nat, metric: Metric) -> bool {
    forall|c: int| 0 <= c < ls.len() ==> cluster_encodable(#[trigger] ls[c], dim, metric)
}

/// An IVF index that the format holds and gives back unchanged.
pub open spec fn ivf_encodable(v: IvfView) -> bool {
    &&& 0 < v.dim <= u32::MAX
    &&& v.lists.len() <= u32::MAX
    &&& lists_total(v.lists) <= usize::MAX
    &&& clusters_encodable(v.lists, v.dim, v.metric)
    &&& if v.is_trained {
        v.centroids.len() == v.lists.len() * v.dim && v.num_centroids == v.lists.len()
    } else {
        v.centroids.len() == 0 && v.num_centroids == 0
    }
}

/// Append `n` zero words.
fn write_zeros(out: &mut Vec<u8>, n: usize)
    ensures
        final(out)@ == old(out)@ + le32s(zeros(n as nat)),
{
    let mut i: usize = 0;
    while i < n
        invariant
            i <= n,
            out@ == old(out)@ + le32s(zeros(i as nat)),
        decreases n - i,
    {
        proof {
            assert(zeros((i + 1) as nat) =~= zeros(i as nat).push(0u32));
            lemma_concat_push(zeros(i as nat), 0u32, |x: u32| le32(x));
        }
        write_u32(out, 0u32);
        i = i + 1;
    }
}

/// Serialize an IVF index.
pub fn encode_ivf_index(index: &IVFIndex) -> (out: Vec<u8>)
    requires
        index.wf(),
        lists_total(index@.lists) <= usize::MAX,
        !index.is_trained ==> index.inverted_lists@.len() * index.dim <= usize::MAX,
    ensures
        out@ == ivf_bytes(index@),
{
    let nc = index.inverted_lists.len();
    let total = index.len();
    let mut out: Vec<u8> = Vec::new();
    write_header(&mut out, INDEX_TYPE_IVF, index.metric, index.dim, total);
    write_u32(&mut out, nc as u32);
    if index.is_trained {
        write_u32s(&mut out, index.centroids.data.as_slice());
    } else {
        write_zeros(&mut out, nc * index.dim);
    }
    let ghost start = out@;
    let ghost views = index@.lists;
    let mut c: usize = 0;
    while c < nc
        invariant
            c <= nc,
            nc == index.inverted_lists@.len(),
            views == index@.lists,
            out@ == start + clusters_bytes(views.take(c as int)),
        decreases nc - c,
    {
        let list = &index.inverted_lists[c];
        proof {
            assert(views.take(c as int + 1) =~= views.take(c as int).push(views[c as int]));
            lemma_concat_push(views.take(c as int), views[c as int], cluster_fn());
        }
        write_u32(&mut out, list.len() as u32);
        write_u64s(&mut out, list.ids.as_slice());
        write_u32s(&mut out, list.batch.data.as_slice());
        proof {
            assert(views[c as int] == list@);
            assert(out@ =~= start + clusters_bytes(views.take(c as int)) + cluster_bytes(list@));
        }
        c = c + 1;
    }
    write_u8(&mut out, if index.is_trained { 1u8 } else { 0u8 });
    proof {
        assert(views.take(nc as int) =~= views);
        assert(out@ =~= ivf_bytes(index@));
    }
    out
}

/// Read one inverted list at `pos`.
fn decode_cluster(bytes: &[u8], pos: usize, dim: usize, metric: Metric) -> (res: Result<(FlatIndex, usize), FormatError>)
    requires
        pos <= bytes@.len(),
    ensures
        res matches Ok((f, p)) ==> {
            &&& at(bytes@, pos as int, cluster_bytes(f@))
            &&& p == pos + cluster_bytes(f@).len()
            &&& f.wf()
            &&& cluster_encodable(f@, dim as nat, metric)
        },
        forall|fv: FlatIndexView|
            cluster_encodable(fv, dim as nat, metric) && at(bytes@, pos as int, #[trigger] cluster_bytes(fv)) ==> (
            res matches Ok((f, p)) && f@ == fv),
{
    let blen = bytes.len();
    proof {
        lemma_le_facts();
        assert forall|fv: FlatIndexView| #[trigger] at(bytes@, pos as int, cluster_bytes(fv)) implies {
            &&& at(bytes@, pos as int, le32(fv.num_vectors as u32))
            &&& at(bytes@, pos + 4, le64s(fv.ids))
            &&& at(bytes@, pos + 4 + le64s(fv.ids).len(), le32s(fv.data))
        } by {
            lemma_at_concat(bytes@, pos as int, le32(fv.num_vectors as u32) + le64s(fv.ids), le32s(fv.data));
            lemma_at_concat(bytes@, pos as int, le32(fv.num_vectors as u32), le64s(fv.ids));
        }
    }
    let count = match read_u32(bytes, pos) {
        Some(x) => x,
        None => {
            return Err(FormatError::Truncated(Section::ClusterCount));
        },
    };
    proof {
        assert forall|fv: FlatIndexView|
            cluster_encodable(fv, dim as nat, metric) && #[trigger] at(bytes@, pos as int, cluster_bytes(fv)) implies fv.num_vectors
            == count && fv.ids.len() == count by {
            assert(le32(fv.num_vectors as u32) == bytes@.subrange(pos as int, pos + 4));
        }
    }
    let n = count as usize;
    let ids = match read_u64s(bytes, pos + 4, n) {
        Some(v) => v,
        None => {
            proof {
                assert forall|fv: FlatIndexView|
                    cluster_encodable(fv, dim as nat, metric) && #[trigger] at(bytes@, pos as int, cluster_bytes(fv)) implies false by {
                    lemma_le64s_len(fv.ids);
                }
            }
            return Err(FormatError::Truncated(Section::Ids));
        },
    };
    proof {
        lemma_le64s_len(ids@);
        assert forall|fv: FlatIndexView|
            cluster_encodable(fv, dim as nat, metric) && #[trigger] at(bytes@, pos as int, cluster_bytes(fv)) implies fv.ids
            == ids@ by {
            lemma_le64s_len(fv.ids);
            lemma_le64s_injective(fv.ids, ids@);
        }
    }
    let fl = match n.checked_mul(dim) {
        Some(x) => x,
        None => {
            proof {
                assert forall|fv: FlatIndexView|
                    cluster_encodable(fv, dim as nat, metric) && #[trigger] at(bytes@, pos as int, cluster_bytes(fv)) implies false by {
                    assert(fv.dim * fv.num_vectors == fv.num_vectors * fv.dim) by (nonlinear_arith);
                    lemma_le64s_len(fv.ids);
                    lemma_le32s_len(fv.data);
                }
            }
            return Err(FormatError::ClusterFloatOverflow);
        },
    };
    let dpos = pos + 4 + 8 * n;
    let data = match read_u32s(bytes, dpos, fl) {
        Some(d) => d,
        None => {
            proof {
                assert forall|fv: FlatIndexView|
                    cluster_encodable(fv, dim as nat, metric) && #[trigger] at(bytes@, pos as int, cluster_bytes(fv)) implies false by {
                    assert(fv.dim * fv.num_vectors == fv.num_vectors * fv.dim) by (nonlinear_arith);
                    lemma_le64s_len(fv.ids);
                    lemma_le32s_len(fv.data);
                }
            }
            return Err(FormatError::Truncated(Section::VectorData));
        },
    };
    proof {
        lemma_le32s_len(data@);
        assert forall|fv: FlatIndexView|
            cluster_encodable(fv, dim as nat, metric) && #[trigger] at(bytes@, pos as int, cluster_bytes(fv)) implies fv.data
            == data@ by {
            assert(fv.dim * fv.num_vectors == fv.num_vectors * fv.dim) by (nonlinear_arith);
            lemma_le64s_len(fv.ids);
            lemma_le32s_len(fv.data);
            lemma_le32s_injective(fv.data, data@);
        }
    }
    match first_repeat(ids.as_slice()) {
        Some(i) => {
            let id = ids[i];
            proof {
                assert forall|fv: FlatIndexView|
                    cluster_encodable(fv, dim as nat, metric) && #[trigger] at(bytes@, pos as int, cluster_bytes(fv)) implies false by {
                    let j = choose|j: int| 0 <= j < i && ids@[j] == ids@[i as int];
                    assert(fv.ids[j] == fv.ids[i as int]);
                }
            }
            return Err(FormatError::DuplicateId(id));
        },
        None => {},
    }
    let f = FlatIndex { batch: VectorBatch { data, dim, num_vectors: n }, ids, metric };
    let p = dpos + 4 * fl;
    proof {
        assert(dim * n == n * dim) by (nonlinear_arith);
        lemma_at_concat(bytes@, pos as int, le32(count), le64s(ids@));
        lemma_at_concat(bytes@, pos as int, le32(count) + le64s(ids@), le32s(data@));
        assert(cluster_bytes(f@) == le32(count) + le64s(ids@) + le32s(data@));
    }
    Ok((f, p))
}

/// Read `nc` inverted lists starting at `pos`; also returns their total size.
fn decode_clusters(bytes: &[u8], pos: usize, nc: usize, dim: usize, metric: Metric) -> (res: Result<
    (Vec<FlatIndex>, usize, u64),
    FormatError,
>)
    requires
        pos <= bytes@.len(),
        nc <= u32::MAX,
    ensures
        res matches Ok((ls, p, sum)) ==> {
            &&& ls@.len() == nc
            &&& at(bytes@, pos as int, clusters_bytes(flat_views(ls@)))
            &&& p == pos + clusters_bytes(flat_views(ls@)).len()
            &&& clusters_encodable(flat_views(ls@), dim as nat, metric)
            &&& forall|c: int| 0 <= c < ls@.len() ==> (#[trigger] ls@[c]).wf()
            &&& sum == lists_total(flat_views(ls@))
        },
        forall|lsv: Seq<FlatIndexView>|
            lsv.len() == nc && clusters_encodable(lsv, dim as nat, metric) && at(
                bytes@,
                pos as int,
                #[trigger] clusters_bytes(lsv),
            ) ==> (res matches Ok((ls, p, sum)) && flat_views(ls@) == lsv),
{
    let blen = bytes.len();
    let mut ls: Vec<FlatIndex> = Vec::new();
    let mut cur = pos;
    let mut sum: u64 = 0;
    let mut c: usize = 0;
    proof {
        assert(flat_views(ls@) =~= Seq::<FlatIndexView>::empty());
        assert(clusters_bytes(flat_views(ls@)) =~= Seq::<u8>::empty());
        assert(bytes@.subrange(pos as int, pos as int) =~= Seq::<u8>::empty());
    }
    while c < nc
        invariant
            c <= nc,
            nc <= u32::MAX,
            blen == bytes@.len(),
            pos <= cur <= bytes@.len(),
            ls@.len() == c,
            at(bytes@, pos as int, clusters_bytes(flat_views(ls@))),
            cur == pos + clusters_bytes(flat_views(ls@)).len(),
            clusters_encodable(flat_views(ls@), dim as nat, metric),
            forall|t: int| 0 <= t < ls@.len() ==> (#[trigger] ls@[t]).wf(),
            sum == lists_total(flat_views(ls@)),
            sum <= c * 0xffff_ffff,
            forall|lsv: Seq<FlatIndexView>|
                lsv.len() == nc && clusters_encodable(lsv, dim as nat, metric) && at(
                    bytes@,
                    pos as int,
                    #[trigger] clusters_bytes(lsv),
                ) ==> flat_views(ls@) == lsv.take(c as int),
        decreases nc - c,
    {
        proof {
            assert forall|lsv: Seq<FlatIndexView>|
                lsv.len() == nc && clusters_encodable(lsv, dim as nat, metric) && #[trigger] at(
                    bytes@,
                    pos as int,
                    clusters_bytes(lsv),
                ) implies at(bytes@, cur as int, cluster_bytes(lsv[c as int])) by {
                lemma_at_element(bytes@, pos as int, lsv, c as int, cluster_fn());
            }
        }
        match decode_cluster(bytes, cur, dim, metric) {
            Err(e) => {
                proof {
                    assert forall|lsv: Seq<FlatIndexView>|
                        lsv.len() == nc && clusters_encodable(lsv, dim as nat, metric) && #[trigger] at(
                            bytes@,
                            pos as int,
                            clusters_bytes(lsv),
                        ) implies false by {
                        assert(cluster_encodable(lsv[c as int], dim as nat, metric));
                        assert(at(bytes@, cur as int, cluster_bytes(lsv[c as int])));
                    }
                }
                return Err(e);
            },
            Ok((f, p)) => {
                let ghost before = flat_views(ls@);
                proof {
                    lemma_at_push(bytes@, pos as int, before, f@, cluster_fn());
                    assert(sum + f.batch.num_vectors <= (c + 1) * 0xffff_ffff) by (nonlinear_arith)
                        requires
                            sum <= c * 0xffff_ffff,
                            f.batch.num_vectors <= 0xffff_ffff,
                    ;
                    assert((c + 1) * 0xffff_ffff <= 0xffff_ffff * 0xffff_ffff) by (nonlinear_arith)
                        requires
                            c + 1 <= 0xffff_ffff,
                    ;
                }
                let k = f.batch.num_vectors as u64;
                ls.push(f);
                cur = p;
                sum = sum + k;
                proof {
                    assert(flat_views(ls@) =~= before.push(f@));
                    assert(flat_views(ls@).drop_last() =~= before);
                    assert forall|lsv: Seq<FlatIndexView>|
                        lsv.len() == nc && clusters_encodable(lsv, dim as nat, metric) && #[trigger] at(
                            bytes@,
                            pos as int,
                            clusters_bytes(lsv),
                        ) implies flat_views(ls@) == lsv.take(c + 1) by {
                        assert(cluster_encodable(lsv[c as int], dim as nat, metric));
                        assert(lsv.take(c + 1) =~= lsv.take(c as int).push(lsv[c as int]));
                    }
                    assert forall|t: int| 0 <= t < flat_views(ls@).len() implies cluster_encodable(
                        #[trigger] flat_views(ls@)[t],
                        dim as nat,
                        metric,
                    ) by {
                        if t < c {
                            assert(flat_views(ls@)[t] == before[t]);
                        }
                    }
                }
            },
        }
        c = c + 1;
    }
    proof {
        assert forall|lsv: Seq<FlatIndexView>|
            lsv.len() == nc && clusters_encodable(lsv, dim as nat, metric) && #[trigger] at(
                bytes@,
                pos as int,
                clusters_bytes(lsv),
            ) implies flat_views(ls@) == lsv by {
            assert(lsv.take(c as int) =~= lsv);
        }
    }
    Ok((ls, cur, sum))
}

/// An IVF encoding is a prefix of `b` exactly when each of its parts occurs
/// at its offset.
pub proof fn lemma_ivf_parts(v: IvfView, w: Seq<u32>, flag: u8, b: Seq<u8>)
    ensures
        is_prefix(ivf_layout(v, w, flag), b) <==> {
            &&& is_prefix(header_bytes(INDEX_TYPE_IVF, v.metric, v.dim, lists_total(v.lists)), b)
            &&& at(b, 22, le32(v.lists.len() as u32))
            &&& at(b, 26, le32s(w))
            &&& at(b, (26 + 4 * w.len()) as int, clusters_bytes(v.lists))
            &&& at(
                b,
                (26 + 4 * w.len() + clusters_bytes(v.lists).len()) as int,
                seq![flag],
            )
        },
{
    lemma_le_facts();
    lemma_le32s_len(w);
    let h = header_bytes(INDEX_TYPE_IVF, v.metric, v.dim, lists_total(v.lists));
    assert(h.len() == 22);
    let nc = le32(v.lists.len() as u32);
    let cw = le32s(w);
    let cl = clusters_bytes(v.lists);
    let fl = seq![flag];
    lemma_prefix_at(ivf_layout(v, w, flag), b);
    lemma_prefix_at(h, b);
    lemma_at_concat(b, 0, h + nc + cw + cl, fl);
    lemma_at_concat(b, 0, h + nc + cw, cl);
    lemma_at_concat(b, 0, h + nc, cw);
    lemma_at_concat(b, 0, h, nc);
}

/// Deserialize an IVF index from the start of `bytes`.
///
/// Succeeds exactly when `bytes` starts with the encoding of an IVF index the
/// format can hold, and then gives that index back. The centroid section of
/// an untrained index is read and discarded.
pub fn decode_ivf_index(bytes: &[u8]) -> (res: Result<IVFIndex, FormatError>)
    ensures
        header_check(bytes@, INDEX_TYPE_IVF) is Err ==> res == Err::<IVFIndex, FormatError>(
            header_check(bytes@, INDEX_TYPE_IVF)->Err_0,
        ),
        res matches Ok(index) ==> index.wf() && ivf_encodable(index@) && exists|w: Seq<u32>, flag: u8|
            w.len() == index@.lists.len() * index@.dim && (index.is_trained ==> w == index@.centroids)
                && (flag != 0) == index.is_trained && is_prefix(#[trigger] ivf_layout(index@, w, flag), bytes@),
        forall|v: IvfView|
            ivf_encodable(v) && is_prefix(#[trigger] ivf_bytes(v), bytes@) ==> (res matches Ok(index) && index@
                == v),
        header_check(bytes@, INDEX_TYPE_IVF) matches Ok(h) ==> {
            &&& bytes@.len() < 26 ==> res == Err::<IVFIndex, FormatError>(FormatError::Truncated(Section::NumClusters))
            &&& forall|nc: u32|
                bytes@.len() >= 26 && #[trigger] le32(nc) == bytes@.subrange(22, 26) ==> {
                    &&& nc * h.dim > usize::MAX ==> res == Err::<IVFIndex, FormatError>(
                        FormatError::CentroidCountOverflow,
                    )
                    &&& nc * h.dim <= usize::MAX && bytes@.len() < 26 + 4 * (nc * h.dim) ==> res == Err::<
                        IVFIndex,
                        FormatError,
                    >(FormatError::Truncated(Section::VectorData))
                }
        },
{
    proof {
        lemma_le_facts();
    }
    let blen = bytes.len();
    proof {
        lemma_le_facts();
        assert forall|v: IvfView| ivf_encodable(v) && #[trigger] is_prefix(ivf_bytes(v), bytes@) implies header_check(
            bytes@,
            INDEX_TYPE_IVF,
        ) == Ok::<HeaderMetadata, FormatError>(
            (HeaderMetadata {
                index_type: INDEX_TYPE_IVF,
                metric: v.metric,
                dim: v.dim as usize,
                num_vectors: lists_total(v.lists) as usize,
            }),
        ) by {
            let w = if v.is_trained { v.centroids } else { zeros(v.lists.len() * v.dim) };
            lemma_ivf_parts(v, w, flag_byte(v.is_trained), bytes@);
            lemma_header_round_trip(bytes@, INDEX_TYPE_IVF, v.metric, v.dim, lists_total(v.lists));
        }
    }
    let header = match read_header(bytes, INDEX_TYPE_IVF) {
        Ok(h) => h,
        Err(e) => {
            return Err(e);
        },
    };
    proof {
        lemma_header_check_ok(bytes@, INDEX_TYPE_IVF);
    }
    let dim = header.dim;
    let metric = header.metric;
    let nc32 = match read_u32(bytes, 22) {
        Some(x) => x,
        None => {
            proof {
                assert forall|v: IvfView| ivf_encodable(v) && #[trigger] is_prefix(ivf_bytes(v), bytes@) implies false by {
                    let w = if v.is_trained { v.centroids } else { zeros(v.lists.len() * v.dim) };
                    lemma_ivf_parts(v, w, flag_byte(v.is_trained), bytes@);
                }
            }
            return Err(FormatError::Truncated(Section::NumClusters));
        },
    };
    let nc = nc32 as usize;
    proof {
        assert forall|v: IvfView| ivf_encodable(v) && #[trigger] is_prefix(ivf_bytes(v), bytes@) implies v.lists.len()
            == nc by {
            let w = if v.is_trained { v.centroids } else { zeros(v.lists.len() * v.dim) };
            lemma_ivf_parts(v, w, flag_byte(v.is_trained), bytes@);
            assert(bytes@.subrange(22, 26) == le32(v.lists.len() as u32));
        }
    }
    let total_c = match nc.checked_mul(dim) {
        Some(t) => t,
        None => {
            proof {
                assert forall|v: IvfView| ivf_encodable(v) && #[trigger] is_prefix(ivf_bytes(v), bytes@) implies false by {
                    let w = if v.is_trained { v.centroids } else { zeros(v.lists.len() * v.dim) };
                    lemma_ivf_parts(v, w, flag_byte(v.is_trained), bytes@);
                    lemma_le32s_len(w);
                    assert(v.lists.len() * v.dim == v.dim * v.lists.len()) by (nonlinear_arith);
                }
            }
            return Err(FormatError::CentroidCountOverflow);
        },
    };
    let cdata = match read_u32s(bytes, 26, total_c) {
        Some(d) => d,
        None => {
            proof {
                assert forall|v: IvfView| ivf_encodable(v) && #[trigger] is_prefix(ivf_bytes(v), bytes@) implies false by {
                    let w = if v.is_trained { v.centroids } else { zeros(v.lists.len() * v.dim) };
                    lemma_ivf_parts(v, w, flag_byte(v.is_trained), bytes@);
                    lemma_le32s_len(w);
                }
            }
            return Err(FormatError::Truncated(Section::VectorData));
        },
    };
    proof {
        lemma_le32s_len(cdata@);
        assert forall|v: IvfView| ivf_encodable(v) && #[trigger] is_prefix(ivf_bytes(v), bytes@) implies (if v.is_trained {
            v.centroids
        } else {
            zeros(v.lists.len() * v.dim)
        }) == cdata@ by {
            let w = if v.is_trained { v.centroids } else { zeros(v.lists.len() * v.dim) };
            lemma_ivf_parts(v, w, flag_byte(v.is_trained), bytes@);
            lemma_le32s_len(w);
            lemma_le32s_injective(w, cdata@);
        }
    }
    let cpos = 26 + 4 * total_c;
    let (lists, p, sum) = match decode_clusters(bytes, cpos, nc, dim, metric) {
        Ok(r) => r,
        Err(e) => {
            proof {
                assert forall|v: IvfView| ivf_encodable(v) && #[trigger] is_prefix(ivf_bytes(v), bytes@) implies false by {
                    let w = if v.is_trained { v.centroids } else { zeros(v.lists.len() * v.dim) };
                    lemma_ivf_parts(v, w, flag_byte(v.is_trained), bytes@);
                }
            }
            return Err(e);
        },
    };
    proof {
        assert forall|v: IvfView| ivf_encodable(v) && #[trigger] is_prefix(ivf_bytes(v), bytes@) implies flat_views(lists@)
            == v.lists by {
            let w = if v.is_trained { v.centroids } else { zeros(v.lists.len() * v.dim) };
            lemma_ivf_parts(v, w, flag_byte(v.is_trained), bytes@);
        }
    }
    if sum as u128 != header.num_vectors as u128 {
        return Err(FormatError::ClusterTotalMismatch { header: header.num_vectors, clusters: sum });
    }
    let flag = match read_u8(bytes, p) {
        Some(b) => b,
        None => {
            proof {
                assert forall|v: IvfView| ivf_encodable(v) && #[trigger] is_prefix(ivf_bytes(v), bytes@) implies false by {
                    let w = if v.is_trained { v.centroids } else { zeros(v.lists.len() * v.dim) };
                    lemma_ivf_parts(v, w, flag_byte(v.is_trained), bytes@);
                }
            }
            return Err(FormatError::Truncated(Section::TrainedFlag));
        },
    };
    let is_trained = flag != 0;
    let centroids = if is_trained {
        VectorBatch { data: cdata, dim, num_vectors: nc }
    } else {
        VectorBatch::new(dim)
    };
    let index = IVFIndex { centroids, inverted_lists: lists, dim, metric, is_trained };
    proof {
        assert(total_c == nc * dim);
        assert(dim * nc == nc * dim) by (nonlinear_arith);
        assert(index@.lists == flat_views(lists@));
        assert(index.wf()) by {
            assert forall|c: int| 0 <= c < index.inverted_lists@.len() implies {
                &&& (#[trigger] index.inverted_lists@[c]).wf()
                &&& index.inverted_lists@[c].batch.dim == index.dim
                &&& index.inverted_lists@[c].metric == index.metric
            } by {
                assert(cluster_encodable(flat_views(lists@)[c], dim as nat, metric));
            }
        }
        let w = cdata@;
        assert(w.len() == index@.lists.len() * index@.dim);
        lemma_ivf_parts(index@, w, flag, bytes@);
        assert(bytes@.subrange(p as int, p + 1) =~= seq![flag]);
        assert(is_prefix(ivf_layout(index@, w, flag), bytes@));
        assert forall|v: IvfView| ivf_encodable(v) && #[trigger] is_prefix(ivf_bytes(v), bytes@) implies index@ == v by {
            let w2 = if v.is_trained { v.centroids } else { zeros(v.lists.len() * v.dim) };
            lemma_ivf_parts(v, w2, flag_byte(v.is_trained), bytes@);
            lemma_le32s_len(w2);
            assert(v.lists == flat_views(lists@));
            assert(w2 == cdata@);
            assert(26 + 4 * w2.len() + clusters_bytes(v.lists).len() == p);
            assert(bytes@.subrange(p as int, p + 1)[0] == flag_byte(v.is_trained));
            assert(flag == flag_byte(v.is_trained));
            assert(is_trained == v.is_trained);
            assert(index@.centroids == v.centroids);
            assert(index@.num_centroids == v.num_centroids);
        }
    }
    Ok(index)
}

/// An IVF index as the library builds it (`IVFIndex::new`, then
/// `set_centroids`, `add` and `add_batch`, all of which keep it well formed)
/// is encodable whenever its sizes fit the format's fields; so
/// `decode_ivf_index` of `encode_ivf_index` of it gives it back unchanged.
pub proof fn lemma_ivf_index_encodable(index: IVFIndex)
    requires
        index.wf(),
        0 < index.dim <= u32::MAX,
        index.inverted_lists@.len() <= u32::MAX,
        lists_total(index@.lists) <= usize::MAX,
        forall|c: int|
            0 <= c < index.inverted_lists@.len() ==> (#[trigger] index.inverted_lists@[c]).batch.num_vectors
                <= u32::MAX,
    ensures
        ivf_encodable(index@),
{
    let v = index@;
    assert forall|c: int| 0 <= c < v.lists.len() implies cluster_encodable(#[trigger] v.lists[c], v.dim, v.metric) by {
        assert(v.lists[c] == index.inverted_lists@[c]@);
        assert(index.inverted_lists@[c].wf());
    }
    if index.is_trained {
        let n = index.centroids.num_vectors as int;
        let d = index.dim as int;
        assert(index.centroids.data@.len() == n * d) by (nonlinear_arith)
            requires
                index.centroids.data@.len() == d * n,
        ;
    }
}

} // verus!
