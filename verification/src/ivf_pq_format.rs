//! On-disk format of an IVF-PQ index.
//!
//! After the common header (`index_type = 3`, `num_vectors` = total number
//! of codes):
//!
//! ```text
//! m, k_per_subvector: u32 each
//! num_clusters:       u32
//! centroids:          num_clusters * dim coordinates (zeros while untrained)
//! codebooks:          m * k_per_subvector * (dim / m) coordinates (zeros while untrained)
//! per cluster:        count: u32, then count entries of id: u64 and m code bytes
//! is_trained:         u8
//! ```

use vstd::prelude::*;
use vstd::slice::slice_subrange;
use crate::codec::{is_prefix, concat_map, lemma_concat_len_on, at, lemma_at_concat, lemma_prefix_at, lemma_at_element, lemma_at_push, le32, le64, le32s, lemma_le_facts, lemma_le32s_len, lemma_le32s_injective, lemma_concat_push, lemma_concat_append, read_u8, read_u32, read_u64, read_u32s, write_u8, write_u32, write_u64, write_u32s};
use crate::batch::VectorBatch;
use crate::ivf_format::{zeros, flag_byte};
use crate::metric::Metric;
use crate::pq::{IVFPQIndex, IvfPqView, PQCodebooks, PQConfig, books_view, flatten, entries_view, code_lists_view, entries_total};
use crate::serialize::{FormatError, HeaderMetadata, Section, INDEX_TYPE_IVF_PQ, header_bytes, header_check, lemma_header_check_ok, lemma_header_round_trip, read_header, write_header};

verus! {

/// One stored entry: the ID, then the code bytes.
pub open spec fn entry_bytes(e: (u64, Seq<u8>)) -> Seq<u8> {
    le64(e.0) + e.1
}

/// [`entry_bytes`] as a function value.
pub open spec fn entry_fn() -> spec_fn((u64, Seq<u8>)) -> Seq<u8> {
    |e: (u64, Seq<u8>)| entry_bytes(e)
}

/// One inverted list: its length, then its entries.
pub open spec fn code_list_bytes(l: Seq<(u64, Seq<u8>)>) -> Seq<u8> {
    le32(l.len() as u32) + concat_map(l, entry_fn())
}

/// [`code_list_bytes`] as a function value.
pub open spec fn code_list_fn() -> spec_fn(Seq<(u64, Seq<u8>)>) -> Seq<u8> {
    |l: Seq<(u64, Seq<u8>)>| code_list_bytes(l)
}

/// The inverted lists, in cluster order.
pub open spec fn code_lists_bytes(ls: Seq<Seq<(u64, Seq<u8>)>>) -> Seq<u8> {
    concat_map(ls, code_list_fn())
}

/// The number of codebook coordinates for the configuration of `v`.
pub open spec fn book_words_len(v: IvfPqView) -> nat {
    (v.config.m * v.config.k_per_subvector * (v.dim / (v.config.m as nat))) as nat
}

/// The layout of an IVF-PQ file with the given centroid words, codebook
/// words and trained flag byte.
pub open spec fn ivf_pq_layout(v: IvfPqView, cw: Seq<u32>, bw: Seq<u32>, flag: u8) -> Seq<u8> {
    header_bytes(INDEX_TYPE_IVF_PQ, v.metric, v.dim, entries_total(v.lists)) + le32(v.config.m as u32)
        + le32(v.config.k_per_subvector as u32) + le32(v.lists.len() as u32) + le32s(cw) + le32s(bw)
        + code_lists_bytes(v.lists) + seq![flag]
}

/// The centroid words written for `v`: the centroids once trained, zeros
/// before.
pub open spec fn centroid_words(v: IvfPqView) -> Seq<u32> {
    if v.is_trained {
        v.centroids
    } else {
        zeros(v.lists.len() * v.dim)
    }
}

/// The codebook words written for `v`: the codebooks once present, zeros
/// before.
pub open spec fn book_words(v: IvfPqView) -> Seq<u32> {
    match v.books {
        Some(b) => flatten(b),
        None => zeros(book_words_len(v)),
    }
}

/// The bytes of an IVF-PQ index.
pub open spec fn ivf_pq_bytes(v: IvfPqView) -> Seq<u8> {
    ivf_pq_layout(v, centroid_words(v), book_words(v), flag_byte(v.is_trained))
}

/// Inverted lists the format holds for codes of `m` bytes.
pub open spec fn code_lists_encodable(ls: Seq<Seq<(u64, Seq<u8>)>>, m: nat) -> bool {
    forall|c: int|
        0 <= c < ls.len() ==> (#[trigger] ls[c]).len() <= u32::MAX && forall|j: int|
            0 <= j < ls[c].len() ==> (#[trigger] ls[c][j]).1.len() == m
}

/// An IVF-PQ index that the format holds and gives back unchanged.
pub open spec fn ivf_pq_encodable(v: IvfPqView) -> bool {
    &&& 0 < v.dim <= u32::MAX
    &&& v.config.m > 0
    &&& v.dim % (v.config.m as nat) == 0
    &&& 0 < v.config.k_per_subvector <= 256
    &&& v.config.max_iterations == 100
    &&& book_words_len(v) <= usize::MAX
    &&& v.lists.len() <= u32::MAX
    &&& entries_total(v.lists) <= usize::MAX
    &&& code_lists_encodable(v.lists, v.config.m as nat)
    &&& if v.is_trained {
        &&& v.centroids.len() == v.lists.len() * v.dim
        &&& v.num_centroids == v.lists.len()
        &&& v.books matches Some(b) && b.len() == v.config.m && forall|i: int|
            0 <= i < b.len() ==> (#[trigger] b[i]).len() == v.config.k_per_subvector * (v.dim / (v.config.m as nat))
    } else {
        &&& v.centroids.len() == 0
        &&& v.num_centroids == 0
        &&& v.books is None
    }
}

/// The pieces of a concatenation of equal-length runs sit at multiples of
/// their length.
pub proof fn lemma_flatten_pieces(ws: Seq<Seq<u32>>, f: nat)
    requires
        forall|i: int| 0 <= i < ws.len() ==> (#[trigger] ws[i]).len() == f,
    ensures
        flatten(ws).len() == ws.len() * f,
        forall|i: int|
            0 <= i < ws.len() ==> flatten(ws).subrange(i * f, i * f + f) == #[trigger] ws[i],
    decreases ws.len(),
{
    if ws.len() > 0 {
        let init = ws.drop_last();
        lemma_flatten_pieces(init, f);
        let n = ws.len() - 1;
        assert(ws.len() * f == n * f + f) by (nonlinear_arith)
            requires
                n == ws.len() - 1,
        ;
        assert forall|i: int| 0 <= i < ws.len() implies flatten(ws).subrange(i * f, i * f + f) == #[trigger] ws[i] by {
            if i < n {
                assert(i * f + f <= n * f) by (nonlinear_arith)
                    requires
                        i < n,
                ;
                assert(0 <= i * f) by (nonlinear_arith)
                    requires
                        0 <= i,
                ;
                assert(flatten(ws).subrange(i * f, i * f + f) =~= flatten(init).subrange(i * f, i * f + f));
                assert(init[i] == ws[i]);
            } else {
                assert(i * f == n * f);
                assert(flatten(ws).subrange(i * f, i * f + f) =~= ws.last());
            }
        }
    }
}

/// Append the entries of one inverted list.
fn write_code_list(out: &mut Vec<u8>, l: &Vec<(u64, Vec<u8>)>)
    ensures
        final(out)@ == old(out)@ + code_list_bytes(entries_view(l@)),
{
    write_u32(out, l.len() as u32);
    let ghost start = out@;
    let ghost ev = entries_view(l@);
    let mut j: usize = 0;
    while j < l.len()
        invariant
            j <= l@.len(),
            ev == entries_view(l@),
            out@ == start + concat_map(ev.take(j as int), entry_fn()),
        decreases l@.len() - j,
    {
        proof {
            assert(ev.take(j as int + 1) =~= ev.take(j as int).push(ev[j as int]));
            lemma_concat_push(ev.take(j as int), ev[j as int], entry_fn());
        }
        write_u64(out, l[j].0);
        out.extend_from_slice(l[j].1.as_slice());
        proof {
            assert(out@ =~= start + concat_map(ev.take(j as int), entry_fn()) + entry_bytes(ev[j as int]));
        }
        j = j + 1;
    }
    proof {
        assert(ev.take(l@.len() as int) =~= ev);
        assert(out@ =~= old(out)@ + code_list_bytes(ev));
    }
}

/// Serialize an IVF-PQ index.
pub fn encode_ivf_pq_index(index: &IVFPQIndex) -> (out: Vec<u8>)
    requires
        index.wf(),
        entries_total(index@.lists) <= usize::MAX,
        !index.is_trained ==> index.inverted_lists@.len() * index.dim <= usize::MAX,
        index.pq_codebooks is None ==> book_words_len(index@) <= usize::MAX,
    ensures
        out@ == ivf_pq_bytes(index@),
{
    let nc = index.inverted_lists.len();
    let total = index.len();
    let m = index.pq_config.m;
    let k = index.pq_config.k_per_subvector;
    let sub_dim = index.dim / m;
    let mut out: Vec<u8> = Vec::new();
    write_header(&mut out, INDEX_TYPE_IVF_PQ, index.metric, index.dim, total);
    write_u32(&mut out, m as u32);
    write_u32(&mut out, k as u32);
    write_u32(&mut out, nc as u32);
    if index.is_trained {
        write_u32s(&mut out, index.centroids.data.as_slice());
    } else {
        write_zero_words(&mut out, nc * index.dim);
    }
    match &index.pq_codebooks {
        Some(cb) => {
            let ghost start = out@;
            let ghost bv = books_view(cb.codebooks@);
            let mut i: usize = 0;
            while i < cb.codebooks.len()
                invariant
                    i <= cb.codebooks@.len(),
                    bv == books_view(cb.codebooks@),
                    out@ == start + le32s(flatten(bv.take(i as int))),
                decreases cb.codebooks@.len() - i,
            {
                proof {
                    assert(bv.take(i as int + 1).drop_last() =~= bv.take(i as int));
                    lemma_concat_append(flatten(bv.take(i as int)), bv[i as int], |x: u32| le32(x));
                }
                write_u32s(&mut out, cb.codebooks[i].data.as_slice());
                i = i + 1;
            }
            proof {
                assert(bv.take(cb.codebooks@.len() as int) =~= bv);
            }
        },
        None => {
            proof {
                assert((m * k) * sub_dim == book_words_len(index@));
                assert(sub_dim >= 1) by (nonlinear_arith)
                    requires
                        index.dim > 0,
                        m > 0,
                        index.dim % m == 0,
                        sub_dim == index.dim / m,
                ;
                assert(m * k <= (m * k) * sub_dim) by (nonlinear_arith)
                    requires
                        sub_dim >= 1,
                ;
            }
            write_zero_words(&mut out, m * k * sub_dim);
        },
    }
    let ghost start = out@;
    let ghost views = code_lists_view(index.inverted_lists@);
    let mut c: usize = 0;
    while c < nc
        invariant
            c <= nc,
            nc == index.inverted_lists@.len(),
            views == code_lists_view(index.inverted_lists@),
            out@ == start + code_lists_bytes(views.take(c as int)),
        decreases nc - c,
    {
        proof {
            assert(views.take(c as int + 1) =~= views.take(c as int).push(views[c as int]));
            lemma_concat_push(views.take(c as int), views[c as int], code_list_fn());
        }
        write_code_list(&mut out, &index.inverted_lists[c]);
        c = c + 1;
    }
    write_u8(&mut out, if index.is_trained { 1u8 } else { 0u8 });
    proof {
        assert(views.take(nc as int) =~= views);
        assert(out@ =~= ivf_pq_bytes(index@));
    }
    out
}

/// Append `n` zero words.
fn write_zero_words(out: &mut Vec<u8>, n: usize)
    ensures
        final(out)@ == old(out)@ + le32s(zeros(n as nat)),
{
    let mut i: usize = 0;
    while i < n
        invariant
            i <= n,
            out@ == old(out)@ + le32s(zeros(i as nat)),
        decreases n - i,
    {
        proof {
            assert(zeros((i + 1) as nat) =~= zeros(i as nat).push(0u32));
            lemma_concat_push(zeros(i as nat), 0u32, |x: u32| le32(x));
        }
        write_u32(out, 0u32);
        i = i + 1;
    }
}

/// Read inverted list `c` at `pos`; its codes have `m` bytes.
fn decode_code_list(bytes: &[u8], pos: usize, c: usize, m: usize) -> (res: Result<
    (Vec<(u64, Vec<u8>)>, usize),
    FormatError,
>)
    requires
        pos <= bytes@.len(),
    ensures
        res matches Ok((l, p)) ==> {
            &&& at(bytes@, pos as int, code_list_bytes(entries_view(l@)))
            &&& p == pos + code_list_bytes(entries_view(l@)).len()
            &&& l@.len() <= u32::MAX
            &&& forall|j: int| 0 <= j < l@.len() ==> (#[trigger] l@[j]).1@.len() == m
        },
        forall|lv: Seq<(u64, Seq<u8>)>|
            lv.len() <= u32::MAX && (forall|j: int| 0 <= j < lv.len() ==> (#[trigger] lv[j]).1.len() == m)
                && at(bytes@, pos as int, #[trigger] code_list_bytes(lv)) ==> (res matches Ok((l, p))
                && entries_view(l@) == lv),
{
    let blen = bytes.len();
    proof {
        lemma_le_facts();
        assert forall|lv: Seq<(u64, Seq<u8>)>|
            lv.len() <= u32::MAX && (forall|j: int| 0 <= j < lv.len() ==> (#[trigger] lv[j]).1.len() == m)
                && #[trigger] at(bytes@, pos as int, code_list_bytes(lv)) implies {
            &&& at(bytes@, pos as int, le32(lv.len() as u32))
            &&& at(bytes@, pos + 4, concat_map(lv, entry_fn()))
            &&& concat_map(lv, entry_fn()).len() == lv.len() * (8 + m)
        } by {
            lemma_at_concat(bytes@, pos as int, le32(lv.len() as u32), concat_map(lv, entry_fn()));
            assert forall|j: int| 0 <= j < lv.len() implies (#[trigger] entry_fn()(lv[j])).len() == 8 + m by {
                assert(lv[j].1.len() == m);
            }
            lemma_concat_len_on(lv, entry_fn(), (8 + m) as nat);
        }
    }
    let count = match read_u32(bytes, pos) {
        Some(x) => x,
        None => {
            return Err(FormatError::Truncated(Section::ClusterVectorCount(c)));
        },
    };
    proof {
        assert forall|lv: Seq<(u64, Seq<u8>)>|
            lv.len() <= u32::MAX && (forall|j: int| 0 <= j < lv.len() ==> (#[trigger] lv[j]).1.len() == m)
                && #[trigger] at(bytes@, pos as int, code_list_bytes(lv)) implies lv.len() == count by {
            assert(le32(lv.len() as u32) == bytes@.subrange(pos as int, pos + 4));
        }
    }
    let start = pos + 4;
    let n = count as usize;
    let entry_len: u128 = 8u128 + m as u128;
    assert((n as u128) * entry_len <= 0xffff_ffff * 0x1_0000_0000_0000_0008) by (nonlinear_arith)
        requires
            n <= 0xffff_ffff,
            entry_len <= 0x1_0000_0000_0000_0008,
    ;
    if (n as u128) * entry_len > (blen - start) as u128 {
        return Err(FormatError::Truncated(Section::InvertedList(c)));
    }
    let ghost w = (8 + m) as nat;
    assert(n * w <= blen - start);
    let mut l: Vec<(u64, Vec<u8>)> = Vec::new();
    let mut cur = start;
    let mut j: usize = 0;
    proof {
        assert(entries_view(l@) =~= Seq::<(u64, Seq<u8>)>::empty());
        assert(concat_map(entries_view(l@), entry_fn()) =~= Seq::<u8>::empty());
        assert(bytes@.subrange(start as int, start as int) =~= Seq::<u8>::empty());
    }
    while j < n
        invariant
            j <= n,
            n == count,
            w == 8 + m,
            blen == bytes@.len(),
            start == pos + 4,
            start + n * w <= blen,
            l@.len() == j,
            at(bytes@, start as int, concat_map(entries_view(l@), entry_fn())),
            concat_map(entries_view(l@), entry_fn()).len() == j * w,
            cur == start + j * w,
            forall|t: int| 0 <= t < l@.len() ==> (#[trigger] l@[t]).1@.len() == m,
            forall|lv: Seq<(u64, Seq<u8>)>|
                lv.len() <= u32::MAX && (forall|t: int| 0 <= t < lv.len() ==> (#[trigger] lv[t]).1.len() == m)
                    && at(bytes@, pos as int, #[trigger] code_list_bytes(lv)) ==> entries_view(l@) == lv.take(
                    j as int,
                ) && lv.len() == n && at(bytes@, start as int, concat_map(lv, entry_fn())),
        decreases n - j,
    {
        proof {
            lemma_le_facts();
            crate::batch::lemma_row_bounds(j as int, n as int, w as int);
        }
        let id = match read_u64(bytes, cur) {
            Some(x) => x,
            None => {
                return Err(FormatError::Truncated(Section::InvertedList(c)));
            },
        };
        let mut code: Vec<u8> = Vec::new();
        code.extend_from_slice(slice_subrange(bytes, cur + 8, cur + 8 + m));
        let ghost before = entries_view(l@);
        let ghost e = (id, code@);
        proof {
            assert(entry_bytes(e) =~= bytes@.subrange(cur as int, cur + 8 + m));
            assert(at(bytes@, cur as int, entry_bytes(e)));
            lemma_at_push(bytes@, start as int, before, e, entry_fn());
            assert forall|lv: Seq<(u64, Seq<u8>)>|
                lv.len() <= u32::MAX && (forall|t: int| 0 <= t < lv.len() ==> (#[trigger] lv[t]).1.len() == m)
                    && #[trigger] at(bytes@, pos as int, code_list_bytes(lv)) implies lv[j as int] == e by {
                lemma_at_element(bytes@, start as int, lv, j as int, entry_fn());
                assert(lv.take(j as int) == before);
                assert(lv[j as int].1.len() == m);
                let eb = entry_bytes(lv[j as int]);
                assert(eb.subrange(0, 8) =~= le64(lv[j as int].0));
                assert(eb.subrange(8, 8 + m) =~= lv[j as int].1);
                assert(bytes@.subrange(cur as int, cur + 8) =~= eb.subrange(0, 8));
                assert(bytes@.subrange(cur + 8, cur + 8 + m) =~= eb.subrange(8, 8 + m));
            }
        }
        l.push((id, code));
        cur = cur + 8 + m;
        proof {
            assert(entries_view(l@) =~= before.push(e));
            assert(j * w + w == (j + 1) * w) by (nonlinear_arith);
            assert forall|lv: Seq<(u64, Seq<u8>)>|
                lv.len() <= u32::MAX && (forall|t: int| 0 <= t < lv.len() ==> (#[trigger] lv[t]).1.len() == m)
                    && #[trigger] at(bytes@, pos as int, code_list_bytes(lv)) implies entries_view(l@) == lv.take(j + 1) by {
                assert(lv.take(j + 1) =~= lv.take(j as int).push(lv[j as int]));
            }
        }
        j = j + 1;
    }
    proof {
        lemma_at_concat(bytes@, pos as int, le32(count), concat_map(entries_view(l@), entry_fn()));
        assert(entries_view(l@).len() == count);
        assert forall|lv: Seq<(u64, Seq<u8>)>|
            lv.len() <= u32::MAX && (forall|t: int| 0 <= t < lv.len() ==> (#[trigger] lv[t]).1.len() == m)
                && #[trigger] at(bytes@, pos as int, code_list_bytes(lv)) implies entries_view(l@) == lv by {
            assert(lv.take(j as int) =~= lv);
        }
    }
    Ok((l, cur))
}

/// Read `nc` inverted lists of `m`-byte codes starting at `pos`; also
/// returns their total number of entries.
fn decode_code_lists(bytes: &[u8], pos: usize, nc: usize, m: usize) -> (res: Result<
    (Vec<Vec<(u64, Vec<u8>)>>, usize, u64),
    FormatError,
>)
    requires
        pos <= bytes@.len(),
        nc <= u32::MAX,
    ensures
        res matches Ok((ls, p, sum)) ==> {
            &&& ls@.len() == nc
            &&& at(bytes@, pos as int, code_lists_bytes(code_lists_view(ls@)))
            &&& p == pos + code_lists_bytes(code_lists_view(ls@)).len()
            &&& code_lists_encodable(code_lists_view(ls@), m as nat)
            &&& sum == entries_total(code_lists_view(ls@))
        },
        forall|lsv: Seq<Seq<(u64, Seq<u8>)>>|
            lsv.len() == nc && code_lists_encodable(lsv, m as nat) && at(
                bytes@,
                pos as int,
                #[trigger] code_lists_bytes(lsv),
            ) ==> (res matches Ok((ls, p, sum)) && code_lists_view(ls@) == lsv),
{
    let blen = bytes.len();
    let mut ls: Vec<Vec<(u64, Vec<u8>)>> = Vec::new();
    let mut cur = pos;
    let mut sum: u64 = 0;
    let mut c: usize = 0;
    proof {
        assert(code_lists_view(ls@) =~= Seq::<Seq<(u64, Seq<u8>)>>::empty());
        assert(code_lists_bytes(code_lists_view(ls@)) =~= Seq::<u8>::empty());
        assert(bytes@.subrange(pos as int, pos as int) =~= Seq::<u8>::empty());
    }
    while c < nc
        invariant
            c <= nc,
            nc <= u32::MAX,
            blen == bytes@.len(),
            pos <= cur <= bytes@.len(),
            ls@.len() == c,
            at(bytes@, pos as int, code_lists_bytes(code_lists_view(ls@))),
            cur == pos + code_lists_bytes(code_lists_view(ls@)).len(),
            code_lists_encodable(code_lists_view(ls@), m as nat),
            sum == entries_total(code_lists_view(ls@)),
            sum <= c * 0xffff_ffff,
            forall|lsv: Seq<Seq<(u64, Seq<u8>)>>|
                lsv.len() == nc && code_lists_encodable(lsv, m as nat) && at(
                    bytes@,
                    pos as int,
                    #[trigger] code_lists_bytes(lsv),
                ) ==> code_lists_view(ls@) == lsv.take(c as int),
        decreases nc - c,
    {
        proof {
            assert forall|lsv: Seq<Seq<(u64, Seq<u8>)>>|
                lsv.len() == nc && code_lists_encodable(lsv, m as nat) && #[trigger] at(
                    bytes@,
                    pos as int,
                    code_lists_bytes(lsv),
                ) implies at(bytes@, cur as int, code_list_bytes(lsv[c as int])) by {
                lemma_at_element(bytes@, pos as int, lsv, c as int, code_list_fn());
            }
        }
        match decode_code_list(bytes, cur, c, m) {
            Err(e) => {
                proof {
                    assert forall|lsv: Seq<Seq<(u64, Seq<u8>)>>|
                        lsv.len() == nc && code_lists_encodable(lsv, m as nat) && #[trigger] at(
                            bytes@,
                            pos as int,
                            code_lists_bytes(lsv),
                        ) implies false by {
                        let lv = lsv[c as int];
                        assert(lv.len() <= u32::MAX);
                        assert(forall|j: int| 0 <= j < lv.len() ==> (#[trigger] lv[j]).1.len() == m);
                        assert(at(bytes@, cur as int, code_list_bytes(lv)));
                    }
                }
                return Err(e);
            },
            Ok((l, p)) => {
                let ghost before = code_lists_view(ls@);
                let ghost lview = entries_view(l@);
                proof {
                    lemma_at_push(bytes@, pos as int, before, lview, code_list_fn());
                    assert(sum + l@.len() <= (c + 1) * 0xffff_ffff) by (nonlinear_arith)
                        requires
                            sum <= c * 0xffff_ffff,
                            l@.len() <= 0xffff_ffff,
                    ;
                    assert((c + 1) * 0xffff_ffff <= 0xffff_ffff * 0xffff_ffff) by (nonlinear_arith)
                        requires
                            c + 1 <= 0xffff_ffff,
                    ;
                }
                let k = l.len() as u64;
                ls.push(l);
                cur = p;
                sum = sum + k;
                proof {
                    assert(code_lists_view(ls@) =~= before.push(lview));
                    assert(code_lists_view(ls@).drop_last() =~= before);
                    assert forall|lsv: Seq<Seq<(u64, Seq<u8>)>>|
                        lsv.len() == nc && code_lists_encodable(lsv, m as nat) && #[trigger] at(
                            bytes@,
                            pos as int,
                            code_lists_bytes(lsv),
                        ) implies code_lists_view(ls@) == lsv.take(c + 1) by {
                        let lv = lsv[c as int];
                        assert(lv.len() <= u32::MAX);
                        assert(forall|j: int| 0 <= j < lv.len() ==> (#[trigger] lv[j]).1.len() == m);
                        assert(lsv.take(c + 1) =~= lsv.take(c as int).push(lv));
                    }
                    assert forall|t: int| 0 <= t < code_lists_view(ls@).len() implies (#[trigger] code_lists_view(ls@)[t]).len() <= u32::MAX
                        && forall|j: int| 0 <= j < code_lists_view(ls@)[t].len() ==> (#[trigger] code_lists_view(ls@)[t][j]).1.len() == m by {
                        if t < c {
                            assert(code_lists_view(ls@)[t] == before[t]);
                        }
                    }
                }
            },
        }
        c = c + 1;
    }
    proof {
        assert forall|lsv: Seq<Seq<(u64, Seq<u8>)>>|
            lsv.len() == nc && code_lists_encodable(lsv, m as nat) && #[trigger] at(
                bytes@,
                pos as int,
                code_lists_bytes(lsv),
            ) implies code_lists_view(ls@) == lsv by {
            assert(lsv.take(c as int) =~= lsv);
        }
    }
    Ok((ls, cur, sum))
}

/// Split a run of `m * f` codebook coordinates into `m` codebooks of `k`
/// rows of dimension `sub_dim`, where `f = k * sub_dim`.
fn split_books(data: &[u32], m: usize, k: usize, sub_dim: usize) -> (books: Vec<VectorBatch>)
    requires
        k * sub_dim <= usize::MAX,
        data@.len() == m * (k * sub_dim),
    ensures
        books@.len() == m,
        forall|i: int|
            0 <= i < m ==> {
                &&& (#[trigger] books@[i]).wf()
                &&& books@[i].dim == sub_dim
                &&& books@[i].num_vectors == k
                &&& books@[i].data@ == data@.subrange(i * (k * sub_dim), i * (k * sub_dim) + k * sub_dim)
            },
{
    let f = k * sub_dim;
    let dlen = data.len();
    let mut books: Vec<VectorBatch> = Vec::new();
    let mut i: usize = 0;
    while i < m
        invariant
            i <= m,
            f == k * sub_dim,
            data@.len() == m * f,
            dlen == data@.len(),
            books@.len() == i,
            forall|t: int|
                0 <= t < i ==> {
                    &&& (#[trigger] books@[t]).wf()
                    &&& books@[t].dim == sub_dim
                    &&& books@[t].num_vectors == k
                    &&& books@[t].data@ == data@.subrange(t * f, t * f + f)
                },
        decreases m - i,
    {
        proof {
            crate::batch::lemma_row_bounds(i as int, m as int, f as int);
            assert(sub_dim * k == k * sub_dim) by (nonlinear_arith);
        }
        let mut chunk: Vec<u32> = Vec::new();
        chunk.extend_from_slice(slice_subrange(data, i * f, i * f + f));
        books.push(VectorBatch { data: chunk, dim: sub_dim, num_vectors: k });
        i = i + 1;
    }
    books
}

/// An IVF-PQ encoding is a prefix of `b` exactly when each of its parts
/// occurs at its offset.
pub proof fn lemma_ivf_pq_parts(v: IvfPqView, cw: Seq<u32>, bw: Seq<u32>, flag: u8, b: Seq<u8>)
    ensures
        is_prefix(ivf_pq_layout(v, cw, bw, flag), b) <==> {
            &&& is_prefix(header_bytes(INDEX_TYPE_IVF_PQ, v.metric, v.dim, entries_total(v.lists)), b)
            &&& at(b, 22, le32(v.config.m as u32))
            &&& at(b, 26, le32(v.config.k_per_subvector as u32))
            &&& at(b, 30, le32(v.lists.len() as u32))
            &&& at(b, 34, le32s(cw))
            &&& at(b, (34 + 4 * cw.len()) as int, le32s(bw))
            &&& at(b, (34 + 4 * cw.len() + 4 * bw.len()) as int, code_lists_bytes(v.lists))
            &&& at(
                b,
                (34 + 4 * cw.len() + 4 * bw.len() + code_lists_bytes(v.lists).len()) as int,
                seq![flag],
            )
        },
{
    lemma_le_facts();
    lemma_le32s_len(cw);
    lemma_le32s_len(bw);
    let h = header_bytes(INDEX_TYPE_IVF_PQ, v.metric, v.dim, entries_total(v.lists));
    assert(h.len() == 22);
    let a1 = le32(v.config.m as u32);
    let a2 = le32(v.config.k_per_subvector as u32);
    let a3 = le32(v.lists.len() as u32);
    let a4 = le32s(cw);
    let a5 = le32s(bw);
    let a6 = code_lists_bytes(v.lists);
    let a7 = seq![flag];
    lemma_prefix_at(ivf_pq_layout(v, cw, bw, flag), b);
    lemma_prefix_at(h, b);
    lemma_at_concat(b, 0, h + a1 + a2 + a3 + a4 + a5 + a6, a7);
    lemma_at_concat(b, 0, h + a1 + a2 + a3 + a4 + a5, a6);
    lemma_at_concat(b, 0, h + a1 + a2 + a3 + a4, a5);
    lemma_at_concat(b, 0, h + a1 + a2 + a3, a4);
    lemma_at_concat(b, 0, h + a1 + a2, a3);
    lemma_at_concat(b, 0, h + a1, a2);
    lemma_at_concat(b, 0, h, a1);
}

/// Deserialize an IVF-PQ index from the start of `bytes`.
///
/// Succeeds exactly when `bytes` starts with the encoding of an IVF-PQ index
/// the format can hold, and then gives that index back. The centroid and
/// codebook sections of an untrained index are read and discarded; the
/// loaded configuration has `max_iterations = 100`.
#[verifier::rlimit(50)]
#[verifier::spinoff_prover]
pub fn decode_ivf_pq_index(bytes: &[u8]) -> (res: Result<IVFPQIndex, FormatError>)
    ensures
        header_check(bytes@, INDEX_TYPE_IVF_PQ) is Err ==> res == Err::<IVFPQIndex, FormatError>(
            header_check(bytes@, INDEX_TYPE_IVF_PQ)->Err_0,
        ),
        res matches Ok(index) ==> index.wf() && ivf_pq_encodable(index@) && exists|cw: Seq<u32>, bw: Seq<u32>, flag: u8|
            cw.len() == index@.lists.len() * index@.dim && bw.len() == book_words_len(index@) && (index.is_trained
                ==> cw == index@.centroids && bw == book_words(index@)) && (flag != 0) == index.is_trained
                && is_prefix(#[trigger] ivf_pq_layout(index@, cw, bw, flag), bytes@),
        forall|v: IvfPqView|
            ivf_pq_encodable(v) && is_prefix(#[trigger] ivf_pq_bytes(v), bytes@) ==> (res matches Ok(index)
                && index@ == v),
        header_check(bytes@, INDEX_TYPE_IVF_PQ) matches Ok(h) ==> {
            &&& bytes@.len() < 30 ==> res == Err::<IVFPQIndex, FormatError>(FormatError::Truncated(Section::PqConfig))
            &&& forall|m: u32, k: u32|
                30 <= bytes@.len() < 34 && #[trigger] le32(m) == bytes@.subrange(22, 26) && #[trigger] le32(k)
                    == bytes@.subrange(26, 30) && m > 0 && h.dim % (m as usize) == 0 && 0 < k <= 256 ==> res
                    == Err::<IVFPQIndex, FormatError>(FormatError::Truncated(Section::NumClusters))
        },
{
    proof {
        lemma_le_facts();
    }
    let blen = bytes.len();
    proof {
        lemma_le_facts();
        assert forall|v: IvfPqView| ivf_pq_encodable(v) && #[trigger] is_prefix(ivf_pq_bytes(v), bytes@) implies header_check(
            bytes@,
            INDEX_TYPE_IVF_PQ,
        ) == Ok::<HeaderMetadata, FormatError>(
            (HeaderMetadata {
                index_type: INDEX_TYPE_IVF_PQ,
                metric: v.metric,
                dim: v.dim as usize,
                num_vectors: entries_total(v.lists) as usize,
            }),
        ) by {
            lemma_ivf_pq_parts(v, centroid_words(v), book_words(v), flag_byte(v.is_trained), bytes@);
            lemma_header_round_trip(bytes@, INDEX_TYPE_IVF_PQ, v.metric, v.dim, entries_total(v.lists));
        }
    }
    let header = match read_header(bytes, INDEX_TYPE_IVF_PQ) {
        Ok(h) => h,
        Err(e) => {
            return Err(e);
        },
    };
    proof {
        lemma_header_check_ok(bytes@, INDEX_TYPE_IVF_PQ);
    }
    let dim = header.dim;
    let metric = header.metric;
    let m32 = match read_u32(bytes, 22) {
        Some(x) => x,
        None => {
            proof {
                assert forall|v: IvfPqView| ivf_pq_encodable(v) && #[trigger] is_prefix(ivf_pq_bytes(v), bytes@) implies false by {
                    lemma_ivf_pq_parts(v, centroid_words(v), book_words(v), flag_byte(v.is_trained), bytes@);
                }
            }
            return Err(FormatError::Truncated(Section::PqConfig));
        },
    };
    let k32 = match read_u32(bytes, 26) {
        Some(x) => x,
        None => {
            proof {
                assert forall|v: IvfPqView| ivf_pq_encodable(v) && #[trigger] is_prefix(ivf_pq_bytes(v), bytes@) implies false by {
                    lemma_ivf_pq_parts(v, centroid_words(v), book_words(v), flag_byte(v.is_trained), bytes@);
                }
            }
            return Err(FormatError::Truncated(Section::PqConfig));
        },
    };
    let m = m32 as usize;
    let k = k32 as usize;
    proof {
        assert forall|v: IvfPqView| ivf_pq_encodable(v) && #[trigger] is_prefix(ivf_pq_bytes(v), bytes@) implies v.config.m
            == m && v.config.k_per_subvector == k by {
            lemma_ivf_pq_parts(v, centroid_words(v), book_words(v), flag_byte(v.is_trained), bytes@);
            assert(bytes@.subrange(22, 26) == le32(v.config.m as u32));
            assert(bytes@.subrange(26, 30) == le32(v.config.k_per_subvector as u32));
            assert(v.config.m <= v.dim) by (nonlinear_arith)
                requires
                    v.config.m > 0,
                    v.dim > 0,
                    v.dim % (v.config.m as nat) == 0,
            ;
        }
    }
    if m == 0 || dim % m != 0 {
        return Err(FormatError::PqNotDivisible { dim, m });
    }
    if k == 0 || k > 256 {
        return Err(FormatError::PqCentroidCount(k));
    }
    let sub_dim = dim / m;
    let nc32 = match read_u32(bytes, 30) {
        Some(x) => x,
        None => {
            proof {
                assert forall|v: IvfPqView| ivf_pq_encodable(v) && #[trigger] is_prefix(ivf_pq_bytes(v), bytes@) implies false by {
                    lemma_ivf_pq_parts(v, centroid_words(v), book_words(v), flag_byte(v.is_trained), bytes@);
                }
            }
            return Err(FormatError::Truncated(Section::NumClusters));
        },
    };
    let nc = nc32 as usize;
    proof {
        assert forall|v: IvfPqView| ivf_pq_encodable(v) && #[trigger] is_prefix(ivf_pq_bytes(v), bytes@) implies v.lists.len()
            == nc by {
            lemma_ivf_pq_parts(v, centroid_words(v), book_words(v), flag_byte(v.is_trained), bytes@);
            assert(bytes@.subrange(30, 34) == le32(v.lists.len() as u32));
        }
    }
    let total_c = match nc.checked_mul(dim) {
        Some(t) => t,
        None => {
            proof {
                assert forall|v: IvfPqView| ivf_pq_encodable(v) && #[trigger] is_prefix(ivf_pq_bytes(v), bytes@) implies false by {
                    lemma_ivf_pq_parts(v, centroid_words(v), book_words(v), flag_byte(v.is_trained), bytes@);
                    lemma_le32s_len(centroid_words(v));
                    assert(v.lists.len() * v.dim == v.dim * v.lists.len()) by (nonlinear_arith);
                }
            }
            return Err(FormatError::CentroidCountOverflow);
        },
    };
    let cdata = match read_u32s(bytes, 34, total_c) {
        Some(d) => d,
        None => {
            proof {
                assert forall|v: IvfPqView| ivf_pq_encodable(v) && #[trigger] is_prefix(ivf_pq_bytes(v), bytes@) implies false by {
                    lemma_ivf_pq_parts(v, centroid_words(v), book_words(v), flag_byte(v.is_trained), bytes@);
                    lemma_le32s_len(centroid_words(v));
                }
            }
            return Err(FormatError::Truncated(Section::VectorData));
        },
    };
    proof {
        lemma_le32s_len(cdata@);
        assert forall|v: IvfPqView| ivf_pq_encodable(v) && #[trigger] is_prefix(ivf_pq_bytes(v), bytes@) implies centroid_words(v)
            == cdata@ by {
            lemma_ivf_pq_parts(v, centroid_words(v), book_words(v), flag_byte(v.is_trained), bytes@);
            lemma_le32s_len(centroid_words(v));
            lemma_le32s_injective(centroid_words(v), cdata@);
        }
    }
    let mk = match m.checked_mul(k) {
        Some(x) => x,
        None => {
            proof {
                assert forall|v: IvfPqView| ivf_pq_encodable(v) && #[trigger] is_prefix(ivf_pq_bytes(v), bytes@) implies false by {
                    assert(sub_dim >= 1) by (nonlinear_arith)
                        requires
                            dim > 0,
                            m > 0,
                            dim % m == 0,
                            sub_dim == dim / m,
                    ;
                    assert(m * k <= (m * k) * sub_dim) by (nonlinear_arith)
                        requires
                            sub_dim >= 1,
                    ;
                }
            }
            return Err(FormatError::CodebookCountOverflow);
        },
    };
    let total_b = match mk.checked_mul(sub_dim) {
        Some(x) => x,
        None => {
            return Err(FormatError::CodebookCountOverflow);
        },
    };
    let bpos = 34 + 4 * total_c;
    let bdata = match read_u32s(bytes, bpos, total_b) {
        Some(d) => d,
        None => {
            proof {
                assert forall|v: IvfPqView| ivf_pq_encodable(v) && #[trigger] is_prefix(ivf_pq_bytes(v), bytes@) implies false by {
                    lemma_ivf_pq_parts(v, centroid_words(v), book_words(v), flag_byte(v.is_trained), bytes@);
                    lemma_le32s_len(centroid_words(v));
                    lemma_le32s_len(book_words(v));
                    lemma_book_words_len(v);
                }
            }
            return Err(FormatError::Truncated(Section::VectorData));
        },
    };
    proof {
        lemma_le32s_len(bdata@);
        assert forall|v: IvfPqView| ivf_pq_encodable(v) && #[trigger] is_prefix(ivf_pq_bytes(v), bytes@) implies book_words(v)
            == bdata@ by {
            lemma_ivf_pq_parts(v, centroid_words(v), book_words(v), flag_byte(v.is_trained), bytes@);
            lemma_le32s_len(centroid_words(v));
            lemma_book_words_len(v);
            lemma_le32s_len(book_words(v));
            lemma_le32s_injective(book_words(v), bdata@);
        }
    }
    let lpos = bpos + 4 * total_b;
    let (lists, p, sum) = match decode_code_lists(bytes, lpos, nc, m) {
        Ok(r) => r,
        Err(e) => {
            proof {
                assert forall|v: IvfPqView| ivf_pq_encodable(v) && #[trigger] is_prefix(ivf_pq_bytes(v), bytes@) implies false by {
                    lemma_ivf_pq_parts(v, centroid_words(v), book_words(v), flag_byte(v.is_trained), bytes@);
                    lemma_book_words_len(v);
                }
            }
            return Err(e);
        },
    };
    proof {
        assert forall|v: IvfPqView| ivf_pq_encodable(v) && #[trigger] is_prefix(ivf_pq_bytes(v), bytes@) implies code_lists_view(
            lists@,
        ) == v.lists by {
            lemma_ivf_pq_parts(v, centroid_words(v), book_words(v), flag_byte(v.is_trained), bytes@);
            lemma_book_words_len(v);
        }
    }
    if sum as u128 != header.num_vectors as u128 {
        return Err(FormatError::ClusterTotalMismatch { header: header.num_vectors, clusters: sum });
    }
    let flag = match read_u8(bytes, p) {
        Some(b) => b,
        None => {
            proof {
                assert forall|v: IvfPqView| ivf_pq_encodable(v) && #[trigger] is_prefix(ivf_pq_bytes(v), bytes@) implies false by {
                    lemma_ivf_pq_parts(v, centroid_words(v), book_words(v), flag_byte(v.is_trained), bytes@);
                    lemma_book_words_len(v);
                }
            }
            return Err(FormatError::Truncated(Section::TrainedFlag));
        },
    };
    let is_trained = flag != 0;
    let pq_config = PQConfig { m, k_per_subvector: k, max_iterations: 100 };
    proof {
        assert(sub_dim * m == dim) by (nonlinear_arith)
            requires
                m > 0,
                dim % m == 0,
                sub_dim == dim / m,
        ;
        assert(m * sub_dim <= usize::MAX);
        assert(total_b == m * (k * sub_dim)) by (nonlinear_arith)
            requires
                total_b == (m * k) * sub_dim,
        ;
        assert(k * sub_dim <= total_b) by (nonlinear_arith)
            requires
                total_b == m * (k * sub_dim),
                m >= 1,
        ;
    }
    let (centroids, pq_codebooks) = if is_trained {
        let books = split_books(bdata.as_slice(), m, k, sub_dim);
        (VectorBatch { data: cdata, dim, num_vectors: nc }, Some(PQCodebooks { m, sub_dim, k_per_subvector: k, codebooks: books }))
    } else {
        (VectorBatch::new(dim), None)
    };
    let index = IVFPQIndex { centroids, pq_codebooks, inverted_lists: lists, dim, metric, is_trained, pq_config };
    proof {
        assert(dim * nc == nc * dim) by (nonlinear_arith);
        let f = (k * sub_dim) as nat;
        if is_trained {
            let cb = index.pq_codebooks->Some_0;
            let bv = books_view(cb.codebooks@);
            assert forall|i: int| 0 <= i < bv.len() implies (#[trigger] bv[i]).len() == f by {
                crate::batch::lemma_row_bounds(i, m as int, f as int);
            }
            lemma_flatten_pieces(bv, f);
            assert(flatten(bv) =~= bdata@) by {
                assert forall|t: int| 0 <= t < bdata@.len() implies flatten(bv)[t] == bdata@[t] by {
                    let i = t / (f as int);
                    assert(0 <= i < m && i * f <= t < i * f + f) by (nonlinear_arith)
                        requires
                            f > 0,
                            0 <= t < m * f,
                            i == t / (f as int),
                    ;
                    crate::batch::lemma_row_bounds(i, m as int, f as int);
                    assert(flatten(bv).subrange(i * f, i * f + f) == bv[i]);
                    assert(bv[i] == bdata@.subrange(i * f, i * f + f));
                    assert(flatten(bv)[t] == flatten(bv).subrange(i * f, i * f + f)[t - i * f]);
                }
            }
        }
        assert forall|c: int, j: int|
            0 <= c < index.inverted_lists@.len() && 0 <= j < index.inverted_lists@[c]@.len() implies (
            #[trigger] index.inverted_lists@[c]@[j]).1@.len() == m by {
            assert(code_lists_view(lists@)[c][j] == (lists@[c]@[j].0, lists@[c]@[j].1@));
        }
        assert(index.centroids.wf());
        assert(index.pq_codebooks matches Some(cb) ==> cb.wf());
        assert(index.wf());
        assert(ivf_pq_encodable(index@));
        let cw = cdata@;
        let bw = bdata@;
        assert(book_words_len(index@) == total_b);
        lemma_ivf_pq_parts(index@, cw, bw, flag, bytes@);
        assert(bytes@.subrange(p as int, p + 1) =~= seq![flag]);
        assert(is_prefix(ivf_pq_layout(index@, cw, bw, flag), bytes@));
        assert forall|v: IvfPqView| ivf_pq_encodable(v) && #[trigger] is_prefix(ivf_pq_bytes(v), bytes@) implies index@ == v by {
            lemma_ivf_pq_parts(v, centroid_words(v), book_words(v), flag_byte(v.is_trained), bytes@);
            lemma_le32s_len(centroid_words(v));
            lemma_le32s_len(book_words(v));
            lemma_book_words_len(v);
            assert(bytes@.subrange(p as int, p + 1)[0] == flag_byte(v.is_trained));
            lemma_ivf_pq_view_eq(index@, v, cdata@, bdata@, flag, f);
        }
    }
    Ok(index)
}

/// The length of the codebook words written for an encodable index.
pub proof fn lemma_book_words_len(v: IvfPqView)
    requires
        ivf_pq_encodable(v),
    ensures
        book_words(v).len() == book_words_len(v),
{
    if v.books is Some {
        let b = v.books->Some_0;
        let f = v.config.k_per_subvector * (v.dim / (v.config.m as nat));
        lemma_flatten_pieces(b, f as nat);
        assert(b.len() * f == v.config.m * v.config.k_per_subvector * (v.dim / (v.config.m as nat))) by (nonlinear_arith)
            requires
                b.len() == v.config.m,
                f == v.config.k_per_subvector * (v.dim / (v.config.m as nat)),
        ;
    }
}

/// A decoded index equals an encodable index whose encoding supplied the
/// same words and flag.
proof fn lemma_ivf_pq_view_eq(iv: IvfPqView, v: IvfPqView, cw: Seq<u32>, bw: Seq<u32>, flag: u8, f: nat)
    requires
        ivf_pq_encodable(v),
        iv.dim == v.dim,
        iv.metric == v.metric,
        iv.lists == v.lists,
        iv.config == v.config,
        cw == centroid_words(v),
        bw == book_words(v),
        flag == flag_byte(v.is_trained),
        (flag != 0) == iv.is_trained,
        f == v.config.k_per_subvector * (v.dim / (v.config.m as nat)),
        iv.is_trained ==> iv.centroids == cw && iv.num_centroids == v.lists.len(),
        iv.is_trained ==> (iv.books matches Some(bb) && bb.len() == v.config.m && forall|i: int|
            0 <= i < bb.len() ==> #[trigger] bb[i] == bw.subrange(i * f, i * f + f)),
        !iv.is_trained ==> iv.centroids == Seq::<u32>::empty() && iv.num_centroids == 0 && iv.books is None,
    ensures
        iv == v,
{
    assert(iv.is_trained == v.is_trained);
    if iv.is_trained {
        let b = v.books->Some_0;
        let bb = iv.books->Some_0;
        lemma_flatten_pieces(b, f);
        assert(bb =~= b) by {
            assert forall|i: int| 0 <= i < b.len() implies bb[i] == b[i] by {
                assert(b[i] == flatten(b).subrange(i * f, i * f + f));
            }
        }
    } else {
        assert(v.centroids =~= iv.centroids);
    }
}

/// An IVF-PQ index as the library builds it (`IVFPQIndex::new`, then
/// `set_trained` and the inserts, all of which keep it well formed) is
/// encodable whenever its sizes fit the format's fields and its training
/// configuration is the one a file is read back with (the format does not
/// keep `max_iterations`); so `decode_ivf_pq_index` of
/// `encode_ivf_pq_index` of it gives it back unchanged.
pub proof fn lemma_ivf_pq_index_encodable(index: IVFPQIndex)
    requires
        index.wf(),
        index.dim <= u32::MAX,
        index.pq_config.max_iterations == 100,
        book_words_len(index@) <= usize::MAX,
        index.inverted_lists@.len() <= u32::MAX,
        entries_total(index@.lists) <= usize::MAX,
        forall|c: int| 0 <= c < index.inverted_lists@.len() ==> (#[trigger] index.inverted_lists@[c])@.len() <= u32::MAX,
    ensures
        ivf_pq_encodable(index@),
{
    let v = index@;
    assert forall|c: int| 0 <= c < v.lists.len() implies (#[trigger] v.lists[c]).len() <= u32::MAX && forall|j: int|
        0 <= j < v.lists[c].len() ==> (#[trigger] v.lists[c][j]).1.len() == v.config.m by {
        assert(v.lists[c] == entries_view(index.inverted_lists@[c]@));
        assert forall|j: int| 0 <= j < v.lists[c].len() implies (#[trigger] v.lists[c][j]).1.len() == v.config.m by {
            assert(v.lists[c][j].1 == index.inverted_lists@[c]@[j].1@);
        }
    }
    if index.is_trained {
        let n = index.centroids.num_vectors as int;
        let d = index.dim as int;
        assert(index.centroids.data@.len() == n * d) by (nonlinear_arith)
            requires
                index.centroids.data@.len() == d * n,
        ;
        let cb = index.pq_codebooks->0;
        let b = v.books->0;
        assert forall|i: int| 0 <= i < b.len() implies (#[trigger] b[i]).len() == v.config.k_per_subvector * (v.dim
            / (v.config.m as nat)) by {
            assert(b[i] == cb.codebooks@[i].data@);
            assert(cb.codebooks@[i].wf());
            let k = cb.k_per_subvector as int;
            let sd = cb.sub_dim as int;
            assert(cb.codebooks@[i].data@.len() == k * sd) by (nonlinear_arith)
                requires
                    cb.codebooks@[i].data@.len() == sd * k,
            ;
        }
    }
}

} // verus!
