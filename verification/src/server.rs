//! Decisions of the REST API: request validation, error mapping, collection
//! planning and access control. Transport, locking and disk access live in
//! the server binary, which acts on these decisions.

use vstd::prelude::*;
use vstd::string::*;
use crate::flat_index::{FlatIndex, position_of};
use crate::hnsw::HnswGraph;
use crate::ivf::{IVFIndex, lists_total};
use crate::metric::Metric;
use crate::pq::{IVFPQIndex, PQConfig, code_lists_view, entries_total};
use crate::text::{ascii_lower, decimal, decimal_string, lex_lt, lemma_lex_lt_transitive, lemma_lex_lt_total, str_lt};

verus! {

broadcast use {vstd::string::axiom_spec_iter, vstd::std_specs::hash::group_hash_axioms};

/// An API error, with the HTTP status it is answered with.
#[derive(Debug, Clone, PartialEq, Eq)]
pub enum AppError {
    /// 404: the requested entity does not exist.
    NotFound(String),
    /// 400: the client sent invalid input.
    BadRequest(String),
    /// 409: the resource already exists.
    Conflict(String),
    /// 500: an unexpected internal failure.
    Internal(String),
}

impl AppError {
    /// The HTTP status code of the error.
    pub fn status_code(&self) -> (code: u16)
        ensures
            code == match self {
                AppError::NotFound(_) => 404u16,
                AppError::BadRequest(_) => 400u16,
                AppError::Conflict(_) => 409u16,
                AppError::Internal(_) => 500u16,
            },
    {
        match self {
            AppError::NotFound(_) => 404,
            AppError::BadRequest(_) => 400,
            AppError::Conflict(_) => 409,
            AppError::Internal(_) => 500,
        }
    }

    /// The message carried by the error.
    pub open spec fn spec_message(&self) -> Seq<char> {
        match self {
            AppError::NotFound(s) => s@,
            AppError::BadRequest(s) => s@,
            AppError::Conflict(s) => s@,
            AppError::Internal(s) => s@,
        }
    }

    /// The message carried by the error.
    pub fn message(&self) -> (m: &str)
        ensures
            m@ == self.spec_message(),
    {
        match self {
            AppError::NotFound(s) => s.as_str(),
            AppError::BadRequest(s) => s.as_str(),
            AppError::Conflict(s) => s.as_str(),
            AppError::Internal(s) => s.as_str(),
        }
    }
}

/// Request to create a collection.
#[derive(Debug, Clone, PartialEq, Eq)]
pub struct CreateCollectionRequest {
    pub name: String,
    pub dim: usize,
    /// `"flat"`, `"ivf"`, `"hnsw"` or `"ivfpq"`, in any ASCII case.
    pub index_type: String,
    /// `"euclidean"` (`"l2"`), `"cosine"` (`"cos"`) or `"dot_product"`
    /// (`"dot"`, `"ip"`), in any ASCII case.
    pub metric: String,
}

/// Summary of a collection.
#[derive(Debug, Clone, PartialEq, Eq)]
pub struct CollectionInfo {
    pub name: String,
    pub index_type: String,
    pub dim: usize,
    pub metric: String,
    pub vector_count: usize,
}

/// Body of every error answer.
#[derive(Debug, Clone, PartialEq, Eq)]
pub struct ErrorResponse {
    pub error: String,
}

/// Body of the health answer.
#[derive(Debug, Clone, PartialEq, Eq)]
pub struct HealthResponse {
    pub status: String,
}

/// The characters of `s`, ASCII letters lowered.
pub fn lowered_chars(s: &str) -> (out: Vec<char>)
    ensures
        out@ == ascii_lower(s@),
{
    let mut out: Vec<char> = Vec::new();
    for c in it: s.chars()
        invariant
            it.seq() == s@,
            out@ == ascii_lower(it.seq().take(it.index() as int)),
    {
        let l = if 'A' <= c && c <= 'Z' {
            ((c as u32) + 32) as u8 as char
        } else {
            c
        };
        out.push(l);
    }
    out
}

/// The characters of `s`.
pub fn chars_of(s: &str) -> (out: Vec<char>)
    ensures
        out@ == s@,
{
    let mut out: Vec<char> = Vec::new();
    for c in it: s.chars()
        invariant
            it.seq() == s@,
            out@ == it.seq().take(it.index() as int),
    {
        out.push(c);
    }
    out
}

/// Whether two character sequences are equal.
pub fn chars_eq(a: &[char], b: &[char]) -> (r: bool)
    ensures
        r == (a@ == b@),
{
    if a.len() != b.len() {
        return false;
    }
    let mut i: usize = 0;
    while i < a.len()
        invariant
            i <= a@.len(),
            a@.len() == b@.len(),
            forall|j: int| 0 <= j < i ==> a@[j] == b@[j],
        decreases a@.len() - i,
    {
        if a[i] != b[i] {
            return false;
        }
        i = i + 1;
    }
    proof {
        assert(a@ =~= b@);
    }
    true
}

/// Whether the lowered characters `l` spell `word`.
fn spells(l: &Vec<char>, word: &str) -> (r: bool)
    ensures
        r == (l@ == word@),
{
    let w = chars_of(word);
    chars_eq(l.as_slice(), w.as_slice())
}

/// The metric a metric name denotes, if any.
pub open spec fn metric_named(lower: Seq<char>) -> Option<Metric> {
    if lower == "euclidean"@ || lower == "l2"@ {
        Some(Metric::Euclidean)
    } else if lower == "cosine"@ || lower == "cos"@ {
        Some(Metric::Cosine)
    } else if lower == "dot_product"@ || lower == "dot"@ || lower == "ip"@ {
        Some(Metric::DotProduct)
    } else {
        None
    }
}

/// The message for an unknown metric name.
pub open spec fn invalid_metric_message(metric: Seq<char>) -> Seq<char> {
    "invalid metric '"@ + metric + "': expected 'euclidean', 'cosine', or 'dot_product'"@
}

/// Parse a user-facing metric name, ignoring ASCII case.
pub fn parse_metric(metric: &str) -> (res: Result<Metric, AppError>)
    ensures
        metric_named(ascii_lower(metric@)) matches Some(m) ==> res == Ok::<Metric, AppError>(m),
        metric_named(ascii_lower(metric@)) is None ==> (res matches Err(AppError::BadRequest(msg))
            && msg@ == invalid_metric_message(metric@)),
{
    match metric_by_name(metric) {
        Some(m) => Ok(m),
        None => {
            let mut msg = String::from_str("invalid metric '");
            msg.append(metric);
            msg.append("': expected 'euclidean', 'cosine', or 'dot_product'");
            Err(AppError::BadRequest(msg))
        },
    }
}

/// The metric a name denotes, ignoring ASCII case, if any.
pub fn metric_by_name(metric: &str) -> (m: Option<Metric>)
    ensures
        m == metric_named(ascii_lower(metric@)),
{
    let l = lowered_chars(metric);
    if spells(&l, "euclidean") || spells(&l, "l2") {
        Some(Metric::Euclidean)
    } else if spells(&l, "cosine") || spells(&l, "cos") {
        Some(Metric::Cosine)
    } else if spells(&l, "dot_product") || spells(&l, "dot") || spells(&l, "ip") {
        Some(Metric::DotProduct)
    } else {
        None
    }
}

/// The standard name of a metric.
pub open spec fn metric_name(metric: Metric) -> Seq<char> {
    match metric {
        Metric::Euclidean => "euclidean"@,
        Metric::Cosine => "cosine"@,
        Metric::DotProduct => "dot_product"@,
    }
}

/// The standard name of a metric.
pub fn metric_to_str(metric: Metric) -> (s: &'static str)
    ensures
        s@ == metric_name(metric),
{
    match metric {
        Metric::Euclidean => "euclidean",
        Metric::Cosine => "cosine",
        Metric::DotProduct => "dot_product",
    }
}

/// The index family of a collection.
#[derive(Debug, Clone, Copy, PartialEq, Eq, Structural)]
pub enum IndexKind {
    Flat,
    Ivf,
    Hnsw,
    IvfPq,
}

/// The index family an index type name denotes, if any.
pub open spec fn kind_named(lower: Seq<char>) -> Option<IndexKind> {
    if lower == "flat"@ {
        Some(IndexKind::Flat)
    } else if lower == "hnsw"@ {
        Some(IndexKind::Hnsw)
    } else if lower == "ivf"@ {
        Some(IndexKind::Ivf)
    } else if lower == "ivfpq"@ {
        Some(IndexKind::IvfPq)
    } else {
        None
    }
}

/// The message for an unknown index type.
pub open spec fn invalid_index_type_message(t: Seq<char>) -> Seq<char> {
    "invalid index_type '"@ + t + "': expected 'flat', 'ivf', 'hnsw', or 'ivfpq'"@
}

/// Parse an index type name, ignoring ASCII case.
pub fn parse_index_type(index_type: &str) -> (res: Result<IndexKind, AppError>)
    ensures
        kind_named(ascii_lower(index_type@)) matches Some(k) ==> res == Ok::<IndexKind, AppError>(k),
        kind_named(ascii_lower(index_type@)) is None ==> (res matches Err(AppError::BadRequest(msg))
            && msg@ == invalid_index_type_message(index_type@)),
{
    let l = lowered_chars(index_type);
    if spells(&l, "flat") {
        Ok(IndexKind::Flat)
    } else if spells(&l, "hnsw") {
        Ok(IndexKind::Hnsw)
    } else if spells(&l, "ivf") {
        Ok(IndexKind::Ivf)
    } else if spells(&l, "ivfpq") {
        Ok(IndexKind::IvfPq)
    } else {
        let mut msg = String::from_str("invalid index_type '");
        msg.append(index_type);
        msg.append("': expected 'flat', 'ivf', 'hnsw', or 'ivfpq'");
        Err(AppError::BadRequest(msg))
    }
}

/// The name of an index family.
pub open spec fn kind_name(kind: IndexKind) -> Seq<char> {
    match kind {
        IndexKind::Flat => "flat"@,
        IndexKind::Ivf => "ivf"@,
        IndexKind::Hnsw => "hnsw"@,
        IndexKind::IvfPq => "ivfpq"@,
    }
}

/// The name of an index family.
pub fn index_type_str(kind: IndexKind) -> (s: &'static str)
    ensures
        s@ == kind_name(kind),
{
    match kind {
        IndexKind::Flat => "flat",
        IndexKind::Ivf => "ivf",
        IndexKind::Hnsw => "hnsw",
        IndexKind::IvfPq => "ivfpq",
    }
}

/// Unicode `White_Space`, the property behind `char::is_whitespace`.
pub open spec fn is_white_space(c: char) -> bool {
    let u = c as u32;
    (0x09 <= u && u <= 0x0d) || u == 0x20 || u == 0x85 || u == 0xa0 || u == 0x1680 || (0x2000 <= u && u
        <= 0x200a) || u == 0x2028 || u == 0x2029 || u == 0x202f || u == 0x205f || u == 0x3000
}

/// Whether a name is empty once surrounding whitespace is trimmed, that is,
/// consists of whitespace only.
pub fn is_blank(name: &str) -> (b: bool)
    ensures
        b == forall|i: int| 0 <= i < name@.len() ==> is_white_space(#[trigger] name@[i]),
{
    let cs = chars_of(name);
    let mut i: usize = 0;
    while i < cs.len()
        invariant
            cs@ == name@,
            i <= cs@.len(),
            forall|j: int| 0 <= j < i ==> is_white_space(#[trigger] cs@[j]),
        decreases cs@.len() - i,
    {
        let u = cs[i] as u32;
        let ws = (0x09 <= u && u <= 0x0d) || u == 0x20 || u == 0x85 || u == 0xa0 || u == 0x1680 || (0x2000 <= u
            && u <= 0x200a) || u == 0x2028 || u == 0x2029 || u == 0x202f || u == 0x205f || u == 0x3000;
        if !ws {
            return false;
        }
        i = i + 1;
    }
    true
}

/// What a valid creation request creates.
#[derive(Debug, Clone, Copy, PartialEq, Eq, Structural)]
pub struct CollectionPlan {
    pub kind: IndexKind,
    pub dim: usize,
    pub metric: Metric,
    /// Coarse clusters of an IVF or IVF-PQ collection.
    pub num_clusters: usize,
    /// Product quantization of an IVF-PQ collection.
    pub pq_config: PQConfig,
}

/// The product quantization chosen for an IVF-PQ collection of `dim`:
/// two subvectors when `dim` is even, else one; `min(256, 2^min(dim, 8))`
/// centroids per codebook.
pub open spec fn default_pq_config(dim: nat) -> PQConfig {
    PQConfig {
        m: if dim % 2 == 0 {
            2
        } else {
            1
        },
        k_per_subvector: two_pow(if dim >= 8 {
            8
        } else {
            dim
        }) as usize,
        max_iterations: 100,
    }
}

/// `2^n`.
pub open spec fn two_pow(n: nat) -> nat
    decreases n,
{
    if n == 0 {
        1
    } else {
        2 * two_pow((n - 1) as nat)
    }
}

/// Small powers of two are small.
pub proof fn lemma_two_pow_bound(n: nat)
    requires
        n < 8,
    ensures
        two_pow(n) <= 128,
{
    lemma_two_pow_mono(n, 7);
    reveal_with_fuel(two_pow, 8);
    assert(two_pow(7) == 128);
}

/// Powers of two grow with the exponent.
pub proof fn lemma_two_pow_mono(i: nat, j: nat)
    requires
        i <= j,
    ensures
        two_pow(i) <= two_pow(j),
    decreases j,
{
    if i < j {
        lemma_two_pow_mono(i, (j - 1) as nat);
    }
}

/// The message for a name that another collection already has.
pub open spec fn already_exists_message(name: Seq<char>) -> Seq<char> {
    "collection '"@ + name + "' already exists"@
}

/// The message for a collection that does not exist.
pub open spec fn not_found_message(name: Seq<char>) -> Seq<char> {
    "collection '"@ + name + "' not found"@
}

/// The error for a collection that does not exist.
pub fn collection_not_found(name: &str) -> (e: AppError)
    ensures
        e matches AppError::NotFound(msg) && msg@ == not_found_message(name@),
{
    let mut msg = String::from_str("collection '");
    msg.append(name);
    msg.append("' not found");
    AppError::NotFound(msg)
}

/// Validate a creation request; `exists` tells whether the name is taken.
///
/// The checks come in this order: blank name, zero dimension, metric name,
/// name taken, index type name.
pub fn plan_collection(req: &CreateCollectionRequest, exists: bool) -> (res: Result<CollectionPlan, AppError>)
    ensures
        (forall|i: int| 0 <= i < req.name@.len() ==> is_white_space(#[trigger] req.name@[i])) ==> (res matches Err(
            AppError::BadRequest(msg),
        ) && msg@ == "collection name cannot be empty"@),
        !(forall|i: int| 0 <= i < req.name@.len() ==> is_white_space(#[trigger] req.name@[i])) && req.dim == 0 ==> (
        res matches Err(AppError::BadRequest(msg)) && msg@ == "vector dimension must be greater than 0"@),
        res is Ok <==> {
            &&& !(forall|i: int| 0 <= i < req.name@.len() ==> is_white_space(#[trigger] req.name@[i]))
            &&& req.dim > 0
            &&& metric_named(ascii_lower(req.metric@)) is Some
            &&& !exists
            &&& kind_named(ascii_lower(req.index_type@)) is Some
        },
        !(forall|i: int| 0 <= i < req.name@.len() ==> is_white_space(#[trigger] req.name@[i])) && req.dim > 0
            && metric_named(ascii_lower(req.metric@)) is None ==> (res matches Err(AppError::BadRequest(msg))
            && msg@ == invalid_metric_message(req.metric@)),
        !(forall|i: int| 0 <= i < req.name@.len() ==> is_white_space(#[trigger] req.name@[i])) && req.dim > 0
            && metric_named(ascii_lower(req.metric@)) is Some && exists ==> (res matches Err(AppError::Conflict(msg))
            && msg@ == already_exists_message(req.name@)),
        !(forall|i: int| 0 <= i < req.name@.len() ==> is_white_space(#[trigger] req.name@[i])) && req.dim > 0
            && metric_named(ascii_lower(req.metric@)) is Some && !exists && kind_named(ascii_lower(req.index_type@))
            is None ==> (res matches Err(AppError::BadRequest(msg)) && msg@ == invalid_index_type_message(
            req.index_type@,
        )),
        res matches Ok(plan) ==> {
            &&& Some(plan.kind) == kind_named(ascii_lower(req.index_type@))
            &&& Some(plan.metric) == metric_named(ascii_lower(req.metric@))
            &&& plan.dim == req.dim
            &&& plan.num_clusters == 4
            &&& plan.pq_config == default_pq_config(req.dim as nat)
        },
{
    if is_blank(req.name.as_str()) {
        return Err(AppError::BadRequest(String::from_str("collection name cannot be empty")));
    }
    if req.dim == 0 {
        return Err(AppError::BadRequest(String::from_str("vector dimension must be greater than 0")));
    }
    let metric = parse_metric(req.metric.as_str())?;
    if exists {
        let mut msg = String::from_str("collection '");
        msg.append(req.name.as_str());
        msg.append("' already exists");
        return Err(AppError::Conflict(msg));
    }
    let kind = parse_index_type(req.index_type.as_str())?;
    let m: usize = if req.dim % 2 == 0 { 2 } else { 1 };
    let e: usize = if req.dim < 8 { req.dim } else { 8 };
    let mut k: usize = 1;
    let mut i: usize = 0;
    while i < e
        invariant
            i <= e <= 8,
            k == two_pow(i as nat),
        decreases e - i,
    {
        proof {
            lemma_two_pow_bound(i as nat);
        }
        k = k * 2;
        i = i + 1;
    }
    Ok(
        CollectionPlan {
            kind,
            dim: req.dim,
            metric,
            num_clusters: 4,
            pq_config: PQConfig { m, k_per_subvector: k, max_iterations: 100 },
        },
    )
}

/// The index behind a collection.
#[derive(Debug)]
pub enum CollectionIndex {
    Flat(FlatIndex),
    Ivf(IVFIndex),
    Hnsw(HnswGraph),
    IvfPq(IVFPQIndex),
}

impl CollectionIndex {
    /// The wrapped index is well formed.
    pub open spec fn wf(&self) -> bool {
        match self {
            CollectionIndex::Flat(i) => i.wf(),
            CollectionIndex::Ivf(i) => i.wf(),
            CollectionIndex::Hnsw(g) => g.wf(),
            CollectionIndex::IvfPq(i) => i.wf(),
        }
    }

    /// The family of the wrapped index.
    pub open spec fn kind(&self) -> IndexKind {
        match self {
            CollectionIndex::Flat(_) => IndexKind::Flat,
            CollectionIndex::Ivf(_) => IndexKind::Ivf,
            CollectionIndex::Hnsw(_) => IndexKind::Hnsw,
            CollectionIndex::IvfPq(_) => IndexKind::IvfPq,
        }
    }

    /// The dimension of the wrapped index.
    pub open spec fn spec_dim(&self) -> usize {
        match self {
            CollectionIndex::Flat(i) => i.batch.dim,
            CollectionIndex::Ivf(i) => i.dim,
            CollectionIndex::Hnsw(g) => g.dim,
            CollectionIndex::IvfPq(i) => i.dim,
        }
    }

    /// The metric of the wrapped index.
    pub open spec fn spec_metric(&self) -> Metric {
        match self {
            CollectionIndex::Flat(i) => i.metric,
            CollectionIndex::Ivf(i) => i.metric,
            CollectionIndex::Hnsw(g) => g.metric,
            CollectionIndex::IvfPq(i) => i.metric,
        }
    }

    /// The number of vectors in the wrapped index.
    pub open spec fn spec_len(&self) -> nat {
        match self {
            CollectionIndex::Flat(i) => i.batch.num_vectors as nat,
            CollectionIndex::Ivf(i) => lists_total(i@.lists),
            CollectionIndex::Hnsw(g) => g@.nodes.len(),
            CollectionIndex::IvfPq(i) => entries_total(code_lists_view(i.inverted_lists@)),
        }
    }

    /// Create the empty index a plan describes.
    pub fn create(plan: &CollectionPlan) -> (index: Self)
        requires
            plan.dim > 0,
            plan.num_clusters > 0,
            plan.kind is IvfPq ==> plan.pq_config.m > 0 && plan.dim % plan.pq_config.m == 0 && 0
                < plan.pq_config.k_per_subvector <= 256,
        ensures
            index.wf(),
            index.kind() == plan.kind,
            index.spec_dim() == plan.dim,
            index.kind() != IndexKind::IvfPq ==> index.spec_metric() == plan.metric,
            index.kind() == IndexKind::IvfPq ==> index.spec_metric() == Metric::Euclidean,
            index.spec_len() == 0,
    {
        match plan.kind {
            IndexKind::Flat => CollectionIndex::Flat(FlatIndex::new(plan.dim, plan.metric)),
            IndexKind::Hnsw => CollectionIndex::Hnsw(HnswGraph::new(plan.dim, plan.metric)),
            IndexKind::Ivf => {
                let ivf = IVFIndex::new(plan.dim, plan.num_clusters, plan.metric);
                proof {
                    lemma_lists_total_zero(ivf@.lists);
                }
                CollectionIndex::Ivf(ivf)
            },
            IndexKind::IvfPq => {
                match IVFPQIndex::new(plan.dim, plan.num_clusters, plan.pq_config) {
                    Ok(i) => {
                        proof {
                            lemma_entries_total_zero(code_lists_view(i.inverted_lists@));
                        }
                        CollectionIndex::IvfPq(i)
                    },
                    Err(_) => {
                        proof {
                            assert(false);
                        }
                        CollectionIndex::Flat(FlatIndex::new(plan.dim, plan.metric))
                    },
                }
            },
        }
    }

    /// The dimension of the wrapped index.
    pub fn dim(&self) -> (d: usize)
        ensures
            d == self.spec_dim(),
    {
        match self {
            CollectionIndex::Flat(i) => i.dim(),
            CollectionIndex::Ivf(i) => i.dim,
            CollectionIndex::Hnsw(g) => g.dim,
            CollectionIndex::IvfPq(i) => i.dim,
        }
    }

    /// The family of the wrapped index.
    pub fn index_kind(&self) -> (k: IndexKind)
        ensures
            k == self.kind(),
    {
        match self {
            CollectionIndex::Flat(_) => IndexKind::Flat,
            CollectionIndex::Ivf(_) => IndexKind::Ivf,
            CollectionIndex::Hnsw(_) => IndexKind::Hnsw,
            CollectionIndex::IvfPq(_) => IndexKind::IvfPq,
        }
    }

    /// The metric of the wrapped index.
    pub fn metric(&self) -> (m: Metric)
        ensures
            m == self.spec_metric(),
    {
        match self {
            CollectionIndex::Flat(i) => i.metric,
            CollectionIndex::Ivf(i) => i.metric,
            CollectionIndex::Hnsw(g) => g.metric,
            CollectionIndex::IvfPq(i) => i.metric,
        }
    }

    /// The number of vectors in the wrapped index.
    pub fn len(&self) -> (n: usize)
        requires
            self.spec_len() <= usize::MAX,
        ensures
            n == self.spec_len(),
    {
        match self {
            CollectionIndex::Flat(i) => i.len(),
            CollectionIndex::Ivf(i) => i.len(),
            CollectionIndex::Hnsw(g) => g.len(),
            CollectionIndex::IvfPq(i) => i.len(),
        }
    }

    /// Whether the wrapped index holds no vector.
    pub fn is_empty(&self) -> (b: bool)
        requires
            self.spec_len() <= usize::MAX,
        ensures
            b == (self.spec_len() == 0),
    {
        self.len() == 0
    }
}

/// An empty set of lists holds no vector.
proof fn lemma_lists_total_zero(ls: Seq<crate::flat_index::FlatIndexView>)
    requires
        forall|c: int| 0 <= c < ls.len() ==> (#[trigger] ls[c]).num_vectors == 0,
    ensures
        lists_total(ls) == 0,
    decreases ls.len(),
{
    if ls.len() > 0 {
        lemma_lists_total_zero(ls.drop_last());
    }
}

/// Empty code lists hold no code.
proof fn lemma_entries_total_zero(ls: Seq<Seq<(u64, Seq<u8>)>>)
    requires
        forall|c: int| 0 <= c < ls.len() ==> (#[trigger] ls[c]).len() == 0,
    ensures
        entries_total(ls) == 0,
    decreases ls.len(),
{
    if ls.len() > 0 {
        lemma_entries_total_zero(ls.drop_last());
    }
}

/// The summary of a collection.
pub fn collection_info(name: &str, index: &CollectionIndex) -> (info: CollectionInfo)
    requires
        index.spec_len() <= usize::MAX,
    ensures
        info.name@ == name@,
        info.index_type@ == kind_name(index.kind()),
        info.dim == index.spec_dim(),
        info.metric@ == metric_name(index.spec_metric()),
        info.vector_count == index.spec_len(),
{
    CollectionInfo {
        name: name.to_owned(),
        index_type: index_type_str(index.index_kind()).to_owned(),
        dim: index.dim(),
        metric: metric_to_str(index.metric()).to_owned(),
        vector_count: index.len(),
    }
}

/// Collection summaries in order of name, as the collection listing answers
/// them. The names are those of a registry's keys, so no two are equal, and
/// the order is then the only one the result can have.
pub fn sort_by_name(infos: Vec<CollectionInfo>) -> (out: Vec<CollectionInfo>)
    requires
        forall|i: int, j: int| 0 <= i < j < infos@.len() ==> infos@[i].name@ != infos@[j].name@,
    ensures
        out@.to_multiset() == infos@.to_multiset(),
        forall|i: int, j: int| 0 <= i < j < out@.len() ==> lex_lt(out@[i].name@, out@[j].name@),
{
    broadcast use vstd::seq_lib::group_to_multiset_ensures;

    let ghost all = infos@;
    let mut rest = infos;
    let mut out: Vec<CollectionInfo> = Vec::new();
    let ghost mut taken: int = 0;
    while rest.len() > 0
        invariant
            rest@ == all.skip(taken),
            0 <= taken <= all.len(),
            out@.to_multiset().add(rest@.to_multiset()) == all.to_multiset(),
            forall|i: int, j: int| 0 <= i < j < all.len() ==> all[i].name@ != all[j].name@,
            forall|k: int| 0 <= k < out@.len() ==> exists|t: int| 0 <= t < taken && #[trigger] out@[k] == all[t],
            forall|i: int, j: int| 0 <= i < j < out@.len() ==> lex_lt(out@[i].name@, out@[j].name@),
        decreases rest@.len(),
    {
        let x = rest.remove(0);
        let ghost before = out@;
        proof {
            assert(rest@ =~= all.skip(taken + 1));
            assert(x == all[taken]);
        }
        let mut p: usize = 0;
        while p < out.len() && !str_lt(x.name.as_str(), out[p].name.as_str())
            invariant
                out@ == before,
                p <= out@.len(),
                forall|k: int| 0 <= k < p ==> !lex_lt(x.name@, #[trigger] out@[k].name@),
            decreases out@.len() - p,
        {
            p = p + 1;
        }
        proof {
            assert forall|k: int| 0 <= k < before.len() implies #[trigger] before[k].name@ != x.name@ by {
                let t = choose|t: int| 0 <= t < taken && before[k] == all[t];
                assert(all[t].name@ != all[taken].name@);
            }
            assert forall|k: int| 0 <= k < p implies lex_lt(#[trigger] before[k].name@, x.name@) by {
                lemma_lex_lt_total(before[k].name@, x.name@);
            }
            assert forall|k: int| p <= k < before.len() implies lex_lt(x.name@, #[trigger] before[k].name@) by {
                if k > p as int {
                    lemma_lex_lt_transitive(x.name@, before[p as int].name@, before[k].name@);
                }
            }
        }
        out.insert(p, x);
        proof {
            let o = out@;
            assert(o == before.insert(p as int, x));
            assert forall|i: int, j: int| 0 <= i < j < o.len() implies lex_lt(o[i].name@, o[j].name@) by {
                if j < p {
                    assert(o[i] == before[i] && o[j] == before[j]);
                } else if j == p {
                    assert(o[i] == before[i]);
                } else if i < p {
                    assert(o[i] == before[i] && o[j] == before[j - 1]);
                    lemma_lex_lt_transitive(before[i].name@, x.name@, before[j - 1].name@);
                } else if i == p {
                    assert(o[j] == before[j - 1]);
                } else {
                    assert(o[i] == before[i - 1] && o[j] == before[j - 1]);
                }
            }
            assert forall|k: int| 0 <= k < o.len() implies exists|t: int| 0 <= t < taken + 1 && #[trigger] o[k] == all[t] by {
                if k < p {
                    assert(o[k] == before[k]);
                } else if k == p {
                    assert(o[k] == all[taken]);
                } else {
                    assert(o[k] == before[k - 1]);
                }
            }
            taken = taken + 1;
            vstd::seq_lib::to_multiset_insert(before, p as int, x);
            assert(out@.to_multiset() == before.to_multiset().insert(x));
            assert(all.skip(taken - 1) =~= rest@.insert(0, x));
            vstd::seq_lib::to_multiset_insert(rest@, 0, x);
            assert(out@.to_multiset().add(rest@.to_multiset()) =~= before.to_multiset().add(
                all.skip(taken - 1).to_multiset(),
            ));
        }
    }
    proof {
        assert(rest@.to_multiset() =~= vstd::multiset::Multiset::empty());
    }
    out
}

/// The message for a vector of another dimension.
pub open spec fn dimension_mismatch_message(expected: nat, got: nat) -> Seq<char> {
    "vector dimension mismatch: expected "@ + decimal(expected) + ", got "@ + decimal(got)
}

/// The message for an ID the collection already holds.
pub open spec fn duplicate_point_message(id: u64) -> Seq<char> {
    "duplicate id "@ + decimal(id as nat) + " (already in index)"@
}

/// The message for inserting into an IVF collection.
pub open spec fn ivf_insert_message() -> Seq<char> {
    "IVF collections require training before adding points; training is not yet supported via the REST API in this phase"@
}

/// The message for inserting into an IVF-PQ collection.
pub open spec fn ivf_pq_insert_message() -> Seq<char> {
    "IVF-PQ collections require training before adding points; training is not yet supported via the REST API in this phase"@
}

/// Whether the wrapped index already holds `id`.
pub open spec fn holds_id(index: &CollectionIndex, id: u64) -> bool {
    match index {
        CollectionIndex::Flat(i) => i.ids@.contains(id),
        CollectionIndex::Hnsw(g) => g@.id_to_index.contains_key(id),
        _ => false,
    }
}

/// What to do with an accepted point.
#[derive(Debug, Clone, Copy, PartialEq, Eq, Structural)]
pub enum PointAction {
    /// The point has been stored.
    Stored,
    /// The point is to be linked into the HNSW graph.
    LinkIntoGraph,
}

/// Decide on, and for a flat collection perform, the insertion of a point.
///
/// In order: a vector of another dimension is refused; a flat or HNSW
/// collection refuses an ID it holds; IVF and IVF-PQ collections refuse
/// every point.
pub fn insert_point(index: &mut CollectionIndex, id: u64, vector: &[u32]) -> (res: Result<PointAction, AppError>)
    requires
        old(index).wf(),
        *old(index) matches CollectionIndex::Flat(f) ==> f.batch.num_vectors < usize::MAX,
    ensures
        final(index).wf(),
        vector@.len() != old(index).spec_dim() ==> (res matches Err(AppError::BadRequest(msg)) && msg@
            == dimension_mismatch_message(old(index).spec_dim() as nat, vector@.len())),
        vector@.len() == old(index).spec_dim() && holds_id(old(index), id) ==> (res matches Err(
            AppError::BadRequest(msg),
        ) && msg@ == duplicate_point_message(id)),
        vector@.len() == old(index).spec_dim() && old(index).kind() == IndexKind::Ivf ==> (res matches Err(
            AppError::BadRequest(msg),
        ) && msg@ == ivf_insert_message()),
        vector@.len() == old(index).spec_dim() && old(index).kind() == IndexKind::IvfPq ==> (res matches Err(
            AppError::BadRequest(msg),
        ) && msg@ == ivf_pq_insert_message()),
        res is Err ==> *final(index) == *old(index),
        res is Ok ==> vector@.len() == old(index).spec_dim() && !holds_id(old(index), id),
        res == Ok::<PointAction, AppError>(PointAction::LinkIntoGraph) ==> old(index).kind() == IndexKind::Hnsw
            && *final(index) == *old(index),
        res == Ok::<PointAction, AppError>(PointAction::Stored) ==> (*old(index) matches CollectionIndex::Flat(
            f0,
        ) && *final(index) matches CollectionIndex::Flat(f1) && f1.ids@ == f0.ids@.push(id) && f1.batch.data@
            == f0.batch.data@ + vector@ && f1.batch.dim == f0.batch.dim && f1.metric == f0.metric),
        res is Ok <==> vector@.len() == old(index).spec_dim() && !holds_id(old(index), id) && (old(index).kind()
            == IndexKind::Flat || old(index).kind() == IndexKind::Hnsw),
{
    let dim = index.dim();
    if vector.len() != dim {
        let mut msg = String::from_str("vector dimension mismatch: expected ");
        let s1 = decimal_string(dim as u64);
        msg.append(s1.as_str());
        msg.append(", got ");
        let s2 = decimal_string(vector.len() as u64);
        msg.append(s2.as_str());
        return Err(AppError::BadRequest(msg));
    }
    match index {
        CollectionIndex::Flat(flat) => {
            if position_of(flat.ids.as_slice(), id).is_some() {
                return Err(duplicate_point(id));
            }
            flat.add(id, vector);
            Ok(PointAction::Stored)
        },
        CollectionIndex::Hnsw(graph) => {
            if graph.internal_index_of(id).is_some() {
                return Err(duplicate_point(id));
            }
            Ok(PointAction::LinkIntoGraph)
        },
        CollectionIndex::Ivf(_) => Err(
            AppError::BadRequest(
                String::from_str(
                    "IVF collections require training before adding points; training is not yet supported via the REST API in this phase",
                ),
            ),
        ),
        CollectionIndex::IvfPq(_) => Err(
            AppError::BadRequest(
                String::from_str(
                    "IVF-PQ collections require training before adding points; training is not yet supported via the REST API in this phase",
                ),
            ),
        ),
    }
}

/// The error for an ID the collection already holds.
fn duplicate_point(id: u64) -> (e: AppError)
    ensures
        e matches AppError::BadRequest(msg) && msg@ == duplicate_point_message(id),
{
    let mut msg = String::from_str("duplicate id ");
    let s = decimal_string(id);
    msg.append(s.as_str());
    msg.append(" (already in index)");
    AppError::BadRequest(msg)
}

/// The parameters of an accepted search.
#[derive(Debug, Clone, Copy, PartialEq, Eq, Structural)]
pub struct SearchPlan {
    pub k: usize,
    /// Clusters to probe (IVF and IVF-PQ).
    pub nprobe: usize,
    /// Candidate list size (HNSW).
    pub ef_search: usize,
}

/// The message for a query of another dimension.
pub open spec fn query_dimension_message(expected: nat, got: nat) -> Seq<char> {
    "query vector dimension mismatch: expected "@ + decimal(expected) + ", got "@ + decimal(got)
}

/// Whether the wrapped index still needs training before it can be searched.
pub open spec fn untrained(index: &CollectionIndex) -> bool {
    match index {
        CollectionIndex::Ivf(i) => !i.is_trained,
        CollectionIndex::IvfPq(i) => !i.is_trained,
        _ => false,
    }
}

/// Decide on a search: the query must have the collection's dimension and
/// an IVF or IVF-PQ collection must be trained. `nprobe` defaults to 1 and
/// `ef_search` to 50.
pub fn plan_search(index: &CollectionIndex, query_len: usize, k: usize, nprobe: Option<usize>, ef_search: Option<
    usize,
>) -> (res: Result<SearchPlan, AppError>)
    ensures
        query_len != index.spec_dim() ==> (res matches Err(AppError::BadRequest(msg)) && msg@
            == query_dimension_message(index.spec_dim() as nat, query_len as nat)),
        query_len == index.spec_dim() && untrained(index) && index.kind() == IndexKind::Ivf ==> (res matches Err(
            AppError::BadRequest(msg),
        ) && msg@ == "IVF collection is untrained and cannot be searched"@),
        query_len == index.spec_dim() && untrained(index) && index.kind() == IndexKind::IvfPq ==> (res matches Err(
            AppError::BadRequest(msg),
        ) && msg@ == "IVF-PQ collection is untrained and cannot be searched"@),
        res is Ok <==> query_len == index.spec_dim() && !untrained(index),
        res matches Ok(plan) ==> plan.k == k && plan.nprobe == (match nprobe {
            Some(p) => p,
            None => 1,
        }) && plan.ef_search == (match ef_search {
            Some(e) => e,
            None => 50,
        }),
{
    let dim = index.dim();
    if query_len != dim {
        let mut msg = String::from_str("query vector dimension mismatch: expected ");
        let s1 = decimal_string(dim as u64);
        msg.append(s1.as_str());
        msg.append(", got ");
        let s2 = decimal_string(query_len as u64);
        msg.append(s2.as_str());
        return Err(AppError::BadRequest(msg));
    }
    match index {
        CollectionIndex::Ivf(i) => {
            if !i.is_trained {
                return Err(AppError::BadRequest(String::from_str("IVF collection is untrained and cannot be searched")));
            }
        },
        CollectionIndex::IvfPq(i) => {
            if !i.is_trained {
                return Err(
                    AppError::BadRequest(String::from_str("IVF-PQ collection is untrained and cannot be searched")),
                );
            }
        },
        _ => {},
    }
    let nprobe = match nprobe {
        Some(p) => p,
        None => 1,
    };
    let ef_search = match ef_search {
        Some(e) => e,
        None => 50,
    };
    Ok(SearchPlan { k, nprobe, ef_search })
}

/// The header value that authorizes a request when `key` is configured.
pub open spec fn bearer(key: Seq<char>) -> Seq<char> {
    "Bearer "@ + key
}

/// Whether a request may reach a protected endpoint: always when no API key
/// is configured, else exactly when its `Authorization` header is
/// `Bearer <key>`.
pub fn is_authorized(api_key: Option<&str>, authorization: Option<&str>) -> (ok: bool)
    ensures
        ok == match api_key {
            None => true,
            Some(k) => match authorization {
                Some(h) => h@ == bearer(k@),
                None => false,
            },
        },
{
    match api_key {
        None => true,
        Some(k) => match authorization {
            None => false,
            Some(h) => {
                let hc = chars_of(h);
                let mut expected = chars_of("Bearer ");
                let kc = chars_of(k);
                let ghost prefix = expected@;
                let mut i: usize = 0;
                while i < kc.len()
                    invariant
                        i <= kc@.len(),
                        expected@ == prefix + kc@.take(i as int),
                    decreases kc@.len() - i,
                {
                    expected.push(kc[i]);
                    proof {
                        assert(kc@.take(i as int + 1) =~= kc@.take(i as int).push(kc@[i as int]));
                    }
                    i = i + 1;
                }
                proof {
                    assert(kc@.take(kc@.len() as int) =~= kc@);
                }
                chars_eq(hc.as_slice(), expected.as_slice())
            },
        },
    }
}

/// The answer to an unauthorized request (status 401).
pub fn unauthorized() -> (r: ErrorResponse)
    ensures
        r.error@ == "Unauthorized: missing or invalid API key"@,
{
    ErrorResponse { error: String::from_str("Unauthorized: missing or invalid API key") }
}

/// The answer of the health endpoint.
pub fn health() -> (r: HealthResponse)
    ensures
        r.status@ == "ok"@,
{
    HealthResponse { status: String::from_str("ok") }
}

/// The body of the answer to an error.
pub fn error_response(e: &AppError) -> (r: ErrorResponse)
    ensures
        r.error@ == e.spec_message(),
{
    ErrorResponse { error: e.message().to_owned() }
}

} // verus!
