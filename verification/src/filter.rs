//! The head of a metadata filter expression.
//!
//! A filter is written as a tuple whose first element names an operator
//! (`eq`, `gt`, `lt`, `and`, `or`, `not`, in any letter case) and whose
//! remaining elements are its operands. Which operator a head names, and
//! whether the tuple has that operator's number of elements, is decided
//! here; reading the operands out of the host language's objects is left to
//! the binding that holds them.

use vstd::prelude::*;
use vstd::string::*;
use crate::text::{ascii_lower, ascii_lowercase, decimal, decimal_string};
use crate::topk::ScoredId;

verus! {

/// A filter operator.
#[derive(Debug, Clone, Copy, PartialEq, Eq, Structural)]
pub enum FilterOp {
    /// `('eq', field, value)`: the field equals the value.
    Eq,
    /// `('gt', field, value)`: the field is numerically greater.
    Gt,
    /// `('lt', field, value)`: the field is numerically smaller.
    Lt,
    /// `('and', a, b)`: both sub-filters hold.
    And,
    /// `('or', a, b)`: at least one sub-filter holds.
    Or,
    /// `('not', a)`: the sub-filter does not hold.
    Not,
}

/// The operator a lower-case name denotes, if any.
pub open spec fn filter_op_named(s: Seq<char>) -> Option<FilterOp> {
    if s == "eq"@ {
        Some(FilterOp::Eq)
    } else if s == "gt"@ {
        Some(FilterOp::Gt)
    } else if s == "lt"@ {
        Some(FilterOp::Lt)
    } else if s == "and"@ {
        Some(FilterOp::And)
    } else if s == "or"@ {
        Some(FilterOp::Or)
    } else if s == "not"@ {
        Some(FilterOp::Not)
    } else {
        None
    }
}

/// The number of tuple elements an operator takes, itself included.
pub open spec fn op_arity(op: FilterOp) -> nat {
    match op {
        FilterOp::Not => 2,
        _ => 3,
    }
}

/// The name of an operator.
pub open spec fn op_word(op: FilterOp) -> Seq<char> {
    match op {
        FilterOp::Eq => "eq"@,
        FilterOp::Gt => "gt"@,
        FilterOp::Lt => "lt"@,
        FilterOp::And => "and"@,
        FilterOp::Or => "or"@,
        FilterOp::Not => "not"@,
    }
}

/// The message for a tuple of the wrong length for its operator.
pub open spec fn arity_message(op: FilterOp, got: nat) -> Seq<char> {
    let w = op_word(op);
    match op {
        FilterOp::Eq | FilterOp::Gt | FilterOp::Lt => "'"@ + w + "' filter expects 3 elements ('"@ + w
            + "', field_name, value), got "@ + decimal(got),
        FilterOp::And | FilterOp::Or => "'"@ + w + "' filter expects 3 elements ('"@ + w
            + "', filter_a, filter_b), got "@ + decimal(got),
        FilterOp::Not => "'not' filter expects 2 elements ('not', filter_expr), got "@ + decimal(got),
    }
}

/// The message for a head that names no operator (given in lower case).
pub open spec fn unknown_op_message(lowered: Seq<char>) -> Seq<char> {
    "unknown filter operator '"@ + lowered + "': expected 'eq', 'gt', 'lt', 'and', 'or', or 'not'"@
}

/// The message for an empty filter tuple.
pub open spec fn empty_filter_message() -> Seq<char> {
    "filter tuple cannot be empty"@
}

/// Whether `s` spells `word` exactly.
fn is_word(s: &str, word: &str) -> (r: bool)
    ensures
        r == (s@ == word@),
{
    let n = s.unicode_len();
    if n != word.unicode_len() {
        return false;
    }
    let mut i: usize = 0;
    while i < n
        invariant
            n == s@.len(),
            n == word@.len(),
            i <= n,
            forall|j: int| 0 <= j < i ==> s@[j] == word@[j],
        decreases n - i,
    {
        if s.get_char(i) != word.get_char(i) {
            return false;
        }
        i = i + 1;
    }
    proof {
        assert(s@ =~= word@);
    }
    true
}

/// The message for an operator applied to `got` elements.
fn arity_error(op: FilterOp, got: usize) -> (msg: String)
    ensures
        msg@ == arity_message(op, got as nat),
{
    let digits = decimal_string(got as u64);
    let mut msg = String::from_str("'");
    match op {
        FilterOp::Not => {
            let mut m = String::from_str("'not' filter expects 2 elements ('not', filter_expr), got ");
            m.append(digits.as_str());
            return m;
        },
        _ => {},
    }
    let (w, operands) = match op {
        FilterOp::Eq => ("eq", "', field_name, value), got "),
        FilterOp::Gt => ("gt", "', field_name, value), got "),
        FilterOp::Lt => ("lt", "', field_name, value), got "),
        FilterOp::And => ("and", "', filter_a, filter_b), got "),
        _ => ("or", "', filter_a, filter_b), got "),
    };
    msg.append(w);
    msg.append("' filter expects 3 elements ('");
    msg.append(w);
    msg.append(operands);
    msg.append(digits.as_str());
    proof {
        reveal_strlit("'");
        reveal_strlit("' filter expects 3 elements ('");
    }
    msg
}

/// Decide the operator of a filter tuple of `len` elements whose first
/// element is `op`, and check the tuple's length against it.
///
/// The empty tuple is refused first (`op` is then not read); then a head
/// that, in lower case, names no operator; then a length other than the
/// operator's arity.
pub fn parse_filter_head(len: usize, op: &str) -> (res: Result<FilterOp, String>)
    ensures
        len == 0 ==> (res matches Err(msg) && msg@ == empty_filter_message()),
        len > 0 && filter_op_named(ascii_lower(op@)) is None ==> (res matches Err(msg) && msg@
            == unknown_op_message(ascii_lower(op@))),
        len > 0 ==> (filter_op_named(ascii_lower(op@)) matches Some(o) ==> (if len == op_arity(o) {
            res == Ok::<FilterOp, String>(o)
        } else {
            res matches Err(msg) && msg@ == arity_message(o, len as nat)
        })),
{
    if len == 0 {
        return Err(String::from_str("filter tuple cannot be empty"));
    }
    let lowered = ascii_lowercase(op);
    let l = lowered.as_str();
    let found = if is_word(l, "eq") {
        Some(FilterOp::Eq)
    } else if is_word(l, "gt") {
        Some(FilterOp::Gt)
    } else if is_word(l, "lt") {
        Some(FilterOp::Lt)
    } else if is_word(l, "and") {
        Some(FilterOp::And)
    } else if is_word(l, "or") {
        Some(FilterOp::Or)
    } else if is_word(l, "not") {
        Some(FilterOp::Not)
    } else {
        None
    };
    match found {
        Some(o) => {
            let arity: usize = match o {
                FilterOp::Not => 2,
                _ => 3,
            };
            if len == arity {
                Ok(o)
            } else {
                Err(arity_error(o, len))
            }
        },
        None => {
            let mut msg = String::from_str("unknown filter operator '");
            msg.append(l);
            msg.append("': expected 'eq', 'gt', 'lt', 'and', 'or', or 'not'");
            Err(msg)
        },
    }
}

/// The candidates among the first `n` whose filter decision is `true`, in
/// their order.
pub open spec fn kept(c: Seq<ScoredId>, keep: Seq<bool>, n: int) -> Seq<ScoredId>
    decreases n,
{
    if n <= 0 {
        Seq::empty()
    } else if keep[n - 1] {
        kept(c, keep, n - 1).push(c[n - 1])
    } else {
        kept(c, keep, n - 1)
    }
}

/// Over-fetch then filter: the first `k` candidates, in ranking order, whose
/// filter decision (`keep[i]` for `candidates[i]`) is `true`; fewer when
/// fewer pass.
pub fn filtered_top_k(candidates: &[ScoredId], keep: &[bool], k: usize) -> (out: Vec<ScoredId>)
    requires
        keep@.len() == candidates@.len(),
    ensures
        ({
            let all = kept(candidates@, keep@, candidates@.len() as int);
            &&& out@.len() == (if k < all.len() { k as int } else { all.len() as int })
            &&& out@ == all.take(out@.len() as int)
        }),
{
    let ghost all = kept(candidates@, keep@, candidates@.len() as int);
    let mut out: Vec<ScoredId> = Vec::new();
    let mut i: usize = 0;
    proof {
        lemma_kept_prefix(candidates@, keep@, 0, candidates@.len() as int);
    }
    while i < candidates.len() && out.len() < k
        invariant
            keep@.len() == candidates@.len(),
            i <= candidates@.len(),
            out@.len() <= k,
            out@ == kept(candidates@, keep@, i as int),
            all == kept(candidates@, keep@, candidates@.len() as int),
            out@.len() <= all.len(),
            out@ == all.take(out@.len() as int),
        decreases candidates@.len() - i,
    {
        if keep[i] {
            out.push(candidates[i]);
        }
        i = i + 1;
        proof {
            lemma_kept_prefix(candidates@, keep@, i as int, candidates@.len() as int);
        }
    }
    proof {
        if out@.len() < k {
            assert(i == candidates@.len());
        }
    }
    out
}

/// The kept candidates of a prefix are a prefix of those of a longer one.
proof fn lemma_kept_prefix(c: Seq<ScoredId>, keep: Seq<bool>, i: int, n: int)
    requires
        0 <= i <= n,
    ensures
        kept(c, keep, i).len() <= kept(c, keep, n).len(),
        kept(c, keep, n).take(kept(c, keep, i).len() as int) == kept(c, keep, i),
    decreases n - i,
{
    if i < n {
        lemma_kept_prefix(c, keep, i, n - 1);
        let a = kept(c, keep, i);
        let b = kept(c, keep, n - 1);
        if keep[n - 1] {
            assert(b.push(c[n - 1]).take(a.len() as int) =~= b.take(a.len() as int));
        }
    } else {
        assert(kept(c, keep, n).take(kept(c, keep, n).len() as int) =~= kept(c, keep, n));
    }
}


/// The boolean structure of a filter. Each comparison is a leaf, named by
/// its position in the list of comparison outcomes; comparing a stored value
/// with a target (numbers as 64-bit floats) is done by whoever holds the
/// values.
#[derive(Debug)]
pub enum FilterShape {
    /// Comparison number `i`.
    Leaf(usize),
    /// Both sub-filters hold.
    And(Box<FilterShape>, Box<FilterShape>),
    /// At least one sub-filter holds.
    Or(Box<FilterShape>, Box<FilterShape>),
    /// The sub-filter does not hold.
    Not(Box<FilterShape>),
}

/// Whether a filter holds, given for each comparison its outcome, or `None`
/// when the field it reads is missing: a comparison on a missing field does
/// not hold, and neither does one without an outcome.
pub open spec fn shape_holds(f: FilterShape, leaves: Seq<Option<bool>>) -> bool
    decreases f,
{
    match f {
        FilterShape::Leaf(i) => i < leaves.len() && leaves[i as int] == Some(true),
        FilterShape::And(a, b) => shape_holds(*a, leaves) && shape_holds(*b, leaves),
        FilterShape::Or(a, b) => shape_holds(*a, leaves) || shape_holds(*b, leaves),
        FilterShape::Not(a) => !shape_holds(*a, leaves),
    }
}

/// A filter means what its connectives say: a comparison holds exactly
/// when its outcome is known and true; `and` holds exactly when both sides
/// hold, `or` when at least one does, `not` when its operand does not.
pub proof fn lemma_filter_connectives(a: FilterShape, b: FilterShape, i: usize, leaves: Seq<Option<bool>>)
    ensures
        shape_holds(FilterShape::Leaf(i), leaves) <==> (i < leaves.len() && leaves[i as int] == Some(true)),
        shape_holds(FilterShape::And(Box::new(a), Box::new(b)), leaves) <==> (shape_holds(a, leaves)
            && shape_holds(b, leaves)),
        shape_holds(FilterShape::Or(Box::new(a), Box::new(b)), leaves) <==> (shape_holds(a, leaves)
            || shape_holds(b, leaves)),
        shape_holds(FilterShape::Not(Box::new(a)), leaves) <==> !shape_holds(a, leaves),
        i < leaves.len() ==> !shape_holds(FilterShape::Leaf(i), leaves.update(i as int, None)),
        i < leaves.len() ==> !shape_holds(FilterShape::Leaf(i), leaves.update(i as int, Some(false))),
{
    if i < leaves.len() {
        assert(leaves.update(i as int, None)[i as int] == None::<bool>);
        assert(leaves.update(i as int, Some(false))[i as int] == Some(false));
    }
}

/// Evaluate a filter from the outcomes of its comparisons.
pub fn eval_shape(f: &FilterShape, leaves: &[Option<bool>]) -> (b: bool)
    ensures
        b == shape_holds(*f, leaves@),
    decreases f,
{
    match f {
        FilterShape::Leaf(i) => *i < leaves.len() && match leaves[*i] {
            Some(v) => v,
            None => false,
        },
        FilterShape::And(a, c) => eval_shape(a, leaves) && eval_shape(c, leaves),
        FilterShape::Or(a, c) => eval_shape(a, leaves) || eval_shape(c, leaves),
        FilterShape::Not(a) => !eval_shape(a, leaves),
    }
}

/// Whether a vector satisfies a filter: one without metadata satisfies
/// none; otherwise the filter is evaluated on its comparison outcomes.
pub fn matches_filter(has_metadata: bool, f: &FilterShape, leaves: &[Option<bool>]) -> (b: bool)
    ensures
        b == (has_metadata && shape_holds(*f, leaves@)),
{
    has_metadata && eval_shape(f, leaves)
}

} // verus!
