//! Distance metrics and their one-byte codes in the on-disk format.

use vstd::prelude::*;
use vstd::string::*;
use crate::text::{decimal, decimal_string};

verus! {

/// Distance / similarity metric used for search.
#[derive(Debug, Clone, Copy, PartialEq, Eq, Structural)]
pub enum Metric {
    Cosine,
    Euclidean,
    DotProduct,
}

/// Metric code of the Euclidean metric in the on-disk header.
pub const METRIC_EUCLIDEAN: u8 = 0;
/// Metric code of the cosine metric in the on-disk header.
pub const METRIC_COSINE: u8 = 1;
/// Metric code of the dot-product metric in the on-disk header.
pub const METRIC_DOT_PRODUCT: u8 = 2;

/// The byte that encodes `metric` in a file header.
pub open spec fn spec_metric_code(metric: Metric) -> u8 {
    match metric {
        Metric::Euclidean => 0,
        Metric::Cosine => 1,
        Metric::DotProduct => 2,
    }
}

/// The message of the error for an unknown metric code.
pub open spec fn unknown_metric_message(code: u8) -> Seq<char> {
    "unknown metric code: "@ + decimal(code as nat)
}

/// Convert a runtime [`Metric`] into its serialized byte code.
pub fn metric_to_code(metric: Metric) -> (code: u8)
    ensures
        code == spec_metric_code(metric),
{
    match metric {
        Metric::Euclidean => METRIC_EUCLIDEAN,
        Metric::Cosine => METRIC_COSINE,
        Metric::DotProduct => METRIC_DOT_PRODUCT,
    }
}

/// Parse a serialized byte code into a runtime [`Metric`].
pub fn code_to_metric(code: u8) -> (res: Result<Metric, String>)
    ensures
        res is Ok <==> code <= 2,
        res matches Ok(m) ==> spec_metric_code(m) == code,
        res matches Err(msg) ==> msg@ == unknown_metric_message(code),
{
    if code == METRIC_EUCLIDEAN {
        Ok(Metric::Euclidean)
    } else if code == METRIC_COSINE {
        Ok(Metric::Cosine)
    } else if code == METRIC_DOT_PRODUCT {
        Ok(Metric::DotProduct)
    } else {
        let mut msg = String::from_str("unknown metric code: ");
        let digits = decimal_string(code as u64);
        msg.append(digits.as_str());
        Err(msg)
    }
}

/// Decoding the code of a metric gives that metric back.
pub proof fn lemma_metric_code_round_trip(metric: Metric)
    ensures
        spec_metric_code(metric) <= 2,
        forall|other: Metric| spec_metric_code(other) == spec_metric_code(metric) ==> other == metric,
{
}

} // verus!
