//! The two supported metrics and their byte encoding.

use vstd::prelude::*;
use crate::errors::IndexError;

verus! {

/// The metric an index ranks by: squared Euclidean distance, or inner
/// product (ranked internally by its negation, so that smaller keys are
/// always closer).
#[derive(Clone, Copy, Debug, PartialEq, Eq, Structural)]
pub enum Metric {
    L2,
    InnerProduct,
}

/// The single-byte encoding of a metric used in the index file header.
pub fn metric_to_u8(m: Metric) -> (r: u8)
    ensures
        r == spec_metric_to_u8(m),
{
    match m {
        Metric::L2 => 0,
        Metric::InnerProduct => 1,
    }
}

pub open spec fn spec_metric_to_u8(m: Metric) -> u8 {
    match m {
        Metric::L2 => 0,
        Metric::InnerProduct => 1,
    }
}

/// The metric a header byte denotes; any byte other than 1 reads as L2.
pub open spec fn spec_metric_from_u8(b: u8) -> Metric {
    if b == 1 {
        Metric::InnerProduct
    } else {
        Metric::L2
    }
}

impl Metric {
    /// The short display name of the metric.
    pub fn label(&self) -> (r: String)
        ensures
            *self == Metric::L2 ==> r@ == "L2"@,
            *self == Metric::InnerProduct ==> r@ == "IP"@,
    {
        match self {
            Metric::L2 => "L2".to_owned(),
            Metric::InnerProduct => "IP".to_owned(),
        }
    }

    /// Reads a metric name as the control surface accepts it: "l2" for
    /// L2, "ip" or "inner_product" for inner product, anything else is
    /// an invalid argument.  Matching is exact; callers lowercase first.
    pub fn parse(s: &str) -> (r: Result<Metric, IndexError>)
        ensures
            s@ == "l2"@ ==> r == Ok::<Metric, IndexError>(Metric::L2),
            s@ == "ip"@ || s@ == "inner_product"@ ==> r == Ok::<Metric, IndexError>(
                Metric::InnerProduct,
            ),
            s@ != "l2"@ && s@ != "ip"@ && s@ != "inner_product"@ ==> r == Err::<
                Metric,
                IndexError,
            >(IndexError::InvalidArgument),
    {
        proof {
            reveal_strlit("l2");
            reveal_strlit("ip");
            reveal_strlit("inner_product");
            assert("l2"@[0] == 'l');
            assert("ip"@[0] == 'i');
            assert("l2"@.len() == 2);
            assert("inner_product"@.len() == 13);
        }
        let owned = s.to_owned();
        if owned == "l2".to_owned() {
            Ok(Metric::L2)
        } else if owned == "ip".to_owned() {
            Ok(Metric::InnerProduct)
        } else if owned == "inner_product".to_owned() {
            Ok(Metric::InnerProduct)
        } else {
            Err(IndexError::InvalidArgument)
        }
    }
}

} // verus!
