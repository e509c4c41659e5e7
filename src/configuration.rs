//! What the engine is configured with.
use std::ops::Deref;
use vstd::prelude::*;

verus! {

/// The parameters of a report: the commodity to value in, its rounding, and
/// the account prefixes of each group.
#[derive(Debug)]
pub struct ReportParameters {
    pub main_commodity: String,
    pub main_commodity_decimal_points: u32,
    pub assets_liquid: Vec<String>,
    pub assets_fixed: Vec<String>,
    pub assets_high_risk: Vec<String>,
    pub income: Vec<String>,
    pub expenses: Vec<String>,
}

/// The ledgers to read, where to write the report, and its parameters.
#[derive(Debug)]
pub struct Configuration {
    pub ledger_files: Vec<String>,
    pub report_file: String,
    pub report_params: ReportParameters,
}

/// Borrows what an optional owner points to.
pub trait OptionDeref<T: Deref> {
    /// Whether there is an owner.
    spec fn has_owner(&self) -> bool;

    fn as_deref(&self) -> (r: Option<&T::Target>)
        ensures
            r is Some <==> self.has_owner(),
    ;
}

impl<T: Deref> OptionDeref<T> for Option<T> {
    open spec fn has_owner(&self) -> bool {
        *self is Some
    }

    fn as_deref(&self) -> (r: Option<&T::Target>) {
        match self {
            Some(t) => Some(t.deref()),
            None => None,
        }
    }
}

/// Borrows what each owner of a list points to.
pub trait VecDeref<T: Deref> {
    /// The number of owners.
    spec fn owner_count(&self) -> nat;

    fn as_deref(&self) -> (r: Vec<&T::Target>)
        ensures
            r@.len() == self.owner_count(),
    ;
}

impl<T: Deref> VecDeref<T> for Vec<T> {
    open spec fn owner_count(&self) -> nat {
        self@.len()
    }

    fn as_deref(&self) -> (r: Vec<&T::Target>) {
        let mut r: Vec<&T::Target> = Vec::new();
        let n = self.len();
        let mut i: usize = 0;
        while i < n
            invariant
                n == self@.len(),
                i <= n,
                r@.len() == i,
            decreases n - i,
        {
            r.push(self[i].deref());
            i += 1;
        }
        r
    }
}

} // verus!
