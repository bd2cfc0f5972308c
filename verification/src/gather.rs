//! Results taken one after another until one fails.

use vstd::prelude::*;
use crate::error::ErrorView;

verus! {

/// The values of `item` at 0 up to `n`, in order; where one of them fails,
/// the failure of the first that does.
pub open spec fn gathered<T>(item: spec_fn(int) -> Result<T, ErrorView>, n: nat) -> Result<
    Seq<T>,
    ErrorView,
>
    decreases n,
{
    if n == 0 {
        Ok(Seq::empty())
    } else {
        match gathered(item, (n - 1) as nat) {
            Err(x) => Err(x),
            Ok(before) => match item(n - 1) {
                Err(x) => Err(x),
                Ok(v) => Ok(before.push(v)),
            },
        }
    }
}

/// Once an item has failed, taking more items changes nothing.
pub proof fn lemma_gathered_failure<T>(
    item: spec_fn(int) -> Result<T, ErrorView>,
    i: nat,
    n: nat,
)
    requires
        i <= n,
        gathered(item, i) is Err,
    ensures
        gathered(item, n) == gathered(item, i),
    decreases n,
{
    if i < n {
        lemma_gathered_failure(item, i, (n - 1) as nat);
    }
}

/// Where no item failed, there is one value for each, and it is the item's.
pub proof fn lemma_gathered_values<T>(item: spec_fn(int) -> Result<T, ErrorView>, n: nat)
    requires
        gathered(item, n) is Ok,
    ensures
        gathered(item, n)->Ok_0.len() == n,
        forall|k: int| 0 <= k < n ==> item(k) == Ok::<T, ErrorView>(gathered(item, n)->Ok_0[k]),
    decreases n,
{
    if n > 0 {
        lemma_gathered_values(item, (n - 1) as nat);
    }
}

/// Where the whole fails, it fails with the failure of one of the items.
pub proof fn lemma_gathered_error<T>(item: spec_fn(int) -> Result<T, ErrorView>, n: nat) -> (k:
    int)
    requires
        gathered(item, n) is Err,
    ensures
        0 <= k < n,
        item(k) is Err,
        item(k)->Err_0 == gathered(item, n)->Err_0,
    decreases n,
{
    if gathered(item, (n - 1) as nat) is Err {
        lemma_gathered_error(item, (n - 1) as nat)
    } else {
        n - 1
    }
}

} // verus!
