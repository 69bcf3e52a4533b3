//! How many tools are worked on at once.

use vstd::prelude::*;

verus! {

/// How many workers share a number of items: at least one where there is
/// work, never more than there are items.
pub fn worker_count(workers: usize, items: usize) -> (r: usize)
    ensures
        r <= items,
        r == 0 <==> items == 0,
        workers >= 1 && workers <= items ==> r == workers,
        workers > items ==> r == items,
        workers == 0 && items > 0 ==> r == 1,
{
    let wanted: usize = if workers > 1 {
        workers
    } else {
        1
    };
    if wanted < items {
        wanted
    } else {
        items
    }
}

} // verus!
