//! Spreading independent work over the machine's cores.
//!
//! A media library is a lot of folders that have nothing to say to each other,
//! so reading them and deciding their renames are per-folder jobs. What is
//! decided here is how many workers a job is worth and that results come back
//! in input order; the threads themselves belong to the front-end.

use vstd::prelude::*;

verus! {

/// Past this many threads, more of them stop paying for themselves.
pub const MAX_WORKERS: usize = 16;

/// Below this many items per worker, the threads cost more than they save.
pub const MIN_ITEMS_PER_WORKER: usize = 4;

/// How many threads to spend on `items` pieces of work on a machine with
/// `cores` cores; 1 means "stay here".
pub fn worker_count(items: usize, cores: usize) -> (r: usize)
    ensures
        items < 8 ==> r == 1,
        items >= 8 ==> r == {
            let usable: int = if cores < 1 {
                1
            } else if cores > 16 {
                16
            } else {
                cores as int
            };
            let by_items: int = (items / 4) as int;
            if usable <= by_items {
                usable
            } else {
                by_items
            }
        },
{
    if items < MIN_ITEMS_PER_WORKER * 2 {
        return 1;
    }
    let usable = if cores < 1 {
        1
    } else if cores > MAX_WORKERS {
        MAX_WORKERS
    } else {
        cores
    };
    let by_items = items / MIN_ITEMS_PER_WORKER;
    if usable <= by_items {
        usable
    } else {
        by_items
    }
}

/// Apply `f` to every item, returning the results in input order.
///
/// The order is part of the contract: a plan has to read the same way whichever
/// worker happened to finish first.
pub fn map<T, R, F: Fn(&T) -> R>(items: &[T], f: F) -> (r: Vec<R>)
    requires
        forall|i: int| 0 <= i < items@.len() ==> f.requires((&items@[i],)),
    ensures
        r@.len() == items@.len(),
        forall|i: int| 0 <= i < items@.len() ==> f.ensures((&items@[i],), #[trigger] r@[i]),
{
    let mut out: Vec<R> = Vec::new();
    let mut index: usize = 0;
    while index < items.len()
        invariant
            index <= items@.len(),
            out@.len() == index,
            forall|i: int| 0 <= i < items@.len() ==> f.requires((&items@[i],)),
            forall|i: int| 0 <= i < index ==> f.ensures((&items@[i],), #[trigger] out@[i]),
        decreases items.len() - index,
    {
        let result = f(&items[index]);
        out.push(result);
        index += 1;
    }
    out
}

} // verus!
