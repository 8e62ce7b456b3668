//! Helpers of the market's operations.

use vstd::prelude::*;
use vstd::relations::{sorted_by, total_ordering};
use vstd::seq_lib::lemma_sorted_unique;
use soroban_sdk::Env;
use crate::host::AddressList;
use crate::rules::sorted_addresses;
use crate::types::Address;

verus! {

/// The order of addresses is total.
pub proof fn lemma_address_order()
    ensures
        total_ordering(|a: Address, b: Address| a.at_or_before(b)),
{
}

/// Tells whether the address at a position comes after another one.
fn comes_after(addresses: &AddressList, index: u32, address: &Address) -> (result: bool)
    requires
        index < addresses@.len(),
    ensures
        result == !addresses@[index as int].at_or_before(*address),
{
    match addresses.get(index) {
        Some(listed) => !listed.is_at_or_before(address),
        None => false,
    }
}

/// Puts addresses into ascending order.
pub fn sort_addresses(env: &Env, addresses: &AddressList) -> (sorted: AddressList)
    ensures
        sorted@ == sorted_addresses(addresses@),
        sorted@.len() == addresses@.len(),
{
    let ghost leq = |a: Address, b: Address| a.at_or_before(b);
    let mut sorted = AddressList::new(env);
    let count: u32 = addresses.len();
    let mut i: u32 = 0;
    proof {
        assert(sorted@ =~= addresses@.take(0));
    }
    while i < count
        invariant
            i <= count == addresses@.len(),
            leq == (|a: Address, b: Address| a.at_or_before(b)),
            sorted_by(sorted@, leq),
            sorted@.len() == i,
            sorted@.to_multiset() == addresses@.take(i as int).to_multiset(),
        decreases count - i,
    {
        let address = match addresses.get(i) {
            Some(address) => address,
            None => {
                return sorted;
            },
        };
        let mut at: u32 = sorted.len();
        while at > 0 && comes_after(&sorted, at - 1, &address)
            invariant
                at <= sorted@.len(),
                leq == (|a: Address, b: Address| a.at_or_before(b)),
                sorted_by(sorted@, leq),
                forall|j: int|
                    at <= j < sorted@.len() ==> address.at_or_before(#[trigger] sorted@[j]),
            decreases at,
        {
            at = at - 1;
        }
        let ghost before = sorted@;
        sorted.insert(at, address);
        i = i + 1;
        proof {
            broadcast use vstd::seq_lib::group_to_multiset_ensures;

            assert(addresses@.take(i as int) =~= addresses@.take(i - 1).push(address));
            assert(sorted@ =~= before.insert(at as int, address));
            assert(sorted_by(sorted@, leq)) by {
                assert forall|x: int, y: int| 0 <= x < y < sorted@.len() implies #[trigger] leq(
                    sorted@[x],
                    sorted@[y],
                ) by {
                    let p = if x < at { x } else { x - 1 };
                    let q = if y < at { y } else { y - 1 };
                    if x != at && y != at {
                        assert(leq(before[p], before[q]));
                    } else if y == at {
                        assert(leq(before[x], before[at - 1]) || x == at - 1);
                    } else {
                        assert(address.at_or_before(before[q]));
                    }
                }
            }
        }
    }
    proof {
        assert(addresses@.take(i as int) =~= addresses@);
        lemma_address_order();
        addresses@.lemma_sort_by_ensures(leq);
        lemma_sorted_unique(sorted@, sorted_addresses(addresses@), leq);
    }
    sorted
}

} // verus!
