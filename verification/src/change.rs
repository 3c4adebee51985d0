//! Greedy coin change over the US coin denominations 25, 10, 5, 1: always
//! take the largest coin that still fits.

use vstd::prelude::*;

verus! {

/// The greedy decomposition of `amount`: the largest denomination that fits,
/// followed by the greedy decomposition of the rest.
pub open spec fn greedy_change(amount: nat) -> Seq<u32>
    decreases amount,
{
    if amount >= 25 {
        seq![25u32] + greedy_change((amount - 25) as nat)
    } else if amount >= 10 {
        seq![10u32] + greedy_change((amount - 10) as nat)
    } else if amount >= 5 {
        seq![5u32] + greedy_change((amount - 5) as nat)
    } else if amount >= 1 {
        seq![1u32] + greedy_change((amount - 1) as nat)
    } else {
        Seq::empty()
    }
}

/// Makes change for `amount` cents greedily: coins in descending
/// denomination order, each taken as often as it still fits.
pub fn greedy_coin_change(amount: u32) -> (change: Vec<u32>)
    ensures
        change@ == greedy_change(amount as nat),
{
    // the denominations, largest first
    let mut coins: Vec<u32> = Vec::new();
    coins.push(25);
    coins.push(10);
    coins.push(5);
    coins.push(1);
    proof {
        assert(coins@ =~= seq![25u32, 10u32, 5u32, 1u32]);
    }
    let mut change: Vec<u32> = Vec::new();
    let mut remaining = amount;
    let mut k: usize = 0;
    while k < 4
        invariant
            coins@ =~= seq![25u32, 10u32, 5u32, 1u32],
            k <= 4,
            greedy_change(amount as nat) == change@ + greedy_change(remaining as nat),
            k >= 1 ==> remaining < coins@[k - 1],
        decreases 4 - k,
    {
        let coin = coins[k];
        while remaining >= coin
            invariant
                coins@ =~= seq![25u32, 10u32, 5u32, 1u32],
                k < 4,
                coin == coins@[k as int],
                greedy_change(amount as nat) == change@ + greedy_change(remaining as nat),
                k >= 1 ==> remaining < coins@[k - 1],
            decreases remaining,
        {
            let ghost prev_change = change@;
            let ghost prev_remaining = remaining;
            remaining = remaining - coin;
            change.push(coin);
            proof {
                assert(greedy_change(prev_remaining as nat) == seq![coin] + greedy_change(
                    remaining as nat,
                ));
                assert(prev_change + (seq![coin] + greedy_change(remaining as nat)) =~= change@
                    + greedy_change(remaining as nat));
            }
        }
        k = k + 1;
    }
    proof {
        assert(remaining == 0);
        assert(change@ + greedy_change(remaining as nat) =~= change@);
    }
    change
}

} // verus!
