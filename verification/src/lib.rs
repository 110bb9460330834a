//! Two-phase record shuffler.
//!
//! Records (opaque byte lines) from many input documents are first scattered
//! at random into a bounded number of cells (the coarse phase); each cell is
//! then fully permuted in memory and cut into output shards of a bounded
//! size (the fine phase). Shards are numbered densely from a shared counter.

pub mod coarse;
pub mod codec;
pub mod fine;
pub mod naming;
pub mod pipeline;
pub mod records;

use vstd::prelude::*;

verus! {

/// Number of shards a cell of `len` records yields with at most `cap`
/// records per shard: `len / cap` rounded up.
pub open spec fn ceil_div(len: nat, cap: nat) -> nat
    recommends
        cap > 0,
{
    (len + cap - 1) as nat / cap
}

/// An empty cell yields no shards; a surplus cell that received nothing
/// is not an error, it simply contributes nothing.
pub proof fn lemma_empty_cell_no_shards(cap: nat)
    requires
        cap > 0,
    ensures
        ceil_div(0, cap) == 0,
{
    vstd::arithmetic::div_mod::lemma_basic_div(cap - 1, cap as int);
}

/// A nonempty cell no larger than the shard capacity yields exactly one
/// shard.
pub proof fn lemma_small_cell_one_shard(len: nat, cap: nat)
    requires
        cap > 0,
        0 < len <= cap,
    ensures
        ceil_div(len, cap) == 1,
{
    vstd::arithmetic::div_mod::lemma_fundamental_div_mod_converse(
        (len + cap - 1) as int,
        cap as int,
        1,
        (len - 1) as int,
    );
}

/// A cell never yields more shards than it has records.
pub proof fn lemma_ceil_div_le(len: nat, cap: nat)
    requires
        cap > 0,
    ensures
        ceil_div(len, cap) <= len,
{
    if len == 0 {
        vstd::arithmetic::div_mod::lemma_basic_div(cap - 1, cap as int);
    } else {
        let x = (len + cap - 1) as int;
        vstd::arithmetic::div_mod::lemma_fundamental_div_mod(x, cap as int);
        vstd::arithmetic::div_mod::lemma_mod_pos_bound(x, cap as int);
        let q = x / (cap as int);
        let r = x % (cap as int);
        if q > len {
            assert(cap * q >= cap * (len + 1)) by (nonlinear_arith)
                requires
                    q >= len + 1,
                    cap > 0,
            ;
            assert(cap * (len + 1) == cap * len + cap) by (nonlinear_arith);
            assert(cap * len >= len) by (nonlinear_arith)
                requires
                    cap >= 1,
            ;
            assert(false);
        }
    }
}

} // verus!
