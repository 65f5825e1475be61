//! Settings of the server.

use vstd::arithmetic::power2::{
    lemma2_to64, lemma_pow2_pos, lemma_pow2_strictly_increases, lemma_pow2_unfold, pow2,
};
use vstd::prelude::*;
use vstd::utf8::encode_utf8;

use crate::hashing::is_power_of_two;
use crate::text::{parse_unsigned, unsigned};

verus! {

/// How many workers run where neither the setting nor the machine tells.
pub const DEFAULT_WORKERS: usize = 4;

/// The cache budget of the server in megabytes, where the setting does not tell.
pub const DEFAULT_MEMORY_MB: u64 = 2048;

/// Bytes in a megabyte.
pub const MEGABYTE: u64 = 1048576;

/// The number that a setting asks for: a positive one up to `max`.
pub open spec fn asked(setting: Option<&str>, max: nat) -> Option<nat> {
    match setting {
        Some(text) => match unsigned(encode_utf8(text@), max) {
            Some(n) if n > 0 => Some(n),
            _ => None,
        },
        None => None,
    }
}

/// The number that a setting asks for: a positive one up to `max`.
pub fn ask(setting: Option<&str>, max: u64) -> (r: Option<u64>)
    ensures
        match r {
            Some(n) => asked(setting, max as nat) == Some(n as nat),
            None => asked(setting, max as nat) is None,
        },
{
    match setting {
        Some(text) => match parse_unsigned(text.as_bytes(), max) {
            Some(n) => {
                if n > 0 {
                    Some(n)
                } else {
                    None
                }
            },
            None => None,
        },
        None => None,
    }
}

/// The least power of two that is at least `n`; none where it would not fit.
pub fn round_up(n: usize) -> (r: Option<usize>)
    ensures
        match r {
            Some(p) => {
                &&& is_power_of_two(p)
                &&& n <= p
                &&& forall|q: usize| #[trigger] is_power_of_two(q) && n <= q ==> p <= q
            },
            None => forall|q: usize| #[trigger] is_power_of_two(q) ==> q < n,
        },
{
    let mut p: usize = 1;
    let ghost mut k: nat = 0;
    proof {
        lemma2_to64();
        assert forall|q: usize| #[trigger] is_power_of_two(q) && n <= q implies p <= q by {
            let j = choose|j: nat| q == pow2(j);
            lemma_pow2_pos(j);
        }
    }
    while p < n
        invariant
            p == pow2(k),
            p > 0,
            forall|q: usize| #[trigger] is_power_of_two(q) && n <= q ==> p <= q,
        decreases 2 * n - p,
    {
        proof {
            lemma_pow2_pos(k);
            lemma_pow2_unfold(k + 1);
            assert forall|q: usize| #[trigger] is_power_of_two(q) && n <= q implies 2 * p <= q by {
                let j = choose|j: nat| q == pow2(j);
                if j <= k {
                    if j < k {
                        lemma_pow2_strictly_increases(j, k);
                    }
                } else if j > k + 1 {
                    lemma_pow2_strictly_increases(k + 1, j);
                }
            }
        }
        if p > usize::MAX / 2 {
            proof {
                assert forall|q: usize| #[trigger] is_power_of_two(q) implies q < n by {
                    if n <= q {
                        assert(2 * p <= q);
                    }
                }
            }
            return None;
        }
        p = p * 2;
        proof {
            k = k + 1;
        }
    }
    Some(p)
}

/// How many workers are wanted: what the setting asks for, else one for each
/// processor, else [`DEFAULT_WORKERS`].
pub open spec fn wanted_workers(setting: Option<&str>, cpus: Option<usize>) -> nat {
    match asked(setting, usize::MAX as nat) {
        Some(n) => n,
        None => match cpus {
            Some(n) => n as nat,
            None => DEFAULT_WORKERS as nat,
        },
    }
}

/// How many workers to run: the wanted number, rounded up to a power of two
/// because routing masks the hash. None where that number would not fit.
pub fn worker_count(setting: Option<&str>, cpus: Option<usize>) -> (r: Option<usize>)
    ensures
        ({
            let wanted = wanted_workers(setting, cpus);
            match r {
                Some(p) => {
                    &&& is_power_of_two(p)
                    &&& wanted <= p
                    &&& forall|q: usize| #[trigger] is_power_of_two(q) && wanted <= q ==> p <= q
                },
                None => forall|q: usize| #[trigger] is_power_of_two(q) ==> q < wanted,
            }
        }),
{
    let wanted: usize = match ask(setting, usize::MAX as u64) {
        Some(n) => n as usize,
        None => match cpus {
            Some(n) => n,
            None => DEFAULT_WORKERS,
        },
    };
    round_up(wanted)
}

/// The byte budget of one shard's cache: the server's budget, split evenly.
pub open spec fn budget_of(setting: Option<&str>, worker_count: usize) -> nat {
    let mb = match asked(setting, u64::MAX as nat) {
        Some(n) => n,
        None => DEFAULT_MEMORY_MB as nat,
    };
    let total = if mb * MEGABYTE > u64::MAX {
        u64::MAX as nat
    } else {
        (mb * MEGABYTE) as nat
    };
    total / worker_count as nat
}

/// The byte budget of one shard's cache: the server's budget in megabytes, split
/// evenly.
pub fn shard_budget(setting: Option<&str>, worker_count: usize) -> (r: u64)
    requires
        worker_count > 0,
    ensures
        r == budget_of(setting, worker_count),
{
    let mb: u64 = match ask(setting, u64::MAX) {
        Some(n) => n,
        None => DEFAULT_MEMORY_MB,
    };
    let total: u64 = if mb > u64::MAX / MEGABYTE {
        u64::MAX
    } else {
        mb * MEGABYTE
    };
    total / worker_count as u64
}

/// A setting is followed where it spells a positive number within the limit, and
/// is as good as missing otherwise.
pub proof fn law_settings_are_positive(text: &str, max: nat)
    ensures
        asked(None, max) is None,
        match unsigned(encode_utf8(text@), max) {
            Some(n) => if n > 0 {
                asked(Some(text), max) == Some(n)
            } else {
                asked(Some(text), max) is None
            },
            None => asked(Some(text), max) is None,
        },
{
}

/// How many workers are wanted: what the setting says, else one for each
/// processor, else four.
pub proof fn law_wanted_workers(setting: Option<&str>, cpus: Option<usize>)
    ensures
        ({
            let wanted = wanted_workers(setting, cpus);
            &&& asked(setting, usize::MAX as nat) matches Some(n) ==> wanted == n
            &&& asked(setting, usize::MAX as nat) is None && cpus is Some ==> wanted == cpus->0
            &&& asked(setting, usize::MAX as nat) is None && cpus is None ==> wanted == 4
        }),
{
}

/// The shards share the memory evenly: each has as many bytes as the megabytes of
/// the server allow, 2048 where nothing is set, and less than one byte for each
/// shard is left over.
pub proof fn law_budget_is_split_evenly(setting: Option<&str>, worker_count: usize)
    requires
        worker_count > 0,
    ensures
        ({
            let mb = match asked(setting, u64::MAX as nat) {
                Some(n) => n,
                None => 2048,
            };
            let each = budget_of(setting, worker_count);
            mb * 1048576 <= u64::MAX ==> each * worker_count <= mb * 1048576 < (each + 1)
                * worker_count
        }),
        ({
            let mb = match asked(setting, u64::MAX as nat) {
                Some(n) => n,
                None => 2048,
            };
            let each = budget_of(setting, worker_count);
            mb * 1048576 > u64::MAX ==> each * worker_count <= u64::MAX < (each + 1) * worker_count
        }),
{
    let mb = match asked(setting, u64::MAX as nat) {
        Some(n) => n,
        None => 2048,
    };
    let total: int = if mb * 1048576 > u64::MAX {
        u64::MAX as int
    } else {
        (mb * 1048576) as int
    };
    let n = worker_count as int;
    let each = budget_of(setting, worker_count) as int;
    assert(each == total / n);
    vstd::arithmetic::div_mod::lemma_fundamental_div_mod(total, n);
    vstd::arithmetic::div_mod::lemma_mod_bound(total, n);
    assert(each * n <= total < (each + 1) * n) by (nonlinear_arith)
        requires
            total == n * each + total % n,
            0 <= total % n < n,
    ;
}

} // verus!
