use vstd::prelude::*;
use crate::tree::Customer;

verus! {

/// The seed the generator starts from.
pub const SEED: u64 = 42;

/// One step of the linear congruential generator.
pub open spec fn lcg_step(seed: u64) -> u64 {
    seed.wrapping_mul(1103515245).wrapping_add(12345)
}

/// The generator's state after `k` steps.
pub open spec fn seed_after(k: nat) -> u64
    decreases k,
{
    if k == 0 {
        SEED
    } else {
        lcg_step(seed_after((k - 1) as nat))
    }
}

/// The `i`-th generated customer: id `i + 1`, a start drawn from
/// `[1, max_date - max_span]` and a span drawn from `[1, max_span]`, two
/// generator steps per customer.
pub open spec fn generated(i: nat, max_date: i32, max_span: i32) -> Customer {
    let start = seed_after(2 * i + 1) % ((max_date - max_span) as u64) + 1;
    let span = seed_after(2 * i + 2) % (max_span as u64) + 1;
    Customer { id: (i + 1) as i32, start: start as i32, end: (start + span) as i32 }
}

/// A generated range lies within the date domain.
proof fn lemma_generated_in_domain(i: nat, max_date: i32, max_span: i32)
    requires
        0 < max_span < max_date,
        i < i32::MAX,
    ensures
        ({
            let c = generated(i, max_date, max_span);
            &&& c.id == i + 1
            &&& 1 <= c.start < c.end <= max_date
            &&& c.end - c.start <= max_span
        }),
{
    let a = seed_after(2 * i + 1) % ((max_date - max_span) as u64);
    let b = seed_after(2 * i + 2) % (max_span as u64);
    assert(a < max_date - max_span);
    assert(b < max_span);
}

/// Makes `n` customers from a fixed seed, so that every run sees the same
/// data. Every range lies within `[1, max_date]` and spans at most
/// `max_span + 1` dates.
pub fn generate_customers(n: i32, max_date: i32, max_span: i32) -> (r: Vec<Customer>)
    requires
        n >= 0,
        0 < max_span < max_date,
    ensures
        r@.len() == n,
        forall|i: int| 0 <= i < n ==> #[trigger] r@[i] == generated(i as nat, max_date, max_span),
        forall|i: int|
            0 <= i < n ==> 1 <= #[trigger] r@[i].start < r@[i].end <= max_date && r@[i].end
                - r@[i].start <= max_span,
{
    let mut seed: u64 = SEED;
    let mut customers: Vec<Customer> = Vec::new();
    let window = (max_date - max_span) as u64;
    let spread = max_span as u64;
    let mut i: i32 = 0;
    while i < n
        invariant
            0 <= i <= n,
            0 < max_span < max_date,
            window == max_date - max_span,
            spread == max_span,
            seed == seed_after(2 * i as nat),
            customers@.len() == i,
            forall|k: int| 0 <= k < i ==> #[trigger] customers@[k] == generated(k as nat, max_date, max_span),
            forall|k: int|
                0 <= k < i ==> 1 <= #[trigger] customers@[k].start < customers@[k].end <= max_date
                    && customers@[k].end - customers@[k].start <= max_span,
        decreases n - i,
    {
        let ghost k = i as nat;
        proof {
            lemma_generated_in_domain(k, max_date, max_span);
        }
        seed = seed.wrapping_mul(1103515245).wrapping_add(12345);
        assert(seed == seed_after(2 * k + 1));
        let start = (seed % window + 1) as i32;
        seed = seed.wrapping_mul(1103515245).wrapping_add(12345);
        assert(seed == seed_after(2 * k + 2));
        let span = (seed % spread + 1) as i32;
        let c = Customer { id: i + 1, start, end: start + span };
        assert(c == generated(k, max_date, max_span));
        customers.push(c);
        i += 1;
        assert(seed == seed_after(2 * i as nat));
    }
    customers
}

} // verus!
