//! The dispatcher: a fixed pool of sessions and the round-robin counter
//! that spreads operations across them.
//!
//! The sessions themselves live with their worker threads in the
//! embedding; the dispatcher holds their number and the shared counter,
//! and decides which session each new operation goes to and what an
//! immediate submission failure returns.

use vstd::prelude::*;

use crate::common::HyperError;

use vstd::arithmetic::div_mod::{
    lemma_add_mod_noop, lemma_fundamental_div_mod, lemma_fundamental_div_mod_converse,
    lemma_mod_division_less_than_divisor, lemma_small_mod, lemma_sub_mod_noop,
};

verus! {

/// The mathematical state of a dispatcher.
pub struct DispatcherModel {
    /// How many sessions the pool holds.
    pub sessions: int,
    /// The round-robin counter: how many operations have been routed.
    pub next: int,
}

/// The session the counter value `c` routes to, in a pool of `s`
/// sessions.
pub open spec fn route_of(c: int, s: int) -> int
    recommends
        s > 0,
{
    c % s
}

/// A dispatcher routes each new operation to one of a fixed pool of
/// sessions, round robin.
#[derive(Debug)]
pub struct Dispatcher {
    sessions: usize,
    next: u64,
}

impl View for Dispatcher {
    type V = DispatcherModel;

    closed spec fn view(&self) -> DispatcherModel {
        DispatcherModel { sessions: self.sessions as int, next: self.next as int }
    }
}

impl Dispatcher {
    /// A dispatcher over `sessions` sessions, starting at the first.
    pub fn new(sessions: usize) -> (d: Dispatcher)
        requires
            sessions > 0,
        ensures
            d@.sessions == sessions as int,
            d@.next == 0,
    {
        Dispatcher { sessions, next: 0 }
    }

    /// How many sessions the pool holds.
    pub fn session_count(&self) -> (n: usize)
        ensures
            n as int == self@.sessions,
    {
        self.sessions
    }

    /// Picks the session for the next operation and advances the
    /// counter, wrapping at the counter's width.
    pub fn route(&mut self) -> (i: usize)
        requires
            old(self)@.sessions > 0,
        ensures
            final(self)@.sessions == old(self)@.sessions,
            i as int == route_of(old(self)@.next, old(self)@.sessions),
            0 <= i as int && (i as int) < old(self)@.sessions,
            old(self)@.next < u64::MAX ==> final(self)@.next == old(self)@.next + 1,
            old(self)@.next == u64::MAX ==> final(self)@.next == 0,
    {
        let i = (self.next % (self.sessions as u64)) as usize;
        self.next = self.next.wrapping_add(1);
        i
    }
}

/// Classifies what a submission call returned: a non-negative operation
/// id is accepted; a negative one is an immediate failure carrying the
/// error read from the handle's accessors, and never touches any table.
pub fn classify_submission(req_id: i64, status: u32, message: String, location: String) -> (r:
    Result<i64, HyperError>)
    ensures
        req_id >= 0 ==> r == Ok::<i64, HyperError>(req_id),
        req_id < 0 ==> match r {
            Ok(_) => false,
            Err(e) => e.status == status && e.message@ == message@ && e.location@ == location@,
        },
{
    if req_id < 0 {
        Err(HyperError::new(status, message, location))
    } else {
        Ok(req_id)
    }
}

/// How many of the first `n` routed operations land on session `i`,
/// when the counter starts at `c`.
pub open spec fn route_count(c: int, n: nat, s: int, i: int) -> nat
    decreases n,
{
    if n == 0 {
        0nat
    } else {
        route_count(c, (n - 1) as nat, s, i) + if route_of(c + n - 1, s) == i {
            1nat
        } else {
            0nat
        }
    }
}

/// For residues `a`, `b` and `i` of `s`: stepping `a` by `b` reaches
/// `i` exactly when `b` is the gap from `a` to `i`.
proof fn lemma_mod_shift_iff(a: int, b: int, i: int, s: int)
    requires
        s > 0,
        0 <= a < s,
        0 <= b < s,
        0 <= i < s,
    ensures
        ((a + b) % s == i) <==> (b == (i - a) % s),
{
    if a + b < s {
        lemma_small_mod((a + b) as nat, s as nat);
    } else {
        lemma_fundamental_div_mod_converse(a + b, s, 1, a + b - s);
    }
    if i >= a {
        lemma_small_mod((i - a) as nat, s as nat);
    } else {
        lemma_fundamental_div_mod_converse(i - a, s, -1, i - a + s);
    }
}

/// The counter value `c + k` routes to `i` exactly when `k` lands on
/// the gap from `c` to `i`, modulo the pool size.
proof fn lemma_route_hit_iff(c: int, k: int, s: int, i: int)
    requires
        s > 0,
        0 <= i < s,
        c >= 0,
        k >= 0,
    ensures
        (route_of(c + k, s) == i) <==> (k % s == (i - c) % s),
{
    lemma_add_mod_noop(c, k, s);
    lemma_mod_division_less_than_divisor(c, s);
    lemma_mod_division_less_than_divisor(k, s);
    lemma_sub_mod_noop(i, c, s);
    lemma_small_mod(i as nat, s as nat);
    lemma_mod_shift_iff(c % s, k % s, i, s);
}

/// The exact share of session `i` after `n` routed operations: the
/// full cycles, plus one more when the remainder reaches `i` first.
proof fn lemma_route_count_exact(c: int, n: nat, s: int, i: int)
    requires
        s > 0,
        0 <= i < s,
        c >= 0,
    ensures
        route_count(c, n, s, i) == n / (s as nat) + if (i - c) % s < n % (s as nat) {
            1nat
        } else {
            0nat
        },
    decreases n,
{
    if n == 0 {
        assert((0nat) / (s as nat) == 0) by (nonlinear_arith)
            requires
                s > 0,
        ;
        lemma_mod_division_less_than_divisor((i - c) as int, s);
        assert((0nat) % (s as nat) == 0) by (nonlinear_arith)
            requires
                s > 0,
        ;
    } else {
        let m = (n - 1) as nat;
        lemma_route_count_exact(c, m, s, i);
        lemma_route_hit_iff(c, m as int, s, i);
        let d = (i - c) % s;
        lemma_mod_division_less_than_divisor((i - c) as int, s);
        lemma_fundamental_div_mod(m as int, s);
        let q = m as int / s;
        let r = m as int % s;
        lemma_mod_division_less_than_divisor(m as int, s);
        assert(m as int == s * q + r);
        if r + 1 < s {
            assert(n as int == q * s + (r + 1)) by (nonlinear_arith)
                requires
                    m as int == s * q + r,
                    n == m + 1,
            ;
            lemma_fundamental_div_mod_converse(n as int, s, q, r + 1);
        } else {
            assert(n as int == (q + 1) * s + 0) by (nonlinear_arith)
                requires
                    m as int == s * q + r,
                    r + 1 == s,
                    n == m + 1,
            ;
            lemma_fundamental_div_mod_converse(n as int, s, q + 1, 0);
        }
        assert(m as int / s == m / (s as nat)) by (nonlinear_arith)
            requires
                s > 0,
        ;
        assert(m as int % s == m % (s as nat)) by (nonlinear_arith)
            requires
                s > 0,
        ;
        assert(n as int / s == n / (s as nat)) by (nonlinear_arith)
            requires
                s > 0,
        ;
        assert(n as int % s == n % (s as nat)) by (nonlinear_arith)
            requires
                s > 0,
        ;
    }
}

/// Load spread: after any `n` operations routed round robin over `s`
/// sessions, no two sessions' shares differ by more than one.
pub proof fn lemma_round_robin_spread(c: int, n: nat, s: int, i: int, j: int)
    requires
        s > 0,
        0 <= i < s,
        0 <= j < s,
        c >= 0,
    ensures
        route_count(c, n, s, i) <= route_count(c, n, s, j) + 1,
        route_count(c, n, s, i) >= n / (s as nat),
        route_count(c, n, s, i) <= n / (s as nat) + 1,
{
    lemma_route_count_exact(c, n, s, i);
    lemma_route_count_exact(c, n, s, j);
}

} // verus!
