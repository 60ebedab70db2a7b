use vstd::prelude::*;
use crate::board::sorted_by_strike;
use crate::tick::OptionTick;

verus! {

/// Why a selection over a chain gave no answer.
#[derive(Clone, Copy, Debug, PartialEq, Eq, Structural)]
pub enum SelectionError {
    /// A maturity bucket was asked for past the last one.
    OutOfRange,
    /// The chain holds no tick.
    EmptyChain,
}

pub open spec fn is_otm_tick() -> spec_fn(OptionTick) -> bool {
    |t: OptionTick| t.is_otm()
}

pub open spec fn has_maturity(m: i64) -> spec_fn(OptionTick) -> bool {
    |t: OptionTick| t.maturity == m
}

/// The distinct maturities of the ticks of `s`.
pub open spec fn maturity_set(s: Seq<OptionTick>) -> Set<i64> {
    Set::new(|m: i64| exists|k: int| 0 <= k < s.len() && #[trigger] s[k].maturity == m)
}

pub open spec fn strictly_increasing(s: Seq<i64>) -> bool {
    forall|a: int, b: int| 0 <= a < b < s.len() ==> #[trigger] s[a] < #[trigger] s[b]
}

/// The strikes of the first `n` ticks of `s` whose metric in `vals` is
/// defined, in order.
pub open spec fn projected_strikes<V>(s: Seq<OptionTick>, vals: Seq<Option<V>>, n: int) -> Seq<i64>
    decreases n,
{
    if n <= 0 {
        Seq::empty()
    } else if vals[n - 1] is Some {
        projected_strikes(s, vals, n - 1).push(s[n - 1].strike)
    } else {
        projected_strikes(s, vals, n - 1)
    }
}

/// The defined metrics among the first `n` of `vals`, in order.
pub open spec fn projected_values<V>(vals: Seq<Option<V>>, n: int) -> Seq<V>
    decreases n,
{
    if n <= 0 {
        Seq::empty()
    } else if vals[n - 1] is Some {
        projected_values(vals, n - 1).push(vals[n - 1]->0)
    } else {
        projected_values(vals, n - 1)
    }
}

/// Sum over the first `n` ticks of `s` of the tick's greek in `g` times its
/// open interest.
pub open spec fn weighted_sum(s: Seq<OptionTick>, g: Seq<i64>, n: int) -> int
    decreases n,
{
    if n <= 0 {
        0
    } else {
        weighted_sum(s, g, n - 1) + g[n - 1] * s[n - 1].open_interest
    }
}

pub open spec fn fits_i128(x: int) -> bool {
    i128::MIN <= x <= i128::MAX
}

/// The open-interest weighted sum of the greeks `g` over the ticks `s`:
/// unavailable for no tick, or where a running total leaves 128 bits.
pub open spec fn exposure_spec(s: Seq<OptionTick>, g: Seq<i64>) -> Option<int> {
    if s.len() == 0 {
        None
    } else if exists|k: int| 0 < k <= s.len() && !fits_i128(#[trigger] weighted_sum(s, g, k)) {
        None
    } else {
        Some(weighted_sum(s, g, s.len() as int))
    }
}

/// `s` with the items at `i` and `i + 1` exchanged.
pub open spec fn swap_adjacent<A>(s: Seq<A>, i: int) -> Seq<A> {
    s.update(i, s[i + 1]).update(i + 1, s[i])
}

/// The weighted total does not depend on the order of the ticks: exchanging
/// two neighbouring ticks, together with their greeks, leaves every running
/// total that includes both (the whole sum among them) unchanged. Any
/// reordering is a series of such exchanges.
pub proof fn lemma_exposure_order_independent(s: Seq<OptionTick>, g: Seq<i64>, i: int, n: int)
    requires
        g.len() == s.len(),
        0 <= i,
        i + 1 < s.len(),
        0 <= n <= s.len(),
        n <= i || i + 2 <= n,
    ensures
        weighted_sum(swap_adjacent(s, i), swap_adjacent(g, i), n) == weighted_sum(s, g, n),
    decreases n,
{
    let s2 = swap_adjacent(s, i);
    let g2 = swap_adjacent(g, i);
    if n > 0 {
        if n == i + 2 {
            lemma_exposure_order_independent(s, g, i, i);
            assert(s2[i] == s[i + 1] && g2[i] == g[i + 1]);
            assert(s2[i + 1] == s[i] && g2[i + 1] == g[i]);
            assert(weighted_sum(s2, g2, i + 1) == weighted_sum(s2, g2, i) + g[i + 1] * s[i + 1].open_interest);
            assert(weighted_sum(s2, g2, i + 2) == weighted_sum(s2, g2, i + 1) + g[i] * s[i].open_interest);
            assert(weighted_sum(s, g, i + 1) == weighted_sum(s, g, i) + g[i] * s[i].open_interest);
            assert(weighted_sum(s, g, i + 2) == weighted_sum(s, g, i + 1) + g[i + 1] * s[i + 1].open_interest);
        } else {
            lemma_exposure_order_independent(s, g, i, n - 1);
            assert(s2[n - 1] == s[n - 1] && g2[n - 1] == g[n - 1]);
        }
    }
}

/// A filter keeps the order of what it keeps.
pub proof fn lemma_filter_sorted(s: Seq<OptionTick>, p: spec_fn(OptionTick) -> bool)
    requires
        sorted_by_strike(s),
    ensures
        sorted_by_strike(s.filter(p)),
    decreases s.len(),
{
    reveal(Seq::filter);
    if s.len() > 0 {
        let d = s.drop_last();
        assert(sorted_by_strike(d)) by {
            assert forall|a: int, b: int| 0 <= a < b < d.len() implies #[trigger] d[a].strike <= #[trigger] d[b].strike by {
                assert(d[a] == s[a] && d[b] == s[b]);
            }
        }
        lemma_filter_sorted(d, p);
        let sub = d.filter(p);
        if p(s.last()) {
            assert forall|k: int| 0 <= k < sub.len() implies #[trigger] sub[k].strike <= s.last().strike by {
                assert(sub.contains(sub[k]));
                d.lemma_filter_contains_rev(p, sub[k]);
                let i = choose|i: int| 0 <= i < d.len() && d[i] == sub[k];
                assert(s[i] == d[i]);
            }
            let out = sub.push(s.last());
            assert forall|a: int, b: int| 0 <= a < b < out.len() implies #[trigger] out[a].strike <= #[trigger] out[b].strike by {
                if b < sub.len() {
                    assert(out[a] == sub[a] && out[b] == sub[b]);
                } else {
                    assert(out[a] == sub[a]);
                }
            }
        }
    }
}

/// A point-in-time set of ticks, in ascending order of strike. A chain is
/// never changed: every selection gives a new one.
pub struct OptionChain {
    ticks: Vec<OptionTick>,
}

impl View for OptionChain {
    type V = Seq<OptionTick>;

    closed spec fn view(&self) -> Seq<OptionTick> {
        self.ticks@
    }
}

impl OptionChain {
    #[verifier::type_invariant]
    spec fn wf(self) -> bool {
        sorted_by_strike(self.ticks@)
    }

    pub(crate) fn from_sorted(ticks: Vec<OptionTick>) -> (r: OptionChain)
        requires
            sorted_by_strike(ticks@),
        ensures
            r@ == ticks@,
    {
        OptionChain { ticks }
    }

    /// The ticks, in ascending order of strike.
    pub fn ticks(&self) -> (r: &Vec<OptionTick>)
        ensures
            r@ == self@,
    {
        &self.ticks
    }

    pub fn len(&self) -> (r: usize)
        ensures
            r == self@.len(),
    {
        self.ticks.len()
    }

    /// The out-of-the-money ticks: calls above their spot, puts below it.
    pub fn otm(&self) -> (r: OptionChain)
        ensures
            r@ == self@.filter(is_otm_tick()),
    {
        proof { use_type_invariant(self); }
        let mut out: Vec<OptionTick> = Vec::new();
        let mut i: usize = 0;
        while i < self.ticks.len()
            invariant
                i <= self.ticks@.len(),
                out@ == self.ticks@.take(i as int).filter(is_otm_tick()),
            decreases self.ticks@.len() - i,
        {
            let t = self.ticks[i];
            proof {
                assert(self.ticks@.take(i as int + 1) == self.ticks@.take(i as int).push(t));
                self.ticks@.take(i as int).lemma_filter_push(t, is_otm_tick());
            }
            if t.is_out_of_the_money() {
                out.push(t);
            }
            i = i + 1;
        }
        proof {
            assert(self.ticks@.take(i as int) == self.ticks@);
            lemma_filter_sorted(self.ticks@, is_otm_tick());
        }
        OptionChain { ticks: out }
    }

    /// The ticks that expire at `m`.
    pub fn with_maturity(&self, m: i64) -> (r: OptionChain)
        ensures
            r@ == self@.filter(has_maturity(m)),
    {
        proof { use_type_invariant(self); }
        let mut out: Vec<OptionTick> = Vec::new();
        let mut i: usize = 0;
        while i < self.ticks.len()
            invariant
                i <= self.ticks@.len(),
                out@ == self.ticks@.take(i as int).filter(has_maturity(m)),
            decreases self.ticks@.len() - i,
        {
            let t = self.ticks[i];
            proof {
                assert(self.ticks@.take(i as int + 1) == self.ticks@.take(i as int).push(t));
                self.ticks@.take(i as int).lemma_filter_push(t, has_maturity(m));
            }
            if t.maturity == m {
                out.push(t);
            }
            i = i + 1;
        }
        proof {
            assert(self.ticks@.take(i as int) == self.ticks@);
            lemma_filter_sorted(self.ticks@, has_maturity(m));
        }
        OptionChain { ticks: out }
    }
    /// The implied volatility of each tick, in chain order.
    pub fn ivs(&self) -> (r: Vec<Option<i64>>)
        ensures
            r@.len() == self@.len(),
            forall|i: int| 0 <= i < r@.len() ==> #[trigger] r@[i] == self@[i].iv_spec(),
    {
        let mut out: Vec<Option<i64>> = Vec::new();
        let mut i: usize = 0;
        while i < self.ticks.len()
            invariant
                i <= self.ticks@.len(),
                out@.len() == i,
                forall|k: int| 0 <= k < i ==> #[trigger] out@[k] == self.ticks@[k].iv_spec(),
            decreases self.ticks@.len() - i,
        {
            out.push(self.ticks[i].iv());
            i = i + 1;
        }
        out
    }

    /// The ticks grouped by maturity, in ascending order of maturity.
    pub fn sort_by_maturity(&self) -> (r: MaturitySchedule)
        ensures
            r.chain() == self@,
            strictly_increasing(r.maturities()),
            r.maturities().to_set() == maturity_set(self@),
    {
        let mut ms: Vec<i64> = Vec::new();
        let mut i: usize = 0;
        while i < self.ticks.len()
            invariant
                i <= self.ticks@.len(),
                strictly_increasing(ms@),
                forall|x: i64| ms@.contains(x) <==> exists|k: int| 0 <= k < i && #[trigger] self.ticks@[k].maturity == x,
            decreases self.ticks@.len() - i,
        {
            let m = self.ticks[i].maturity;
            let mut p: usize = 0;
            while p < ms.len() && ms[p] < m
                invariant
                    p <= ms@.len(),
                    forall|k: int| 0 <= k < p ==> #[trigger] ms@[k] < m,
                decreases ms@.len() - p,
            {
                p = p + 1;
            }
            let ghost before = ms@;
            if p < ms.len() && ms[p] == m {
                assert(ms@.contains(m));
            } else {
                ms.insert(p, m);
                proof {
                    let s = ms@;
                    assert(s == before.insert(p as int, m));
                    assert forall|a: int, b: int| 0 <= a < b < s.len() implies #[trigger] s[a] < #[trigger] s[b] by {
                        if b < p {
                        } else if a < p && b == p {
                        } else if a < p {
                            assert(s[b] == before[b - 1]);
                        } else if a == p {
                            assert(s[b] == before[b - 1]);
                            assert(before[p as int] > m);
                        } else {
                            assert(s[a] == before[a - 1]);
                            assert(s[b] == before[b - 1]);
                        }
                    }
                    assert forall|x: i64| s.contains(x) <==> before.contains(x) || x == m by {
                        if s.contains(x) && x != m {
                            let k = choose|k: int| 0 <= k < s.len() && s[k] == x;
                            let k0 = if k < p { k } else { k - 1 };
                            assert(before[k0] == x);
                        }
                        if before.contains(x) {
                            let k = choose|k: int| 0 <= k < before.len() && before[k] == x;
                            let k1 = if k < p { k } else { k + 1 };
                            assert(s[k1] == x);
                        }
                        if x == m {
                            assert(s[p as int] == m);
                        }
                    }
                }
            }
            proof {
                assert forall|x: i64| ms@.contains(x) <==> exists|k: int| 0 <= k < i + 1 && #[trigger] self.ticks@[k].maturity == x by {
                    if x == m {
                        assert(self.ticks@[i as int].maturity == x);
                    }
                    if exists|k: int| 0 <= k < i + 1 && #[trigger] self.ticks@[k].maturity == x {
                        let k = choose|k: int| 0 <= k < i + 1 && #[trigger] self.ticks@[k].maturity == x;
                        if k < i {
                            assert(before.contains(x));
                        }
                    }
                }
            }
            i = i + 1;
        }
        proof {
            assert(ms@.to_set() =~= maturity_set(self.ticks@));
        }
        MaturitySchedule { chain: self.clone_chain(), maturities: ms }
    }

    fn clone_chain(&self) -> (r: OptionChain)
        ensures
            r@ == self@,
    {
        proof { use_type_invariant(self); }
        OptionChain { ticks: self.ticks.clone() }
    }

    /// The tick nearest the money: the least distance between strike and
    /// spot, and of those the lowest strike.
    pub fn atm(&self) -> (r: Result<OptionTick, SelectionError>)
        ensures
            self@.len() == 0 <==> r is Err,
            r is Err ==> r == Err::<OptionTick, SelectionError>(SelectionError::EmptyChain),
            r matches Ok(t) ==> {
                &&& self@.contains(t)
                &&& forall|k: int| 0 <= k < self@.len() ==> t.moneyness_distance() <= #[trigger] self@[k].moneyness_distance()
                &&& forall|k: int| 0 <= k < self@.len() && #[trigger] self@[k].moneyness_distance() == t.moneyness_distance()
                        ==> t.strike <= self@[k].strike
            },
    {
        proof { use_type_invariant(self); }
        if self.ticks.len() == 0 {
            return Err(SelectionError::EmptyChain);
        }
        let mut best: usize = 0;
        let mut best_d: u128 = self.ticks[0].distance_to_spot();
        let mut i: usize = 1;
        while i < self.ticks.len()
            invariant
                1 <= i <= self.ticks@.len(),
                best < i,
                best_d as int == self.ticks@[best as int].moneyness_distance(),
                forall|k: int| 0 <= k < i ==> (best_d as int) <= #[trigger] self.ticks@[k].moneyness_distance(),
                forall|k: int| 0 <= k < best ==> (best_d as int) < #[trigger] self.ticks@[k].moneyness_distance(),
            decreases self.ticks@.len() - i,
        {
            let d = self.ticks[i].distance_to_spot();
            if d < best_d {
                best = i;
                best_d = d;
            }
            i = i + 1;
        }
        let t = self.ticks[best];
        proof {
            assert(self.ticks@[best as int] == t);
        }
        Ok(t)
    }

    /// The strikes and metric values of the ticks whose metric is defined,
    /// in ascending order of strike. `values` holds the metric of each tick,
    /// in chain order.
    pub fn map_to_vec<V: Copy>(&self, values: &Vec<Option<V>>) -> (r: (Vec<i64>, Vec<V>))
        requires
            values@.len() == self@.len(),
        ensures
            r.0@ == projected_strikes(self@, values@, self@.len() as int),
            r.1@ == projected_values(values@, self@.len() as int),
            forall|a: int, b: int| 0 <= a < b < r.0@.len() ==> #[trigger] r.0@[a] <= #[trigger] r.0@[b],
    {
        proof { use_type_invariant(self); }
        let mut xs: Vec<i64> = Vec::new();
        let mut ys: Vec<V> = Vec::new();
        let mut i: usize = 0;
        while i < self.ticks.len()
            invariant
                i <= self.ticks@.len(),
                values@.len() == self.ticks@.len(),
                sorted_by_strike(self.ticks@),
                xs@ == projected_strikes(self.ticks@, values@, i as int),
                ys@ == projected_values(values@, i as int),
                forall|a: int, b: int| 0 <= a < b < xs@.len() ==> #[trigger] xs@[a] <= #[trigger] xs@[b],
                forall|a: int, j: int| 0 <= a < xs@.len() && i <= j < self.ticks@.len()
                    ==> #[trigger] xs@[a] <= #[trigger] self.ticks@[j].strike,
            decreases self.ticks@.len() - i,
        {
            match values[i] {
                Some(v) => {
                    xs.push(self.ticks[i].strike);
                    ys.push(v);
                },
                None => {},
            }
            i = i + 1;
        }
        (xs, ys)
    }

    fn weighted_open_interest(&self, greeks: &Vec<i64>) -> (r: Option<i128>)
        requires
            greeks@.len() == self@.len(),
        ensures
            r matches Some(v) ==> exposure_spec(self@, greeks@) == Some(v as int),
            r is None <==> exposure_spec(self@, greeks@) is None,
    {
        let n = self.ticks.len();
        if n == 0 {
            return None;
        }
        let mut sum: i128 = 0;
        let mut i: usize = 0;
        while i < n
            invariant
                n == self.ticks@.len(),
                greeks@.len() == n,
                i <= n,
                sum as int == weighted_sum(self.ticks@, greeks@, i as int),
                forall|k: int| 0 < k <= i ==> fits_i128(#[trigger] weighted_sum(self.ticks@, greeks@, k)),
            decreases n - i,
        {
            let g = greeks[i];
            let oi = self.ticks[i].open_interest;
            assert(-0x8000_0000_0000_0000 * 0xffff_ffff_ffff_ffff <= g as int * oi as int
                <= 0x7fff_ffff_ffff_ffff * 0xffff_ffff_ffff_ffff) by (nonlinear_arith)
                requires
                    -0x8000_0000_0000_0000 <= g <= 0x7fff_ffff_ffff_ffff,
                    0 <= oi <= 0xffff_ffff_ffff_ffff;
            let prod: i128 = g as i128 * oi as i128;
            if (prod > 0 && sum > i128::MAX - prod) || (prod < 0 && sum < i128::MIN - prod) {
                assert(!fits_i128(weighted_sum(self.ticks@, greeks@, i as int + 1)));
                return None;
            }
            sum = sum + prod;
            i = i + 1;
        }
        Some(sum)
    }

    /// Sum over the ticks of delta times open interest; `deltas` holds the
    /// delta of each tick, in chain order, on one fixed scale.
    pub fn delta_exposure(&self, deltas: &Vec<i64>) -> (r: Option<i128>)
        requires
            deltas@.len() == self@.len(),
        ensures
            r matches Some(v) ==> exposure_spec(self@, deltas@) == Some(v as int),
            r is None <==> exposure_spec(self@, deltas@) is None,
    {
        self.weighted_open_interest(deltas)
    }

    /// Sum over the ticks of gamma times open interest; `gammas` holds the
    /// gamma of each tick, in chain order, on one fixed scale.
    pub fn gamma_exposure(&self, gammas: &Vec<i64>) -> (r: Option<i128>)
        requires
            gammas@.len() == self@.len(),
        ensures
            r matches Some(v) ==> exposure_spec(self@, gammas@) == Some(v as int),
            r is None <==> exposure_spec(self@, gammas@) is None,
    {
        self.weighted_open_interest(gammas)
    }
}

/// A chain together with its distinct maturities in ascending order, so that
/// one maturity bucket can be picked by its rank.
pub struct MaturitySchedule {
    chain: OptionChain,
    maturities: Vec<i64>,
}

impl MaturitySchedule {
    pub closed spec fn chain(self) -> Seq<OptionTick> {
        self.chain@
    }

    pub closed spec fn maturities(self) -> Seq<i64> {
        self.maturities@
    }

    /// The distinct maturities, nearest first.
    pub fn maturity_list(&self) -> (r: &Vec<i64>)
        ensures
            r@ == self.maturities(),
    {
        &self.maturities
    }

    /// The ticks of the `n`-th nearest maturity (0 for the nearest).
    pub fn get(&self, n: usize) -> (r: Result<OptionChain, SelectionError>)
        ensures
            n >= self.maturities().len() <==> r is Err,
            r is Err ==> r == Err::<OptionChain, SelectionError>(SelectionError::OutOfRange),
            r matches Ok(c) ==> c@ == self.chain().filter(has_maturity(self.maturities()[n as int])),
    {
        if n >= self.maturities.len() {
            return Err(SelectionError::OutOfRange);
        }
        Ok(self.chain.with_maturity(self.maturities[n]))
    }
}

} // verus!
