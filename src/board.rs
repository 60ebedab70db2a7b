use vstd::prelude::*;
use crate::chain::OptionChain;
use crate::instrument::{instrument_spec, parse_instrument};
use crate::quote::{mid_iv, mid_iv_spec};
use crate::tick::{OptionTick, OptionValue};
use vstd::string::StringSliceAdditionalSpecFns;

verus! {

/// No two ticks of `s` are for the same contract.
pub open spec fn unique_keys(s: Seq<OptionTick>) -> bool {
    forall|i: int, j: int|
        0 <= i < s.len() && 0 <= j < s.len() && i != j ==> #[trigger] s[i].key() != #[trigger] s[j].key()
}

/// The ticks of `s` stand in ascending order of strike.
pub open spec fn sorted_by_strike(s: Seq<OptionTick>) -> bool {
    forall|i: int, j: int| 0 <= i < j < s.len() ==> #[trigger] s[i].strike <= #[trigger] s[j].strike
}

/// The set of ticks after `t` is upserted into `entries`: every tick of the
/// same contract is replaced by `t`.
pub open spec fn upserted_into(entries: Set<OptionTick>, t: OptionTick) -> Set<OptionTick> {
    entries.filter(|u: OptionTick| u.key() != t.key()).insert(t)
}

/// The set of ticks after each tick of `ts` is upserted in turn.
pub open spec fn upserted_all(entries: Set<OptionTick>, ts: Seq<OptionTick>) -> Set<OptionTick>
    decreases ts.len(),
{
    if ts.len() == 0 {
        entries
    } else {
        upserted_into(upserted_all(entries, ts.drop_last()), ts.last())
    }
}

/// The tick that a feed record stands for: the contract named by `name`,
/// valued at the mid implied volatility of its bid and ask quotes (in
/// micro-percent). `None` for a malformed name or a record with no usable
/// volatility.
pub open spec fn tick_of_record(name: Seq<u8>, bid_iv: i32, ask_iv: i32, asset_price: i64, open_interest: u64) -> Option<OptionTick> {
    match (instrument_spec(name), mid_iv_spec(bid_iv as int, ask_iv as int)) {
        (Some(id), Some(v)) => Some(OptionTick {
            strike: id.strike,
            maturity: id.maturity,
            option_type: id.option_type,
            asset_price,
            option_value: OptionValue::ImpliedVolatility(v as i64),
            open_interest,
        }),
        _ => None,
    }
}

/// Upserts replace and never duplicate: after a run of upserts in which
/// `ts[j]` is the last tick for contract `k`, the only tick for `k` is `ts[j]`,
/// whatever the run started from.
pub proof fn lemma_upsert_replaces(entries: Set<OptionTick>, ts: Seq<OptionTick>, j: int)
    requires
        0 <= j < ts.len(),
        forall|i: int| j < i < ts.len() ==> #[trigger] ts[i].key() != ts[j].key(),
    ensures
        forall|u: OptionTick| u.key() == ts[j].key() ==>
            (#[trigger] upserted_all(entries, ts).contains(u) <==> u == ts[j]),
    decreases ts.len(),
{
    let rest = ts.drop_last();
    assert(upserted_all(entries, ts) == upserted_into(upserted_all(entries, rest), ts.last()));
    if j < ts.len() - 1 {
        assert(rest[j] == ts[j]);
        assert forall|i: int| j < i < rest.len() implies #[trigger] rest[i].key() != rest[j].key() by {
            assert(rest[i] == ts[i]);
        }
        lemma_upsert_replaces(entries, rest, j);
        assert(ts.last().key() != ts[j].key());
    }
}

/// The latest tick of each contract seen so far.
///
/// Ticks are kept in ascending order of strike, at most one per contract.
/// The board also remembers, as ghost state, every tick that was ever
/// upserted into it, so that a snapshot can be shown to hold whole upserted
/// ticks only.
pub struct OptionBoard {
    ticks: Vec<OptionTick>,
    history: Ghost<Set<OptionTick>>,
}

impl View for OptionBoard {
    type V = Seq<OptionTick>;

    closed spec fn view(&self) -> Seq<OptionTick> {
        self.ticks@
    }
}

impl OptionBoard {
    pub closed spec fn wf(self) -> bool {
        &&& unique_keys(self.ticks@)
        &&& sorted_by_strike(self.ticks@)
        &&& forall|i: int| 0 <= i < self.ticks@.len() ==> self.history@.contains(#[trigger] self.ticks@[i])
    }

    /// Every tick that was ever upserted into the board.
    pub closed spec fn history(self) -> Set<OptionTick> {
        self.history@
    }

    /// The ticks on the board, as a set.
    pub open spec fn entries(self) -> Set<OptionTick> {
        self@.to_set()
    }

    /// What holds of every board: one tick per contract, ticks in ascending
    /// order of strike, and each of them a tick that was upserted whole.
    pub open spec fn invariants(self) -> bool {
        &&& self.wf()
        &&& unique_keys(self@)
        &&& sorted_by_strike(self@)
        &&& forall|i: int| 0 <= i < self@.len() ==> self.history().contains(#[trigger] self@[i])
    }

    /// An empty board.
    pub fn new() -> (r: OptionBoard)
        ensures
            r.invariants(),
            r@ == Seq::<OptionTick>::empty(),
            r.history() == Set::<OptionTick>::empty(),
    {
        OptionBoard { ticks: Vec::new(), history: Ghost(Set::empty()) }
    }

    /// Number of contracts on the board.
    pub fn len(&self) -> (r: usize)
        ensures
            r == self@.len(),
    {
        self.ticks.len()
    }

    /// Inserts `t`, or replaces the tick of the same contract with it.
    pub fn upsert(&mut self, t: OptionTick)
        requires
            old(self).wf(),
        ensures
            final(self).invariants(),
            final(self).entries() == upserted_into(old(self).entries(), t),
            final(self).history() == old(self).history().insert(t),
    {
        let ghost old_ticks = self.ticks@;
        let n = self.ticks.len();
        let mut i: usize = 0;
        while i < n
            invariant
                n == self.ticks@.len(),
                self.ticks@ == old_ticks,
                self.history@ == old(self).history@,
                old(self).ticks@ == old_ticks,
                old(self).wf(),
                i <= n,
                forall|k: int| 0 <= k < i ==> #[trigger] old_ticks[k].key() != t.key(),
            decreases n - i,
        {
            if self.ticks[i].same_contract(&t) {
                self.ticks.set(i, t);
                self.history = Ghost(self.history@.insert(t));
                proof {
                    let s = self.ticks@;
                    assert forall|u: OptionTick| s.to_set().contains(u) == upserted_into(old_ticks.to_set(), t).contains(u) by {
                        if s.to_set().contains(u) {
                            let k = choose|k: int| 0 <= k < s.len() && s[k] == u;
                            if k != i {
                                assert(old_ticks[k] == u);
                            }
                        }
                        if upserted_into(old_ticks.to_set(), t).contains(u) && u != t {
                            let k = choose|k: int| 0 <= k < old_ticks.len() && old_ticks[k] == u;
                            assert(k != i);
                            assert(s[k] == u);
                        }
                        if u == t {
                            assert(s[i as int] == t);
                        }
                    }
                    assert(s.to_set() =~= upserted_into(old_ticks.to_set(), t));
                }
                return;
            }
            i = i + 1;
        }
        let mut p: usize = 0;
        while p < n && self.ticks[p].strike <= t.strike
            invariant
                n == self.ticks@.len(),
                self.ticks@ == old_ticks,
                self.history@ == old(self).history@,
                old(self).ticks@ == old_ticks,
                old(self).wf(),
                p <= n,
                forall|k: int| 0 <= k < p ==> #[trigger] old_ticks[k].strike <= t.strike,
            decreases n - p,
        {
            p = p + 1;
        }
        self.ticks.insert(p, t);
        self.history = Ghost(self.history@.insert(t));
        proof {
            let s = self.ticks@;
            assert(s == old_ticks.insert(p as int, t));
            assert forall|a: int, b: int| 0 <= a < b < s.len() implies #[trigger] s[a].strike <= #[trigger] s[b].strike by {
                if b < p {
                } else if a < p && b == p {
                } else if a < p {
                    assert(s[b] == old_ticks[b - 1]);
                } else if a == p {
                    assert(s[b] == old_ticks[b - 1]);
                    if p < n {
                        assert(old_ticks[p as int].strike > t.strike);
                    }
                } else {
                    assert(s[a] == old_ticks[a - 1]);
                    assert(s[b] == old_ticks[b - 1]);
                }
            }
            assert forall|a: int, b: int| 0 <= a < s.len() && 0 <= b < s.len() && a != b implies #[trigger] s[a].key() != #[trigger] s[b].key() by {
                if a != p && b != p {
                    let a0 = if a < p { a } else { a - 1 };
                    let b0 = if b < p { b } else { b - 1 };
                    assert(s[a] == old_ticks[a0]);
                    assert(s[b] == old_ticks[b0]);
                } else if a == p {
                    let b0 = if b < p { b } else { b - 1 };
                    assert(s[b] == old_ticks[b0]);
                } else {
                    let a0 = if a < p { a } else { a - 1 };
                    assert(s[a] == old_ticks[a0]);
                }
            }
            assert forall|k: int| 0 <= k < s.len() implies self.history@.contains(#[trigger] s[k]) by {
                if k < p {
                    assert(s[k] == old_ticks[k]);
                } else if k > p {
                    assert(s[k] == old_ticks[k - 1]);
                }
            }
            assert forall|u: OptionTick| s.to_set().contains(u) == upserted_into(old_ticks.to_set(), t).contains(u) by {
                if s.to_set().contains(u) && u != t {
                    let k = choose|k: int| 0 <= k < s.len() && s[k] == u;
                    let k0 = if k < p { k } else { k - 1 };
                    assert(old_ticks[k0] == u);
                }
                if upserted_into(old_ticks.to_set(), t).contains(u) && u != t {
                    let k = choose|k: int| 0 <= k < old_ticks.len() && old_ticks[k] == u;
                    let k1 = if k < p { k } else { k + 1 };
                    assert(s[k1] == u);
                }
                if u == t {
                    assert(s[p as int] == t);
                }
            }
            assert(s.to_set() =~= upserted_into(old_ticks.to_set(), t));
        }
    }

    /// Takes one feed record: upserts the tick it stands for, or drops a
    /// record that stands for none. Tells whether the record was taken.
    pub fn ingest(&mut self, name: &str, bid_iv: i32, ask_iv: i32, asset_price: i64, open_interest: u64) -> (taken: bool)
        requires
            old(self).wf(),
        ensures
            final(self).invariants(),
            taken == tick_of_record(name.spec_bytes(), bid_iv, ask_iv, asset_price, open_interest) is Some,
            tick_of_record(name.spec_bytes(), bid_iv, ask_iv, asset_price, open_interest) matches Some(t) ==> {
                &&& final(self).entries() == upserted_into(old(self).entries(), t)
                &&& final(self).history() == old(self).history().insert(t)
            },
            !taken ==> *final(self) == *old(self),
    {
        let id = match parse_instrument(name) {
            Some(id) => id,
            None => return false,
        };
        let iv = match mid_iv(bid_iv, ask_iv) {
            Some(v) => v,
            None => return false,
        };
        let t = OptionTick {
            strike: id.strike,
            maturity: id.maturity,
            option_type: id.option_type,
            asset_price,
            option_value: OptionValue::ImpliedVolatility(iv),
            open_interest,
        };
        self.upsert(t);
        true
    }

    /// A point-in-time copy of every tick on the board.
    pub fn snapshot(&self) -> (r: OptionChain)
        requires
            self.wf(),
        ensures
            r@ == self@,
            forall|i: int| 0 <= i < r@.len() ==> self.history().contains(#[trigger] r@[i]),
    {
        OptionChain::from_sorted(self.ticks.clone())
    }
}

} // verus!
