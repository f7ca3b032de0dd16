//! The ledger store and transaction processor.
//!
//! A [`Ledger`] maps asset names to [`Holding`]s under weighted-average
//! costing: a buy adds the purchase amount plus fees to the cost basis,
//! a sell removes the sold quantity's share of the pre-sale average cost
//! and realizes the remainder of the revenue as profit or loss.

use vstd::prelude::*;

verus! {

/// Aggregate position in one asset: units on hand and the cost basis
/// (acquisition cost plus fees) backing them.
#[derive(Clone, Copy, Debug, PartialEq, Eq, Structural)]
pub struct Holding {
    pub quantity: u64,
    pub total_cost: u64,
}

/// One ledger row: an asset name and its holding.
pub struct Entry {
    pub name: String,
    pub holding: Holding,
}

/// Why a transaction was rejected.
#[derive(Clone, Copy, Debug, PartialEq, Eq, Structural)]
pub enum TransactionError {
    /// A sell asked for more units than the ledger holds for that asset.
    InsufficientInventory,
}

/// The holding recorded for `name`, or an all-zero holding when absent.
pub open spec fn holding_of(m: Map<Seq<char>, Holding>, name: Seq<char>) -> Holding {
    if m.contains_key(name) {
        m[name]
    } else {
        Holding { quantity: 0, total_cost: 0 }
    }
}

impl Holding {
    /// Blended cost of one unit: `total_cost / quantity`, or `0` for an
    /// empty holding.
    pub open spec fn spec_average_cost(self) -> int {
        if self.quantity > 0 {
            self.total_cost as int / self.quantity as int
        } else {
            0
        }
    }

    /// Executable form of [`Holding::spec_average_cost`].
    pub fn average_cost_per_unit(&self) -> (r: u64)
        ensures
            r == self.spec_average_cost(),
    {
        if self.quantity > 0 {
            self.total_cost / self.quantity
        } else {
            0
        }
    }
}

/// Cost of goods sold when `q` units leave holding `h`: the sold quantity
/// times the pre-sale average cost per unit.
pub open spec fn spec_cogs(h: Holding, q: u64) -> int {
    q * h.spec_average_cost()
}

/// The mapping after a buy of `q` units for `amount` plus `fees` on `name`.
pub open spec fn spec_buy(
    m: Map<Seq<char>, Holding>,
    name: Seq<char>,
    q: u64,
    amount: u64,
    fees: u64,
) -> Map<Seq<char>, Holding> {
    let h = holding_of(m, name);
    m.insert(
        name,
        Holding {
            quantity: (h.quantity + q) as u64,
            total_cost: (h.total_cost + amount + fees) as u64,
        },
    )
}

/// The mapping after a successful sell of `q` units of `name`: the holding
/// shrinks by the sold quantity and its share of the cost basis, and the
/// entry disappears when the whole quantity is sold.
pub open spec fn spec_sell(m: Map<Seq<char>, Holding>, name: Seq<char>, q: u64) -> Map<
    Seq<char>,
    Holding,
> {
    let h = holding_of(m, name);
    if h.quantity == q {
        m.remove(name)
    } else {
        m.insert(
            name,
            Holding {
                quantity: (h.quantity - q) as u64,
                total_cost: (h.total_cost - spec_cogs(h, q)) as u64,
            },
        )
    }
}

/// No two rows share an asset name.
pub open spec fn entry_names_unique(s: Seq<Entry>) -> bool {
    forall|i: int, j: int| 0 <= i < j < s.len() ==> s[i].name@ != s[j].name@
}

/// Every row names its asset with at least one character.
pub open spec fn entry_names_nonempty(s: Seq<Entry>) -> bool {
    forall|i: int| 0 <= i < s.len() ==> s[i].name@.len() > 0
}

/// The mapping that a row sequence denotes, later rows winning on a
/// repeated name (well-formed sequences have none).
pub open spec fn map_of(s: Seq<Entry>) -> Map<Seq<char>, Holding>
    decreases s.len(),
{
    if s.len() == 0 {
        Map::empty()
    } else {
        map_of(s.drop_last()).insert(s.last().name@, s.last().holding)
    }
}

pub(crate) proof fn lemma_map_of_contains(s: Seq<Entry>, n: Seq<char>)
    ensures
        map_of(s).contains_key(n) <==> (exists|i: int|
            0 <= i < s.len() && s[i].name@ == n),
    decreases s.len(),
{
    if s.len() > 0 {
        lemma_map_of_contains(s.drop_last(), n);
        if map_of(s).contains_key(n) {
            if s.last().name@ == n {
                assert(s[s.len() - 1].name@ == n);
            } else {
                let i = choose|i: int| 0 <= i < s.drop_last().len() && s.drop_last()[i].name@ == n;
                assert(s[i].name@ == n);
            }
        }
        if exists|i: int| 0 <= i < s.len() && s[i].name@ == n {
            let i = choose|i: int| 0 <= i < s.len() && s[i].name@ == n;
            if i < s.len() - 1 {
                assert(s.drop_last()[i].name@ == n);
            }
        }
    }
}

pub(crate) proof fn lemma_map_of_index(s: Seq<Entry>, i: int)
    requires
        entry_names_unique(s),
        0 <= i < s.len(),
    ensures
        map_of(s).contains_key(s[i].name@),
        map_of(s)[s[i].name@] == s[i].holding,
    decreases s.len(),
{
    if i < s.len() - 1 {
        assert(entry_names_unique(s.drop_last()));
        lemma_map_of_index(s.drop_last(), i);
        assert(s.drop_last()[i] == s[i]);
        assert(s.last().name@ != s[i].name@);
    }
}

pub(crate) proof fn lemma_map_of_push(s: Seq<Entry>, e: Entry)
    ensures
        map_of(s.push(e)) == map_of(s).insert(e.name@, e.holding),
{
    assert(s.push(e).drop_last() =~= s);
    assert(s.push(e).last() == e);
}

pub(crate) proof fn lemma_map_of_update(s: Seq<Entry>, i: int, e: Entry)
    requires
        entry_names_unique(s),
        0 <= i < s.len(),
        e.name@ == s[i].name@,
    ensures
        map_of(s.update(i, e)) =~= map_of(s).insert(e.name@, e.holding),
    decreases s.len(),
{
    if i == s.len() - 1 {
        assert(s.update(i, e).drop_last() =~= s.drop_last());
        assert(s.update(i, e).last() == e);
    } else {
        assert(entry_names_unique(s.drop_last()));
        assert(s.drop_last()[i] == s[i]);
        lemma_map_of_update(s.drop_last(), i, e);
        assert(s.update(i, e).drop_last() =~= s.drop_last().update(i, e));
        assert(s.update(i, e).last() == s.last());
        assert(s.last().name@ != e.name@);
    }
}

pub(crate) proof fn lemma_map_of_remove(s: Seq<Entry>, i: int)
    requires
        entry_names_unique(s),
        0 <= i < s.len(),
    ensures
        map_of(s.remove(i)) =~= map_of(s).remove(s[i].name@),
    decreases s.len(),
{
    if i == s.len() - 1 {
        assert(s.remove(i) =~= s.drop_last());
        lemma_map_of_contains(s.drop_last(), s[i].name@);
        assert(forall|j: int|
            0 <= j < s.drop_last().len() ==> s.drop_last()[j].name@ != s[i].name@);
        assert(!map_of(s.drop_last()).contains_key(s[i].name@));
    } else {
        assert(entry_names_unique(s.drop_last()));
        assert(s.drop_last()[i] == s[i]);
        lemma_map_of_remove(s.drop_last(), i);
        assert(s.remove(i).drop_last() =~= s.drop_last().remove(i));
        assert(s.remove(i).last() == s.last());
        assert(s.last().name@ != s[i].name@);
    }
}

/// The ledger store: the current holdings, one row per asset.
pub struct Ledger {
    entries: Vec<Entry>,
}

impl View for Ledger {
    type V = Map<Seq<char>, Holding>;

    open spec fn view(&self) -> Map<Seq<char>, Holding> {
        map_of(self.entries_seq())
    }
}

impl Ledger {
    /// The rows in storage order (the order buys first created them).
    pub closed spec fn entries_seq(self) -> Seq<Entry> {
        self.entries@
    }

    /// Well-formedness: asset names are unique and non-empty.
    pub open spec fn wf(self) -> bool {
        entry_names_unique(self.entries_seq()) && entry_names_nonempty(self.entries_seq())
    }

    /// An empty ledger.
    pub fn new() -> (r: Ledger)
        ensures
            r.wf(),
            r@ == Map::<Seq<char>, Holding>::empty(),
            r.entries_seq() == Seq::<Entry>::empty(),
    {
        let r = Ledger { entries: Vec::new() };
        proof {
            assert(r.entries_seq() =~= Seq::<Entry>::empty());
        }
        r
    }

    /// The number of assets currently held.
    pub fn asset_count(&self) -> (r: usize)
        requires
            self.wf(),
        ensures
            r == self.entries_seq().len(),
            self@.dom().finite(),
            r == self@.dom().len(),
    {
        proof {
            lemma_map_of_len(self.entries_seq());
        }
        self.entries.len()
    }

    fn find(&self, name: &str) -> (r: Option<usize>)
        ensures
            match r {
                Some(i) => i < self.entries_seq().len() && self.entries_seq()[i as int].name@
                    == name@,
                None => forall|i: int|
                    0 <= i < self.entries_seq().len() ==> self.entries_seq()[i].name@ != name@,
            },
    {
        let key: String = name.to_owned();
        let mut i: usize = 0;
        while i < self.entries.len()
            invariant
                key@ == name@,
                i <= self.entries_seq().len(),
                forall|j: int| 0 <= j < i ==> self.entries_seq()[j].name@ != name@,
            decreases self.entries_seq().len() - i,
        {
            if self.entries[i].name == key {
                return Some(i);
            }
            i = i + 1;
        }
        None
    }

    /// Whether the ledger holds any of `name`.
    pub fn contains(&self, name: &str) -> (r: bool)
        requires
            self.wf(),
        ensures
            r == self@.contains_key(name@),
    {
        proof {
            lemma_map_of_contains(self.entries_seq(), name@);
        }
        match self.find(name) {
            Some(i) => {
                proof {
                    lemma_map_of_index(self.entries_seq(), i as int);
                }
                true
            },
            None => false,
        }
    }

    /// The holding recorded for `name`, if any.
    pub fn get(&self, name: &str) -> (r: Option<Holding>)
        requires
            self.wf(),
        ensures
            match r {
                Some(h) => self@.contains_key(name@) && h == self@[name@],
                None => !self@.contains_key(name@),
            },
    {
        proof {
            lemma_map_of_contains(self.entries_seq(), name@);
        }
        match self.find(name) {
            Some(i) => {
                proof {
                    lemma_map_of_index(self.entries_seq(), i as int);
                }
                Some(self.entries[i].holding)
            },
            None => None,
        }
    }

    /// The rows themselves, for reading the ledger out in storage order.
    pub fn entries(&self) -> (r: &Vec<Entry>)
        ensures
            r@ == self.entries_seq(),
    {
        &self.entries
    }

    /// Rebuild a ledger from rows, as when loading the persisted file.
    pub fn from_entries(entries: Vec<Entry>) -> (r: Ledger)
        requires
            entry_names_unique(entries@),
            entry_names_nonempty(entries@),
        ensures
            r.wf(),
            r.entries_seq() == entries@,
    {
        Ledger { entries }
    }

    /// The asset names in storage order, one per row.
    pub fn names(&self) -> (r: Vec<String>)
        requires
            self.wf(),
        ensures
            r@.len() == self.entries_seq().len(),
            forall|i: int|
                0 <= i < r@.len() ==> r@[i]@ == self.entries_seq()[i].name@ && self@.contains_key(
                    r@[i]@,
                ),
    {
        let mut r: Vec<String> = Vec::new();
        let mut i: usize = 0;
        while i < self.entries.len()
            invariant
                i <= self.entries_seq().len(),
                r@.len() == i,
                forall|j: int|
                    0 <= j < i ==> r@[j]@ == self.entries_seq()[j].name@ && self@.contains_key(
                        r@[j]@,
                    ),
                self.wf(),
            decreases self.entries_seq().len() - i,
        {
            proof {
                lemma_map_of_index(self.entries_seq(), i as int);
            }
            r.push(self.entries[i].name.clone());
            i = i + 1;
        }
        r
    }
}

impl Ledger {
    /// Record a buy of `quantity` units of `name` for `amount` plus `fees`.
    ///
    /// A row with zero initial state is created first when the asset is
    /// new; the whole spend, fees included, joins the cost basis. The
    /// bounds in `requires` only keep the running totals within `u64`.
    pub fn buy(&mut self, name: &str, quantity: u64, amount: u64, fees: u64)
        requires
            old(self).wf(),
            name@.len() > 0,
            holding_of(old(self)@, name@).quantity + quantity <= u64::MAX,
            holding_of(old(self)@, name@).total_cost + amount + fees <= u64::MAX,
        ensures
            final(self).wf(),
            final(self)@ == spec_buy(old(self)@, name@, quantity, amount, fees),
    {
        let ghost s0 = self.entries_seq();
        match self.find(name) {
            Some(i) => {
                proof {
                    lemma_map_of_index(s0, i as int);
                }
                let h = self.entries[i].holding;
                let nm = self.entries[i].name.clone();
                let e = Entry {
                    name: nm,
                    holding: Holding {
                        quantity: h.quantity + quantity,
                        total_cost: h.total_cost + amount + fees,
                    },
                };
                self.entries[i] = e;
                proof {
                    lemma_map_of_update(s0, i as int, e);
                    assert(entry_names_unique(self.entries_seq()));
                    assert(entry_names_nonempty(self.entries_seq()));
                    assert(self@ =~= spec_buy(old(self)@, name@, quantity, amount, fees));
                }
            },
            None => {
                proof {
                    lemma_map_of_contains(s0, name@);
                    assert(!old(self)@.contains_key(name@));
                }
                let e = Entry {
                    name: name.to_owned(),
                    holding: Holding { quantity, total_cost: amount + fees },
                };
                self.entries.push(e);
                proof {
                    lemma_map_of_push(s0, e);
                    assert(self.entries_seq() =~= s0.push(e));
                    assert(entry_names_unique(self.entries_seq()));
                    assert(entry_names_nonempty(self.entries_seq()));
                    assert(self@ =~= spec_buy(old(self)@, name@, quantity, amount, fees));
                }
            },
        }
    }

    /// Record a sell of `quantity` units of `name` for `amount` minus `fees`.
    ///
    /// Fails with [`TransactionError::InsufficientInventory`], changing
    /// nothing, when `quantity` exceeds the held quantity (absent asset:
    /// zero). On success the realized net profit or loss is returned:
    /// revenue minus cost of goods sold minus fees. Selling the whole
    /// held quantity removes the asset's row.
    pub fn sell(&mut self, name: &str, quantity: u64, amount: u64, fees: u64) -> (r: Result<
        i128,
        TransactionError,
    >)
        requires
            old(self).wf(),
            name@.len() > 0,
        ensures
            final(self).wf(),
            match r {
                Ok(net) => {
                    &&& quantity <= holding_of(old(self)@, name@).quantity
                    &&& net == amount - spec_cogs(holding_of(old(self)@, name@), quantity) - fees
                    &&& final(self)@ == spec_sell(old(self)@, name@, quantity)
                },
                Err(e) => {
                    &&& e == TransactionError::InsufficientInventory
                    &&& quantity > holding_of(old(self)@, name@).quantity
                    &&& *final(self) == *old(self)
                },
            },
    {
        let ghost s0 = self.entries_seq();
        match self.find(name) {
            Some(i) => {
                proof {
                    lemma_map_of_index(s0, i as int);
                }
                let h = self.entries[i].holding;
                if quantity > h.quantity {
                    return Err(TransactionError::InsufficientInventory);
                }
                let avg = h.average_cost_per_unit();
                proof {
                    lemma_cogs_le_total_cost(h, quantity);
                }
                let cogs = quantity * avg;
                let net: i128 = amount as i128 - cogs as i128 - fees as i128;
                if quantity == h.quantity {
                    self.entries.remove(i);
                    proof {
                        lemma_map_of_remove(s0, i as int);
                        assert(self.entries_seq() =~= s0.remove(i as int));
                        assert(entry_names_unique(self.entries_seq()));
                        assert(entry_names_nonempty(self.entries_seq()));
                        assert(self@ =~= spec_sell(old(self)@, name@, quantity));
                    }
                } else {
                    let nm = self.entries[i].name.clone();
                    let e = Entry {
                        name: nm,
                        holding: Holding {
                            quantity: h.quantity - quantity,
                            total_cost: h.total_cost - cogs,
                        },
                    };
                    self.entries[i] = e;
                    proof {
                        lemma_map_of_update(s0, i as int, e);
                        assert(entry_names_unique(self.entries_seq()));
                        assert(entry_names_nonempty(self.entries_seq()));
                        assert(self@ =~= spec_sell(old(self)@, name@, quantity));
                    }
                }
                Ok(net)
            },
            None => {
                proof {
                    lemma_map_of_contains(s0, name@);
                    assert(!old(self)@.contains_key(name@));
                }
                if quantity > 0 {
                    return Err(TransactionError::InsufficientInventory);
                }
                proof {
                    assert(spec_sell(old(self)@, name@, quantity) =~= old(self)@);
                }
                Ok(amount as i128 - fees as i128)
            },
        }
    }
}

/// The running total of realized profit and loss across one run's sells.
pub struct Session {
    pub total: i128,
}

impl Session {
    /// A fresh session with nothing realized yet.
    pub fn new() -> (r: Session)
        ensures
            r.total == 0,
    {
        Session { total: 0 }
    }

    /// Fold one sell's realized net into the running total. The bounds in
    /// `requires` only keep the total within `i128`.
    pub fn record(&mut self, net: i128)
        requires
            i128::MIN <= old(self).total + net <= i128::MAX,
        ensures
            final(self).total == old(self).total + net,
    {
        self.total = self.total + net;
    }
}

/// The sold quantity's share of the cost basis never exceeds the whole
/// cost basis: `q * average_cost <= total_cost` whenever `q` is at most
/// the held quantity. The cost basis therefore cannot go negative on a
/// sell.
pub proof fn lemma_cogs_le_total_cost(h: Holding, q: u64)
    requires
        q <= h.quantity,
    ensures
        0 <= spec_cogs(h, q) <= h.total_cost,
{
    if h.quantity > 0 {
        let tc = h.total_cost as int;
        let qty = h.quantity as int;
        let avg = tc / qty;
        vstd::arithmetic::div_mod::lemma_div_pos_is_pos(tc, qty);
        vstd::arithmetic::mul::lemma_mul_nonnegative(q as int, avg);
        vstd::arithmetic::mul::lemma_mul_inequality(q as int, qty, avg);
        vstd::arithmetic::div_mod::lemma_fundamental_div_mod(tc, qty);
        vstd::arithmetic::div_mod::lemma_mod_bound(tc, qty);
        assert(qty * avg <= tc);
        assert(q as int * avg <= qty * avg);
    } else {
        assert(spec_cogs(h, q) == 0) by {
            vstd::arithmetic::mul::lemma_mul_basics(q as int);
        }
    }
}

/// Selling the entire held quantity of an asset leaves the ledger without
/// an entry for it.
pub proof fn lemma_sell_all_removes(m: Map<Seq<char>, Holding>, name: Seq<char>)
    ensures
        !spec_sell(m, name, holding_of(m, name).quantity).contains_key(name),
{
}

/// Per-buy transaction: quantity, amount, fees.
pub type BuyOp = (u64, u64, u64);

/// Units bought across a sequence of buys.
pub open spec fn sum_quantities(ops: Seq<BuyOp>) -> int
    decreases ops.len(),
{
    if ops.len() == 0 {
        0
    } else {
        sum_quantities(ops.drop_last()) + ops.last().0
    }
}

/// Money spent, fees included, across a sequence of buys.
pub open spec fn sum_costs(ops: Seq<BuyOp>) -> int
    decreases ops.len(),
{
    if ops.len() == 0 {
        0
    } else {
        sum_costs(ops.drop_last()) + ops.last().1 + ops.last().2
    }
}

/// The mapping after applying a sequence of buys to one asset, in order.
pub open spec fn spec_apply_buys(
    m: Map<Seq<char>, Holding>,
    name: Seq<char>,
    ops: Seq<BuyOp>,
) -> Map<Seq<char>, Holding>
    decreases ops.len(),
{
    if ops.len() == 0 {
        m
    } else {
        spec_buy(
            spec_apply_buys(m, name, ops.drop_last()),
            name,
            ops.last().0,
            ops.last().1,
            ops.last().2,
        )
    }
}

pub(crate) proof fn lemma_sums_nonneg(ops: Seq<BuyOp>)
    ensures
        0 <= sum_quantities(ops),
        0 <= sum_costs(ops),
    decreases ops.len(),
{
    if ops.len() > 0 {
        lemma_sums_nonneg(ops.drop_last());
    }
}

/// After any sequence of buys on an asset the ledger did not yet hold,
/// the quantity on hand is the sum of the bought quantities and the cost
/// basis is the sum of `amount + fees` across those buys. The bounds in
/// `requires` only keep the two totals within `u64`.
pub proof fn lemma_buys_accumulate(m: Map<Seq<char>, Holding>, name: Seq<char>, ops: Seq<BuyOp>)
    requires
        !m.contains_key(name),
        sum_quantities(ops) <= u64::MAX,
        sum_costs(ops) <= u64::MAX,
    ensures
        holding_of(spec_apply_buys(m, name, ops), name).quantity == sum_quantities(ops),
        holding_of(spec_apply_buys(m, name, ops), name).total_cost == sum_costs(ops),
    decreases ops.len(),
{
    if ops.len() > 0 {
        lemma_sums_nonneg(ops.drop_last());
        lemma_buys_accumulate(m, name, ops.drop_last());
    }
}

pub(crate) proof fn lemma_map_of_len(s: Seq<Entry>)
    requires
        entry_names_unique(s),
    ensures
        map_of(s).dom().finite(),
        map_of(s).dom().len() == s.len(),
    decreases s.len(),
{
    if s.len() > 0 {
        assert(entry_names_unique(s.drop_last()));
        lemma_map_of_len(s.drop_last());
        lemma_map_of_contains(s.drop_last(), s.last().name@);
        assert(forall|j: int|
            0 <= j < s.drop_last().len() ==> s.drop_last()[j].name@ != s.last().name@);
        assert(!map_of(s.drop_last()).contains_key(s.last().name@));
    }
}

} // verus!

