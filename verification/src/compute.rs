//! The lot ledger and yearly tax aggregation.
//!
//! A per-symbol FIFO queue of purchase lots is fed by Buy activities
//! and consumed, oldest first, by Sell activities.  Replaying the
//! timestamp-sorted activity log once, year by year, accumulates
//! per-symbol tax positions; at each year's end they become tax
//! returns and their field-wise sum is the year's aggregate.

use std::collections::VecDeque;

use vstd::prelude::*;

use crate::activity::{Activity, Money, Operation};
use crate::currency::{Code, Currency};
use crate::date::Timestamp;
use crate::fixed::{in_range, round2_prod, MAX_FIXED};

verus! {

/// Why the tax computation failed.  All failures are fatal: no
/// partial tax output is ever produced.
#[derive(Debug, Clone, PartialEq, Eq)]
pub enum Error {
    /// A sale asked for more quantity than the symbol's open lots hold.
    LedgerUnderflow,
    /// An intermediate amount left the supported fixed-point range.
    OutOfRange,
    /// A failure the surrounding application reports in its own words.
    Other { reason: String },
}

impl Error {
    /// An error carrying a caller-supplied reason.
    pub fn new(reason: &str) -> (e: Error)
        ensures
            e matches Error::Other { reason: r } && r@ == reason@,
    {
        Error::Other { reason: reason.to_owned() }
    }
}

/// One open purchase lot: what one Buy acquired and has not yet been
/// sold, priced in the domestic currency.
#[derive(Debug, Clone, Copy, PartialEq, Eq, Structural)]
pub struct Block {
    pub timestamp: Timestamp,
    pub quantity: i128,
    pub price: Currency,
    pub commission: Currency,
}

impl Block {
    pub open spec fn wf(self) -> bool {
        &&& 0 <= self.quantity <= MAX_FIXED
        &&& self.price.wf() && self.price.code == Code::PLN
        &&& self.commission.wf() && self.commission.code == Code::PLN
    }

    /// The lot a Buy of `quantity` at `price` with `commission` opens.
    pub fn new(timestamp: &Timestamp, quantity: i128, price: &Money, commission: &Money) -> (b:
        Block)
        ensures
            b == (Block {
                timestamp: *timestamp,
                quantity,
                price: price.pln,
                commission: commission.pln,
            }),
    {
        Block { timestamp: *timestamp, quantity, price: price.pln, commission: commission.pln }
    }
}

/// The open lots of one symbol, oldest first.
#[derive(Debug)]
pub struct SymbolBlocks {
    pub symbol: String,
    pub blocks: VecDeque<Block>,
}

/// The lot ledger: per-symbol FIFO queues of open lots.
#[derive(Debug)]
pub struct Stock {
    pub blocks: Vec<SymbolBlocks>,
}

/// The index of `sym` in a ledger model, or -1.
pub open spec fn key_index(entries: Seq<(Seq<char>, Seq<Block>)>, sym: Seq<char>) -> int
    decreases entries.len(),
{
    if entries.len() == 0 {
        -1
    } else if entries[0].0 == sym {
        0
    } else {
        let r = key_index(entries.drop_first(), sym);
        if r == -1 {
            -1
        } else {
            r + 1
        }
    }
}

/// Where `key_index` lands.
pub proof fn lemma_key_index_range(entries: Seq<(Seq<char>, Seq<Block>)>, sym: Seq<char>)
    ensures
        -1 <= key_index(entries, sym) < entries.len(),
        key_index(entries, sym) >= 0 ==> entries[key_index(entries, sym)].0 == sym,
        forall|j: int| 0 <= j < entries.len() && entries[j].0 == sym ==> key_index(entries, sym)
            >= 0,
    decreases entries.len(),
{
    if entries.len() > 0 && entries[0].0 != sym {
        lemma_key_index_range(entries.drop_first(), sym);
        assert forall|j: int|
            0 <= j < entries.len() && entries[j].0 == sym implies key_index(entries, sym) >= 0 by {
            assert(entries.drop_first()[j - 1] == entries[j]);
        }
    }
}

/// The open lots of `sym` in a ledger model, oldest first.
pub open spec fn ledger_lots(entries: Seq<(Seq<char>, Seq<Block>)>, sym: Seq<char>) -> Seq<Block> {
    let i = key_index(entries, sym);
    if i == -1 {
        Seq::empty()
    } else {
        entries[i].1
    }
}

/// The ledger model after appending lot `b` to the back of `sym`'s
/// queue.
pub open spec fn ledger_buy(
    entries: Seq<(Seq<char>, Seq<Block>)>,
    sym: Seq<char>,
    b: Block,
) -> Seq<(Seq<char>, Seq<Block>)> {
    let i = key_index(entries, sym);
    if i == -1 {
        entries.push((sym, seq![b]))
    } else {
        entries.update(i, (sym, entries[i].1.push(b)))
    }
}

/// The ledger model after replacing `sym`'s queue with `lots`.
pub open spec fn ledger_set(
    entries: Seq<(Seq<char>, Seq<Block>)>,
    sym: Seq<char>,
    lots: Seq<Block>,
) -> Seq<(Seq<char>, Seq<Block>)> {
    let i = key_index(entries, sym);
    if i == -1 {
        entries.push((sym, lots))
    } else {
        entries.update(i, (sym, lots))
    }
}

impl Stock {
    /// The abstract ledger: symbol views paired with lot sequences.
    pub open spec fn model(self) -> Seq<(Seq<char>, Seq<Block>)> {
        self.blocks@.map_values(|e: SymbolBlocks| (e.symbol@, e.blocks@))
    }

    /// Distinct symbols, well-formed lots.
    pub open spec fn wf(self) -> bool {
        &&& forall|i: int, j: int|
            0 <= i < j < self.blocks@.len() ==> (#[trigger] self.blocks@[i].symbol@) != (
            #[trigger] self.blocks@[j].symbol@)
        &&& forall|i: int, k: int|
            0 <= i < self.blocks@.len() && 0 <= k < self.blocks@[i].blocks@.len() ==> (
            #[trigger] self.blocks@[i].blocks@[k]).wf()
    }

    /// An empty ledger.
    pub fn new() -> (s: Stock)
        ensures
            s.wf(),
            s.model() == Seq::<(Seq<char>, Seq<Block>)>::empty(),
    {
        let s = Stock { blocks: Vec::new() };
        proof {
            assert(s.model() =~= Seq::<(Seq<char>, Seq<Block>)>::empty());
        }
        s
    }
}

/// The position of `symbol`'s queue in the ledger.
fn find_symbol(entries: &Vec<SymbolBlocks>, symbol: &String) -> (r: Option<usize>)
    ensures
        ({
            let m = entries@.map_values(|e: SymbolBlocks| (e.symbol@, e.blocks@));
            match r {
                Some(i) => key_index(m, symbol@) == i as int && i < entries@.len(),
                None => key_index(m, symbol@) == -1,
            }
        }),
{
    let ghost m = entries@.map_values(|e: SymbolBlocks| (e.symbol@, e.blocks@));
    let n = entries.len();
    let mut i: usize = 0;
    proof {
        assert(m.skip(0) =~= m);
    }
    while i < n
        invariant
            i <= n,
            n == entries@.len(),
            m == entries@.map_values(|e: SymbolBlocks| (e.symbol@, e.blocks@)),
            key_index(m, symbol@) == (if key_index(m.skip(i as int), symbol@) == -1 {
                -1int
            } else {
                i + key_index(m.skip(i as int), symbol@)
            }),
        decreases n - i,
    {
        proof {
            assert(m.skip(i as int)[0] == m[i as int]);
        }
        if entries[i].symbol == *symbol {
            return Some(i);
        }
        proof {
            assert(m.skip(i as int).drop_first() =~= m.skip(i + 1));
            lemma_key_index_range(m.skip(i + 1), symbol@);
            assert(key_index(m.skip(i as int), symbol@) == (if key_index(m.skip(i + 1), symbol@)
                == -1 {
                -1int
            } else {
                key_index(m.skip(i + 1), symbol@) + 1
            }));
        }
        i = i + 1;
    }
    proof {
        assert(m.skip(i as int) =~= Seq::<(Seq<char>, Seq<Block>)>::empty());
    }
    None
}

impl Stock {
    /// A Buy: append a new lot to the back of the symbol's queue.
    pub fn buy(&mut self, activity: &Activity, quantity: i128, price: &Money, commission: &Money)
        requires
            old(self).wf(),
            0 <= quantity <= MAX_FIXED,
            price.wf(),
            commission.wf(),
        ensures
            final (self).wf(),
            final (self).model() == ledger_buy(
                old(self).model(),
                activity.symbol@,
                Block {
                    timestamp: activity.timestamp,
                    quantity,
                    price: price.pln,
                    commission: commission.pln,
                },
            ),
    {
        let ghost m0 = self.model();
        let ghost sym = activity.symbol@;
        let block = Block::new(&activity.timestamp, quantity, price, commission);
        proof {
            lemma_key_index_range(m0, sym);
        }
        match find_symbol(&self.blocks, &activity.symbol) {
            Some(i) => {
                let ghost entries0 = self.blocks@;
                let mut entry = self.blocks.remove(i);
                entry.blocks.push_back(block);
                self.blocks.insert(i, entry);
                proof {
                    assert(self.blocks@ =~= entries0.update(i as int, entry));
                    assert(m0[i as int].0 == sym);
                    assert(entry.symbol@ == sym);
                    assert(entry.blocks@ == entries0[i as int].blocks@.push(block));
                    assert(self.model() =~= ledger_buy(m0, sym, block));
                    assert forall|a: int, b: int|
                        0 <= a < b < self.blocks@.len() implies (
                    #[trigger] self.blocks@[a].symbol@) != (#[trigger] self.blocks@[b].symbol@) by {
                        assert(self.blocks@[a].symbol@ == entries0[a].symbol@);
                        assert(self.blocks@[b].symbol@ == entries0[b].symbol@);
                    }
                    assert forall|a: int, k: int|
                        0 <= a < self.blocks@.len() && 0 <= k
                            < self.blocks@[a].blocks@.len() implies (
                    #[trigger] self.blocks@[a].blocks@[k]).wf() by {
                        if a == i as int && k == entries0[a].blocks@.len() {
                            assert(self.blocks@[a].blocks@[k] == block);
                        } else if a == i as int {
                            assert(self.blocks@[a].blocks@[k] == entries0[a].blocks@[k]);
                        } else {
                            assert(self.blocks@[a] == entries0[a]);
                        }
                    }
                }
            },
            None => {
                let ghost entries0 = self.blocks@;
                let mut dq: VecDeque<Block> = VecDeque::new();
                dq.push_back(block);
                let symbol = activity.symbol.clone();
                self.blocks.push(SymbolBlocks { symbol, blocks: dq });
                proof {
                    assert(dq@ =~= seq![block]);
                    assert(self.blocks@ =~= entries0.push(
                        SymbolBlocks { symbol, blocks: dq },
                    ));
                    assert(self.model() =~= ledger_buy(m0, sym, block));
                    assert forall|a: int, b: int|
                        0 <= a < b < self.blocks@.len() implies (
                    #[trigger] self.blocks@[a].symbol@) != (#[trigger] self.blocks@[b].symbol@) by {
                        if b == entries0.len() {
                            assert(m0[a].0 == entries0[a].symbol@);
                        } else {
                            assert(self.blocks@[a] == entries0[a]);
                            assert(self.blocks@[b] == entries0[b]);
                        }
                    }
                    assert forall|a: int, k: int|
                        0 <= a < self.blocks@.len() && 0 <= k
                            < self.blocks@[a].blocks@.len() implies (
                    #[trigger] self.blocks@[a].blocks@[k]).wf() by {
                        if a < entries0.len() {
                            assert(self.blocks@[a] == entries0[a]);
                        } else {
                            assert(self.blocks@[a].blocks@[k] == block);
                        }
                    }
                }
            },
        }
    }
}

/// What consuming quantity from a FIFO queue of lots amounts to.
pub enum SellOutcome {
    /// More quantity was asked than the open lots hold.
    Underflow,
    /// An intermediate amount left the supported fixed-point range.
    TooLarge,
    /// The cost of the consumed quantity, the commissions of the lots
    /// this sale fully depleted, and the lots that remain.
    Taken { cost: int, commission: int, lots: Seq<Block> },
}

/// FIFO depletion: consume `remaining` from the front of `lots`,
/// rounding each lot's cost to two decimal places as it is taken.  A
/// lot's commission is attributed only by the sale that depletes it;
/// a partially consumed lot stays at the front with its commission
/// pending.  `cost` and `commission` accumulate left to right, each
/// sum checked against the supported range.
pub open spec fn take_lots(lots: Seq<Block>, remaining: int, cost: int, commission: int) -> SellOutcome
    decreases lots.len(),
{
    if remaining <= 0 {
        SellOutcome::Taken { cost, commission, lots }
    } else if lots.len() == 0 {
        SellOutcome::Underflow
    } else {
        let b = lots[0];
        let take = if b.quantity <= remaining {
            b.quantity as int
        } else {
            remaining
        };
        let bc = round2_prod(b.price.value as int, take);
        if !in_range(bc) || !in_range(cost + bc) {
            SellOutcome::TooLarge
        } else if b.quantity <= remaining {
            if !in_range(commission + b.commission.value) {
                SellOutcome::TooLarge
            } else {
                take_lots(
                    lots.drop_first(),
                    remaining - take,
                    cost + bc,
                    commission + b.commission.value,
                )
            }
        } else {
            SellOutcome::Taken {
                cost: cost + bc,
                commission,
                lots: lots.update(
                    0,
                    Block {
                        timestamp: b.timestamp,
                        quantity: (b.quantity - take) as i128,
                        price: b.price,
                        commission: b.commission,
                    },
                ),
            }
        }
    }
}

/// What remains of `lots` after `next` are dropped and, when
/// `partial > 0`, the following lot loses `partial` of its quantity.
pub open spec fn rest_of(lots: Seq<Block>, next: int, partial: int) -> Seq<Block>
    recommends
        0 <= next <= lots.len(),
        partial > 0 ==> next < lots.len(),
{
    if partial == 0 {
        lots.skip(next)
    } else {
        lots.skip(next).update(
            0,
            Block {
                timestamp: lots[next].timestamp,
                quantity: (lots[next].quantity - partial) as i128,
                price: lots[next].price,
                commission: lots[next].commission,
            },
        )
    }
}

enum Walked {
    Underflow,
    TooLarge,
    Done { cost: i128, commission: i128, next: usize, partial: i128 },
}

/// Read-only FIFO walk from lot `j` on; mirrors `take_lots` so that a
/// failing sale can leave the ledger untouched.
fn walk_lots(dq: &VecDeque<Block>, j: usize, remaining: i128, cost: i128, commission: i128) -> (r:
    Walked)
    requires
        j <= dq@.len(),
        forall|k: int| 0 <= k < dq@.len() ==> (#[trigger] dq@[k]).wf(),
        0 <= remaining <= MAX_FIXED,
        in_range(cost as int),
        in_range(commission as int),
    ensures
        ({
            let o = take_lots(dq@.skip(j as int), remaining as int, cost as int, commission as int);
            match r {
                Walked::Underflow => o is Underflow,
                Walked::TooLarge => o is TooLarge,
                Walked::Done { cost: c, commission: m, next, partial } => {
                    &&& j <= next <= dq@.len()
                    &&& in_range(c as int) && in_range(m as int)
                    &&& 0 <= partial
                    &&& (partial > 0 ==> next < dq@.len() && partial < dq@[next as int].quantity)
                    &&& o == SellOutcome::Taken {
                        cost: c as int,
                        commission: m as int,
                        lots: rest_of(dq@.skip(j as int), next - j, partial as int),
                    }
                },
            }
        }),
    decreases dq@.len() - j,
{
    if remaining <= 0 {
        proof {
            assert(rest_of(dq@.skip(j as int), 0, 0) =~= dq@.skip(j as int));
        }
        return Walked::Done { cost, commission, next: j, partial: 0 };
    }
    if j >= dq.len() {
        proof {
            assert(dq@.skip(j as int) =~= Seq::<Block>::empty());
        }
        return Walked::Underflow;
    }
    let b = dq[j];
    proof {
        assert(dq@.skip(j as int)[0] == dq@[j as int]);
    }
    let take = if b.quantity <= remaining {
        b.quantity
    } else {
        remaining
    };
    let bc = match crate::fixed::mul_fixed_round(b.price.value, take) {
        Some(v) => v,
        None => {
            return Walked::TooLarge;
        },
    };
    let c2 = match crate::fixed::add_fixed(cost, bc) {
        Some(v) => v,
        None => {
            return Walked::TooLarge;
        },
    };
    if b.quantity <= remaining {
        let m2 = match crate::fixed::add_fixed(commission, b.commission.value) {
            Some(v) => v,
            None => {
                return Walked::TooLarge;
            },
        };
        proof {
            assert(dq@.skip(j as int).drop_first() =~= dq@.skip(j + 1));
        }
        let r2 = walk_lots(dq, j + 1, remaining - take, c2, m2);
        proof {
            if let Walked::Done { next, partial, .. } = &r2 {
                let nx = *next as int;
                let pt = *partial as int;
                assert(dq@.skip(j + 1).skip(nx - (j + 1)) =~= dq@.skip(j as int).skip(nx - j));
                if pt > 0 {
                    assert(dq@.skip(j + 1)[nx - (j + 1)] == dq@.skip(j as int)[nx - j]);
                    assert(rest_of(dq@.skip(j + 1), nx - (j + 1), pt) =~= rest_of(
                        dq@.skip(j as int),
                        nx - j,
                        pt,
                    ));
                } else {
                    assert(rest_of(dq@.skip(j + 1), nx - (j + 1), pt) =~= rest_of(
                        dq@.skip(j as int),
                        nx - j,
                        pt,
                    ));
                }
            }
        }
        r2
    } else {
        proof {
            assert(dq@.skip(j as int).update(
                0,
                Block {
                    timestamp: b.timestamp,
                    quantity: (b.quantity - take) as i128,
                    price: b.price,
                    commission: b.commission,
                },
            ) =~= rest_of(dq@.skip(j as int), 0, take as int));
        }
        Walked::Done { cost: c2, commission, next: j, partial: take }
    }
}

impl Stock {
    /// A Sell: revenue is the sale price times the quantity, rounded
    /// to two decimal places; cost is the consumed lots' rounded
    /// costs, plus the original commissions of the lots this sale
    /// fully depleted, plus the sale's own commission.  Selling more
    /// than the symbol's open lots hold is a fatal underflow; it and
    /// a value leaving the fixed-point range leave the ledger
    /// unchanged.
    pub fn sell(
        &mut self,
        activity: &Activity,
        quantity: i128,
        price: &Money,
        commission: &Money,
    ) -> (r: Result<(Currency, Currency), Error>)
        requires
            old(self).wf(),
            0 <= quantity <= MAX_FIXED,
            price.wf(),
            commission.wf(),
        ensures
            final (self).wf(),
            ({
                let lots0 = ledger_lots(old(self).model(), activity.symbol@);
                let revenue = round2_prod(price.pln.value as int, quantity as int);
                let o = take_lots(lots0, quantity as int, 0, 0);
                match r {
                    Ok(pair) => {
                        &&& in_range(revenue)
                        &&& o matches SellOutcome::Taken { cost, commission: bc, lots: rest }
                            && in_range(cost + bc) && in_range(cost + bc + commission.pln.value)
                            && pair.0 == (Currency { value: revenue as i128, code: Code::PLN })
                            && pair.1 == (Currency {
                            value: (cost + bc + commission.pln.value) as i128,
                            code: Code::PLN,
                        }) && final (self).model() == ledger_set(
                            old(self).model(),
                            activity.symbol@,
                            rest,
                        )
                    },
                    Err(e) => {
                        &&& *final (self) == *old(self)
                        &&& match e {
                            Error::LedgerUnderflow => in_range(revenue) && o is Underflow,
                            Error::OutOfRange => !in_range(revenue) || o is TooLarge || (
                            o matches SellOutcome::Taken { cost, commission: bc, .. } && (!in_range(
                                cost + bc,
                            ) || !in_range(cost + bc + commission.pln.value))),
                            Error::Other { .. } => false,
                        }
                    },
                }
            }),
    {
        let ghost m0 = self.model();
        let ghost sym = activity.symbol@;
        proof {
            lemma_key_index_range(m0, sym);
        }
        let revenue = match crate::fixed::mul_fixed_round(price.pln.value, quantity) {
            Some(v) => v,
            None => {
                return Err(Error::OutOfRange);
            },
        };
        match find_symbol(&self.blocks, &activity.symbol) {
            None => {
                if quantity > 0 {
                    return Err(Error::LedgerUnderflow);
                }
                let total = commission.pln.value;
                let ghost entries0 = self.blocks@;
                let dq: VecDeque<Block> = VecDeque::new();
                let symbol = activity.symbol.clone();
                self.blocks.push(SymbolBlocks { symbol, blocks: dq });
                proof {
                    assert(ledger_lots(m0, sym) =~= Seq::<Block>::empty());
                    assert(dq@ =~= Seq::<Block>::empty());
                    assert(self.model() =~= ledger_set(m0, sym, dq@));
                    assert forall|a: int, b: int|
                        0 <= a < b < self.blocks@.len() implies (
                    #[trigger] self.blocks@[a].symbol@) != (#[trigger] self.blocks@[b].symbol@) by {
                        if b == entries0.len() {
                            assert(m0[a].0 == entries0[a].symbol@);
                        } else {
                            assert(self.blocks@[a] == entries0[a]);
                            assert(self.blocks@[b] == entries0[b]);
                        }
                    }
                    assert forall|a: int, k: int|
                        0 <= a < self.blocks@.len() && 0 <= k
                            < self.blocks@[a].blocks@.len() implies (
                    #[trigger] self.blocks@[a].blocks@[k]).wf() by {
                        assert(a < entries0.len());
                        assert(self.blocks@[a] == entries0[a]);
                    }
                }
                Ok(
                    (
                        Currency { value: revenue, code: Code::PLN },
                        Currency { value: total, code: Code::PLN },
                    ),
                )
            },
            Some(i) => {
                proof {
                    assert(ledger_lots(m0, sym) == self.blocks@[i as int].blocks@);
                    assert forall|k: int|
                        0 <= k < self.blocks@[i as int].blocks@.len() implies (
                    #[trigger] self.blocks@[i as int].blocks@[k]).wf() by {}
                    assert(self.blocks@[i as int].blocks@.skip(0) =~= self.blocks@[i as int].blocks@);
                }
                let outcome = walk_lots(&self.blocks[i].blocks, 0, quantity, 0, 0);
                match outcome {
                    Walked::Underflow => Err(Error::LedgerUnderflow),
                    Walked::TooLarge => Err(Error::OutOfRange),
                    Walked::Done { cost, commission: bc, next, partial } => {
                        let t1 = match crate::fixed::add_fixed(cost, bc) {
                            Some(v) => v,
                            None => {
                                return Err(Error::OutOfRange);
                            },
                        };
                        let total = match crate::fixed::add_fixed(t1, commission.pln.value) {
                            Some(v) => v,
                            None => {
                                return Err(Error::OutOfRange);
                            },
                        };
                        let ghost entries0 = self.blocks@;
                        let ghost lots0 = self.blocks@[i as int].blocks@;
                        let ghost rest = rest_of(lots0, next as int, partial as int);
                        let mut entry = self.blocks.remove(i);
                        let ghost symbol0 = entry.symbol;
                        let mut k: usize = 0;
                        while k < next
                            invariant
                                k <= next,
                                next <= lots0.len(),
                                entry.blocks@ == lots0.skip(k as int),
                                entry.symbol == symbol0,
                            decreases next - k,
                        {
                            proof {
                                assert(lots0.skip(k as int).len() > 0);
                            }
                            let popped = entry.blocks.pop_front();
                            proof {
                                assert(popped is Some);
                                assert(lots0.skip(k as int).subrange(
                                    1,
                                    lots0.skip(k as int).len() as int,
                                ) =~= lots0.skip(k + 1));
                            }
                            k = k + 1;
                        }
                        if partial > 0 {
                            let mut front = entry.blocks.pop_front().unwrap();
                            front.quantity = front.quantity - partial;
                            entry.blocks.push_front(front);
                            proof {
                                assert(lots0.skip(next as int)[0] == lots0[next as int]);
                                assert(lots0.skip(next as int).subrange(
                                    1,
                                    lots0.skip(next as int).len() as int,
                                ) =~= lots0.skip(next as int).drop_first());
                                assert(entry.blocks@ =~= rest);
                            }
                        } else {
                            proof {
                                assert(entry.blocks@ =~= rest);
                            }
                        }
                        self.blocks.insert(i, entry);
                        proof {
                            assert(self.blocks@ =~= entries0.update(i as int, entry));
                            assert(m0[i as int].0 == sym);
                            assert(entry.symbol@ == sym);
                            assert(self.model() =~= ledger_set(m0, sym, rest));
                            assert forall|a: int, b: int|
                                0 <= a < b < self.blocks@.len() implies (
                            #[trigger] self.blocks@[a].symbol@) != (
                            #[trigger] self.blocks@[b].symbol@) by {
                                assert(self.blocks@[a].symbol@ == entries0[a].symbol@);
                                assert(self.blocks@[b].symbol@ == entries0[b].symbol@);
                            }
                            assert forall|a: int, k2: int|
                                0 <= a < self.blocks@.len() && 0 <= k2
                                    < self.blocks@[a].blocks@.len() implies (
                            #[trigger] self.blocks@[a].blocks@[k2]).wf() by {
                                if a == i as int {
                                    if partial as int > 0 && k2 == 0 {
                                        assert(rest[0].quantity == lots0[next as int].quantity
                                            - partial);
                                        assert(lots0[next as int].wf());
                                    } else {
                                        assert(rest[k2] == lots0[next + k2]);
                                        assert(lots0[next + k2].wf());
                                    }
                                } else {
                                    assert(self.blocks@[a] == entries0[a]);
                                }
                            }
                        }
                        Ok(
                            (
                                Currency { value: revenue, code: Code::PLN },
                                Currency { value: total, code: Code::PLN },
                            ),
                        )
                    },
                }
            },
        }
    }
}

/// A domestic amount of `v` hundredths.
pub open spec fn pln(v: int) -> Currency {
    Currency { value: v as i128, code: Code::PLN }
}

/// Per-symbol, per-year accumulators, all domestic.
#[derive(Debug, Clone, Copy, PartialEq, Eq, Structural)]
pub struct TaxPosition {
    pub dividend: Currency,
    pub dividend_withholding_tax: Currency,
    pub stock_revenue: Currency,
    pub stock_cost: Currency,
}

/// One year's tax figures, per symbol or summed across symbols.
#[derive(Debug, Clone, Copy, PartialEq, Eq, Structural)]
pub struct TaxReturn {
    pub dividend_tax: Currency,
    pub stock_revenue: Currency,
    pub stock_cost: Currency,
    pub stock_income: Currency,
    pub stock_loss: Currency,
    pub stock_tax: Currency,
}

pub open spec fn position_wf(p: TaxPosition) -> bool {
    &&& p.dividend.wf() && p.dividend.code == Code::PLN
    &&& p.dividend_withholding_tax.wf() && p.dividend_withholding_tax.code == Code::PLN
    &&& p.stock_revenue.wf() && p.stock_revenue.code == Code::PLN
    &&& p.stock_cost.wf() && p.stock_cost.code == Code::PLN
}

pub open spec fn return_wf(t: TaxReturn) -> bool {
    &&& t.dividend_tax.wf() && t.dividend_tax.code == Code::PLN
    &&& t.stock_revenue.wf() && t.stock_revenue.code == Code::PLN
    &&& t.stock_cost.wf() && t.stock_cost.code == Code::PLN
    &&& t.stock_income.wf() && t.stock_income.code == Code::PLN
    &&& t.stock_loss.wf() && t.stock_loss.code == Code::PLN
    &&& t.stock_tax.wf() && t.stock_tax.code == Code::PLN
}

impl TaxPosition {
    /// Fresh accumulators, all zero.
    pub open spec fn zero() -> TaxPosition {
        TaxPosition {
            dividend: pln(0),
            dividend_withholding_tax: pln(0),
            stock_revenue: pln(0),
            stock_cost: pln(0),
        }
    }
}

impl Default for TaxPosition {
    fn default() -> (p: TaxPosition)
        ensures
            p == TaxPosition::zero(),
    {
        TaxPosition {
            dividend: Currency { value: 0, code: Code::PLN },
            dividend_withholding_tax: Currency { value: 0, code: Code::PLN },
            stock_revenue: Currency { value: 0, code: Code::PLN },
            stock_cost: Currency { value: 0, code: Code::PLN },
        }
    }
}

impl TaxReturn {
    /// An all-zero return, the fold's starting point.
    pub open spec fn zero() -> TaxReturn {
        TaxReturn {
            dividend_tax: pln(0),
            stock_revenue: pln(0),
            stock_cost: pln(0),
            stock_income: pln(0),
            stock_loss: pln(0),
            stock_tax: pln(0),
        }
    }
}

impl Default for TaxReturn {
    fn default() -> (t: TaxReturn)
        ensures
            t == TaxReturn::zero(),
    {
        TaxReturn {
            dividend_tax: Currency { value: 0, code: Code::PLN },
            stock_revenue: Currency { value: 0, code: Code::PLN },
            stock_cost: Currency { value: 0, code: Code::PLN },
            stock_income: Currency { value: 0, code: Code::PLN },
            stock_loss: Currency { value: 0, code: Code::PLN },
            stock_tax: Currency { value: 0, code: Code::PLN },
        }
    }
}

/// The index of `sym` among the per-symbol positions, or -1.
pub open spec fn pos_index(ps: Seq<(Seq<char>, TaxPosition)>, sym: Seq<char>) -> int
    decreases ps.len(),
{
    if ps.len() == 0 {
        -1
    } else if ps[0].0 == sym {
        0
    } else {
        let r = pos_index(ps.drop_first(), sym);
        if r == -1 {
            -1
        } else {
            r + 1
        }
    }
}

pub proof fn lemma_pos_index_range(ps: Seq<(Seq<char>, TaxPosition)>, sym: Seq<char>)
    ensures
        -1 <= pos_index(ps, sym) < ps.len(),
        pos_index(ps, sym) >= 0 ==> ps[pos_index(ps, sym)].0 == sym,
        forall|j: int| 0 <= j < ps.len() && ps[j].0 == sym ==> pos_index(ps, sym) >= 0,
    decreases ps.len(),
{
    if ps.len() > 0 && ps[0].0 != sym {
        lemma_pos_index_range(ps.drop_first(), sym);
        assert forall|j: int| 0 <= j < ps.len() && ps[j].0 == sym implies pos_index(ps, sym)
            >= 0 by {
            assert(ps.drop_first()[j - 1] == ps[j]);
        }
    }
}

/// The accumulators of `sym`, fresh when the symbol is new.
pub open spec fn pos_get(ps: Seq<(Seq<char>, TaxPosition)>, sym: Seq<char>) -> TaxPosition {
    let i = pos_index(ps, sym);
    if i == -1 {
        TaxPosition::zero()
    } else {
        ps[i].1
    }
}

/// The positions after `sym`'s accumulators become `p`.
pub open spec fn pos_set(ps: Seq<(Seq<char>, TaxPosition)>, sym: Seq<char>, p: TaxPosition) -> Seq<
    (Seq<char>, TaxPosition),
> {
    let i = pos_index(ps, sym);
    if i == -1 {
        ps.push((sym, p))
    } else {
        ps.update(i, (sym, p))
    }
}

/// `p` with the four accumulators raised by the given amounts.
pub open spec fn bump(p: TaxPosition, d: int, w: int, rv: int, c: int) -> TaxPosition {
    TaxPosition {
        dividend: pln(p.dividend.value + d),
        dividend_withholding_tax: pln(p.dividend_withholding_tax.value + w),
        stock_revenue: pln(p.stock_revenue.value + rv),
        stock_cost: pln(p.stock_cost.value + c),
    }
}

/// All four raised accumulators stay in range.
pub open spec fn bump_ok(p: TaxPosition, d: int, w: int, rv: int, c: int) -> bool {
    &&& in_range(p.dividend.value + d)
    &&& in_range(p.dividend_withholding_tax.value + w)
    &&& in_range(p.stock_revenue.value + rv)
    &&& in_range(p.stock_cost.value + c)
}

/// Replay state: failed for good, or the ledger and positions so far.
pub enum Replay {
    Failed { error: Error },
    Stepped {
        ledger: Seq<(Seq<char>, Seq<Block>)>,
        positions: Seq<(Seq<char>, TaxPosition)>,
    },
}

/// One activity replayed: a Dividend raises the symbol's dividend
/// accumulators, a Buy opens a lot, a Sell consumes lots FIFO and
/// raises the symbol's revenue and cost accumulators.
pub open spec fn replay_one(
    ledger: Seq<(Seq<char>, Seq<Block>)>,
    positions: Seq<(Seq<char>, TaxPosition)>,
    a: Activity,
) -> Replay {
    match a.operation {
        Operation::Buy { quantity, price, commission } => Replay::Stepped {
            ledger: ledger_buy(
                ledger,
                a.symbol@,
                Block {
                    timestamp: a.timestamp,
                    quantity,
                    price: price.pln,
                    commission: commission.pln,
                },
            ),
            positions,
        },
        Operation::Sell { quantity, price, commission } => {
            let revenue = round2_prod(price.pln.value as int, quantity as int);
            if !in_range(revenue) {
                Replay::Failed { error: Error::OutOfRange }
            } else {
                match take_lots(ledger_lots(ledger, a.symbol@), quantity as int, 0, 0) {
                    SellOutcome::Underflow => Replay::Failed { error: Error::LedgerUnderflow },
                    SellOutcome::TooLarge => Replay::Failed { error: Error::OutOfRange },
                    SellOutcome::Taken { cost, commission: bc, lots: rest } => {
                        if !in_range(cost + bc) || !in_range(
                            cost + bc + commission.pln.value,
                        ) {
                            Replay::Failed { error: Error::OutOfRange }
                        } else {
                            let total = cost + bc + commission.pln.value;
                            let p = pos_get(positions, a.symbol@);
                            if !bump_ok(p, 0, 0, revenue, total) {
                                Replay::Failed { error: Error::OutOfRange }
                            } else {
                                Replay::Stepped {
                                    ledger: ledger_set(ledger, a.symbol@, rest),
                                    positions: pos_set(
                                        positions,
                                        a.symbol@,
                                        bump(p, 0, 0, revenue, total),
                                    ),
                                }
                            }
                        }
                    },
                }
            }
        },
        Operation::Dividend { value, withholding_tax } => {
            let p = pos_get(positions, a.symbol@);
            let d = value.pln.value as int;
            let w = withholding_tax.pln.value as int;
            if !bump_ok(p, d, w, 0, 0) {
                Replay::Failed { error: Error::OutOfRange }
            } else {
                Replay::Stepped {
                    ledger,
                    positions: pos_set(positions, a.symbol@, bump(p, d, w, 0, 0)),
                }
            }
        },
    }
}

/// The activities replayed in order, stopping at the first failure.
pub open spec fn replay(
    ledger: Seq<(Seq<char>, Seq<Block>)>,
    positions: Seq<(Seq<char>, TaxPosition)>,
    acts: Seq<Activity>,
) -> Replay
    decreases acts.len(),
{
    if acts.len() == 0 {
        Replay::Stepped { ledger, positions }
    } else {
        match replay_one(ledger, positions, acts[0]) {
            Replay::Failed { error } => Replay::Failed { error },
            Replay::Stepped { ledger: l2, positions: p2 } => replay(l2, p2, acts.drop_first()),
        }
    }
}

/// A symbol's tax return at year end: the dividend is taxed at
/// nineteen percent with the foreign withholding credited against it
/// (a negative result is a valid credit); revenue less cost splits by
/// sign into income and loss, of which at most one is nonzero; the
/// income is taxed at nineteen percent.
pub open spec fn year_end(p: TaxPosition) -> Option<TaxReturn> {
    let dt = round2_prod(p.dividend.value as int, 1900);
    if !in_range(dt) {
        None
    } else {
        let dtax = dt - p.dividend_withholding_tax.value;
        if !in_range(dtax) {
            None
        } else {
            let value = p.stock_revenue.value - p.stock_cost.value;
            if !in_range(value) {
                None
            } else {
                let income: int = if value > 0 {
                    value
                } else {
                    0
                };
                let loss: int = if value > 0 {
                    0
                } else {
                    -value
                };
                let stax = round2_prod(income, 1900);
                if !in_range(stax) {
                    None
                } else {
                    Some(
                        TaxReturn {
                            dividend_tax: pln(dtax),
                            stock_revenue: p.stock_revenue,
                            stock_cost: p.stock_cost,
                            stock_income: pln(income),
                            stock_loss: pln(loss),
                            stock_tax: pln(stax),
                        },
                    )
                }
            }
        }
    }
}

/// Every symbol's year-end return, in position order.
pub open spec fn year_end_all(ps: Seq<(Seq<char>, TaxPosition)>) -> Option<
    Seq<(Seq<char>, TaxReturn)>,
> {
    if forall|i: int| 0 <= i < ps.len() ==> (#[trigger] year_end(ps[i].1)) is Some {
        Some(Seq::new(ps.len(), |i: int| (ps[i].0, year_end(ps[i].1).unwrap())))
    } else {
        None
    }
}

/// Field-wise sum of two returns, each field checked for range.
pub open spec fn add_returns(a: TaxReturn, b: TaxReturn) -> Option<TaxReturn> {
    if in_range(a.dividend_tax.value + b.dividend_tax.value) && in_range(
        a.stock_revenue.value + b.stock_revenue.value,
    ) && in_range(a.stock_cost.value + b.stock_cost.value) && in_range(
        a.stock_income.value + b.stock_income.value,
    ) && in_range(a.stock_loss.value + b.stock_loss.value) && in_range(
        a.stock_tax.value + b.stock_tax.value,
    ) {
        Some(
            TaxReturn {
                dividend_tax: pln(a.dividend_tax.value + b.dividend_tax.value),
                stock_revenue: pln(a.stock_revenue.value + b.stock_revenue.value),
                stock_cost: pln(a.stock_cost.value + b.stock_cost.value),
                stock_income: pln(a.stock_income.value + b.stock_income.value),
                stock_loss: pln(a.stock_loss.value + b.stock_loss.value),
                stock_tax: pln(a.stock_tax.value + b.stock_tax.value),
            },
        )
    } else {
        None
    }
}

/// The year's aggregate: per-symbol returns summed field by field
/// onto `acc` — never recomputed from summed revenue and cost.
pub open spec fn sum_returns(rs: Seq<(Seq<char>, TaxReturn)>, acc: TaxReturn) -> Option<TaxReturn>
    decreases rs.len(),
{
    if rs.len() == 0 {
        Some(acc)
    } else {
        match add_returns(acc, rs[0].1) {
            None => None,
            Some(a2) => sum_returns(rs.drop_first(), a2),
        }
    }
}

/// The string-keyed view of the position table.
pub open spec fn positions_model(ps: Seq<(String, TaxPosition)>) -> Seq<(Seq<char>, TaxPosition)> {
    ps.map_values(|p: (String, TaxPosition)| (p.0@, p.1))
}

/// The string-keyed view of a per-symbol return table.
pub open spec fn symbols_model(ss: Seq<(String, TaxReturn)>) -> Seq<(Seq<char>, TaxReturn)> {
    ss.map_values(|p: (String, TaxReturn)| (p.0@, p.1))
}

/// The position of `symbol` in the position table.
fn find_position(ps: &Vec<(String, TaxPosition)>, symbol: &String) -> (r: Option<usize>)
    ensures
        ({
            let m = positions_model(ps@);
            match r {
                Some(i) => pos_index(m, symbol@) == i as int && i < ps@.len(),
                None => pos_index(m, symbol@) == -1,
            }
        }),
{
    let ghost m = positions_model(ps@);
    let n = ps.len();
    let mut i: usize = 0;
    proof {
        assert(m.skip(0) =~= m);
    }
    while i < n
        invariant
            i <= n,
            n == ps@.len(),
            m == positions_model(ps@),
            pos_index(m, symbol@) == (if pos_index(m.skip(i as int), symbol@) == -1 {
                -1int
            } else {
                i + pos_index(m.skip(i as int), symbol@)
            }),
        decreases n - i,
    {
        proof {
            assert(m.skip(i as int)[0] == m[i as int]);
        }
        if ps[i].0 == *symbol {
            return Some(i);
        }
        proof {
            assert(m.skip(i as int).drop_first() =~= m.skip(i + 1));
            lemma_pos_index_range(m.skip(i + 1), symbol@);
            assert(pos_index(m.skip(i as int), symbol@) == (if pos_index(m.skip(i + 1), symbol@)
                == -1 {
                -1int
            } else {
                pos_index(m.skip(i + 1), symbol@) + 1
            }));
        }
        i = i + 1;
    }
    proof {
        assert(m.skip(i as int) =~= Seq::<(Seq<char>, TaxPosition)>::empty());
    }
    None
}

/// Raise `symbol`'s accumulators, creating them at zero first when the
/// symbol is new; refuse when a raised value would leave the range.
fn add_to_position(
    ps: &mut Vec<(String, TaxPosition)>,
    symbol: &String,
    d: i128,
    w: i128,
    rv: i128,
    c: i128,
) -> (r: Result<(), Error>)
    requires
        in_range(d as int),
        in_range(w as int),
        in_range(rv as int),
        in_range(c as int),
        forall|k: int| 0 <= k < old(ps)@.len() ==> position_wf(#[trigger] old(ps)@[k].1),
    ensures
        forall|k: int| 0 <= k < final (ps)@.len() ==> position_wf(#[trigger] final (ps)@[k].1),
        ({
            let m0 = positions_model(old(ps)@);
            let p = pos_get(m0, symbol@);
            match r {
                Ok(u) => bump_ok(p, d as int, w as int, rv as int, c as int) && positions_model(
                    final (ps)@,
                ) == pos_set(m0, symbol@, bump(p, d as int, w as int, rv as int, c as int)),
                Err(e) => !bump_ok(p, d as int, w as int, rv as int, c as int) && e
                    == Error::OutOfRange && final (ps)@ == old(ps)@,
            }
        }),
{
    let ghost m0 = positions_model(ps@);
    proof {
        lemma_pos_index_range(m0, symbol@);
    }
    let (idx, cur): (Option<usize>, TaxPosition) = match find_position(ps, symbol) {
        Some(i) => (Some(i), ps[i].1),
        None => (None, TaxPosition::default()),
    };
    let d2 = match crate::fixed::add_fixed(cur.dividend.value, d) {
        Some(v) => v,
        None => {
            return Err(Error::OutOfRange);
        },
    };
    let w2 = match crate::fixed::add_fixed(cur.dividend_withholding_tax.value, w) {
        Some(v) => v,
        None => {
            return Err(Error::OutOfRange);
        },
    };
    let rv2 = match crate::fixed::add_fixed(cur.stock_revenue.value, rv) {
        Some(v) => v,
        None => {
            return Err(Error::OutOfRange);
        },
    };
    let c2 = match crate::fixed::add_fixed(cur.stock_cost.value, c) {
        Some(v) => v,
        None => {
            return Err(Error::OutOfRange);
        },
    };
    let next = TaxPosition {
        dividend: Currency { value: d2, code: Code::PLN },
        dividend_withholding_tax: Currency { value: w2, code: Code::PLN },
        stock_revenue: Currency { value: rv2, code: Code::PLN },
        stock_cost: Currency { value: c2, code: Code::PLN },
    };
    let ghost entries0 = ps@;
    match idx {
        Some(i) => {
            let mut entry = ps.remove(i);
            entry.1 = next;
            ps.insert(i, entry);
            proof {
                assert(ps@ =~= entries0.update(i as int, entry));
                assert(positions_model(ps@) =~= pos_set(
                    m0,
                    symbol@,
                    bump(pos_get(m0, symbol@), d as int, w as int, rv as int, c as int),
                ));
                assert forall|k: int| 0 <= k < ps@.len() implies position_wf(
                    #[trigger] ps@[k].1,
                ) by {
                    if k != i as int {
                        assert(ps@[k] == entries0[k]);
                    }
                }
            }
        },
        None => {
            let symbol2 = symbol.clone();
            ps.push((symbol2, next));
            proof {
                assert(ps@ =~= entries0.push((symbol2, next)));
                assert(positions_model(ps@) =~= pos_set(
                    m0,
                    symbol@,
                    bump(pos_get(m0, symbol@), d as int, w as int, rv as int, c as int),
                ));
                assert forall|k: int| 0 <= k < ps@.len() implies position_wf(
                    #[trigger] ps@[k].1,
                ) by {
                    if k < entries0.len() {
                        assert(ps@[k] == entries0[k]);
                    }
                }
            }
        },
    }
    Ok(())
}

/// Runtime `year_end`, through the nineteen-percent `Tax` rate.
fn year_end_exec(p: &TaxPosition) -> (r: Option<TaxReturn>)
    requires
        position_wf(*p),
    ensures
        r == year_end(*p),
{
    let rate = crate::tax::Tax::new(19).get_value();
    let dt = match crate::fixed::mul_fixed_round(p.dividend.value, rate) {
        Some(v) => v,
        None => {
            return None;
        },
    };
    let dtax = match crate::fixed::sub_fixed(dt, p.dividend_withholding_tax.value) {
        Some(v) => v,
        None => {
            return None;
        },
    };
    let value = match crate::fixed::sub_fixed(p.stock_revenue.value, p.stock_cost.value) {
        Some(v) => v,
        None => {
            return None;
        },
    };
    let income: i128 = if value > 0 {
        value
    } else {
        0
    };
    let loss: i128 = if value > 0 {
        0
    } else {
        -value
    };
    let stax = match crate::fixed::mul_fixed_round(income, rate) {
        Some(v) => v,
        None => {
            return None;
        },
    };
    Some(
        TaxReturn {
            dividend_tax: Currency { value: dtax, code: Code::PLN },
            stock_revenue: p.stock_revenue,
            stock_cost: p.stock_cost,
            stock_income: Currency { value: income, code: Code::PLN },
            stock_loss: Currency { value: loss, code: Code::PLN },
            stock_tax: Currency { value: stax, code: Code::PLN },
        },
    )
}

/// Sign-split law: at year end, revenue less cost goes entirely to
/// income or entirely to loss — never both — and neither is negative;
/// only income is taxed.
pub proof fn lemma_income_loss_split(p: TaxPosition)
    requires
        position_wf(p),
    ensures
        year_end(p) matches Some(t) ==> {
            &&& t.stock_income.value >= 0 && t.stock_loss.value >= 0
            &&& t.stock_income.value == 0 || t.stock_loss.value == 0
            &&& t.stock_income.value - t.stock_loss.value == p.stock_revenue.value
                - p.stock_cost.value
            &&& t.stock_tax.value == round2_prod(t.stock_income.value as int, 1900)
        },
{
}

/// A year-end return keeps every field in range.
proof fn lemma_year_end_wf(p: TaxPosition)
    requires
        position_wf(p),
    ensures
        year_end(p) matches Some(t) ==> return_wf(t),
{
}

/// Runtime `add_returns`.
fn add_returns_exec(a: &TaxReturn, b: &TaxReturn) -> (r: Option<TaxReturn>)
    requires
        return_wf(*a),
        return_wf(*b),
    ensures
        r == add_returns(*a, *b),
{
    let dt = match crate::fixed::add_fixed(a.dividend_tax.value, b.dividend_tax.value) {
        Some(v) => v,
        None => {
            return None;
        },
    };
    let rv = match crate::fixed::add_fixed(a.stock_revenue.value, b.stock_revenue.value) {
        Some(v) => v,
        None => {
            return None;
        },
    };
    let c = match crate::fixed::add_fixed(a.stock_cost.value, b.stock_cost.value) {
        Some(v) => v,
        None => {
            return None;
        },
    };
    let inc = match crate::fixed::add_fixed(a.stock_income.value, b.stock_income.value) {
        Some(v) => v,
        None => {
            return None;
        },
    };
    let lo = match crate::fixed::add_fixed(a.stock_loss.value, b.stock_loss.value) {
        Some(v) => v,
        None => {
            return None;
        },
    };
    let tx = match crate::fixed::add_fixed(a.stock_tax.value, b.stock_tax.value) {
        Some(v) => v,
        None => {
            return None;
        },
    };
    Some(
        TaxReturn {
            dividend_tax: Currency { value: dt, code: Code::PLN },
            stock_revenue: Currency { value: rv, code: Code::PLN },
            stock_cost: Currency { value: c, code: Code::PLN },
            stock_income: Currency { value: inc, code: Code::PLN },
            stock_loss: Currency { value: lo, code: Code::PLN },
            stock_tax: Currency { value: tx, code: Code::PLN },
        },
    )
}

/// One year's outcome: every symbol's return and their field-wise sum.
#[derive(Debug)]
pub struct AnnualSummary {
    pub year: i32,
    pub symbols: Vec<(String, TaxReturn)>,
    pub total: TaxReturn,
}

/// Replay the activities `lo..hi` (one calendar year of the sorted
/// log) through the ledger, then close the year: per symbol a tax
/// return, and their field-wise sum as the year's aggregate.  The
/// ledger is never reset — open lots carry across years.  On a failure
/// the run must be abandoned: the ledger is left mid-replay and no
/// partial output is produced.
pub fn process_annual_activities(
    stock: &mut Stock,
    year: i32,
    activities: &Vec<Activity>,
    lo: usize,
    hi: usize,
) -> (r: Result<AnnualSummary, Error>)
    requires
        old(stock).wf(),
        lo <= hi <= activities@.len(),
        forall|k: int| lo <= k < hi ==> (#[trigger] activities@[k]).wf(),
    ensures
        final (stock).wf(),
        ({
            let acts = activities@.subrange(lo as int, hi as int);
            match replay(old(stock).model(), Seq::empty(), acts) {
                Replay::Failed { error } => r == Err::<AnnualSummary, Error>(error),
                Replay::Stepped { ledger, positions } => {
                    &&& final (stock).model() == ledger
                    &&& match year_end_all(positions) {
                        None => r == Err::<AnnualSummary, Error>(Error::OutOfRange),
                        Some(rets) => match sum_returns(rets, TaxReturn::zero()) {
                            None => r == Err::<AnnualSummary, Error>(Error::OutOfRange),
                            Some(total) => r matches Ok(s) && s.year == year && symbols_model(
                                s.symbols@,
                            ) == rets && s.total == total,
                        },
                    }
                },
            }
        }),
{
    let ghost acts = activities@.subrange(lo as int, hi as int);
    let ghost m0 = stock.model();
    let mut positions: Vec<(String, TaxPosition)> = Vec::new();
    let mut idx: usize = lo;
    proof {
        assert(acts.skip(0) =~= acts);
        assert(positions_model(positions@) =~= Seq::<(Seq<char>, TaxPosition)>::empty());
    }
    while idx < hi
        invariant
            lo <= idx <= hi <= activities@.len(),
            m0 == old(stock).model(),
            acts == activities@.subrange(lo as int, hi as int),
            forall|k: int| lo <= k < hi ==> (#[trigger] activities@[k]).wf(),
            stock.wf(),
            forall|k: int| 0 <= k < positions@.len() ==> position_wf(#[trigger] positions@[k].1),
            replay(m0, Seq::empty(), acts) == replay(
                stock.model(),
                positions_model(positions@),
                acts.skip(idx - lo),
            ),
        decreases hi - idx,
    {
        let ghost rel = idx - lo;
        proof {
            assert(acts.skip(rel)[0] == acts[rel]);
            assert(acts[rel] == activities@[idx as int]);
            assert(acts.skip(rel).drop_first() =~= acts.skip(rel + 1));
        }
        let a = &activities[idx];
        match &a.operation {
            Operation::Buy { quantity, price, commission } => {
                stock.buy(a, *quantity, price, commission);
            },
            Operation::Sell { quantity, price, commission } => {
                match stock.sell(a, *quantity, price, commission) {
                    Ok(pair) => {
                        match add_to_position(
                            &mut positions,
                            &a.symbol,
                            0,
                            0,
                            pair.0.value,
                            pair.1.value,
                        ) {
                            Ok(_) => {
                            },
                            Err(e) => {
                                return Err(e);
                            },
                        }
                    },
                    Err(e) => {
                        return Err(e);
                    },
                }
            },
            Operation::Dividend { value, withholding_tax } => {
                match add_to_position(
                    &mut positions,
                    &a.symbol,
                    value.pln.value,
                    withholding_tax.pln.value,
                    0,
                    0,
                ) {
                    Ok(_) => {
                    },
                    Err(e) => {
                        return Err(e);
                    },
                }
            },
        }
        idx = idx + 1;
    }
    proof {
        assert(acts.skip(idx - lo) =~= Seq::<Activity>::empty());
    }
    // year end: close every symbol's position
    let ghost psm = positions_model(positions@);
    let n = positions.len();
    let mut symbols: Vec<(String, TaxReturn)> = Vec::new();
    let mut total: TaxReturn = TaxReturn::default();
    let mut i: usize = 0;
    proof {
        if let Some(rets) = year_end_all(psm) {
            assert(rets.skip(0) =~= rets);
        }
    }
    while i < n
        invariant
            i <= n,
            n == positions@.len(),
            m0 == old(stock).model(),
            acts == activities@.subrange(lo as int, hi as int),
            stock.wf(),
            replay(m0, Seq::empty(), acts) == (Replay::Stepped {
                ledger: stock.model(),
                positions: psm,
            }),
            psm == positions_model(positions@),
            forall|k: int| 0 <= k < positions@.len() ==> position_wf(#[trigger] positions@[k].1),
            forall|k: int| 0 <= k < i ==> (#[trigger] year_end(psm[k].1)) is Some,
            symbols@.len() == i,
            forall|k: int|
                0 <= k < i ==> (#[trigger] symbols@[k].0@) == psm[k].0 && symbols@[k].1 == year_end(
                    psm[k].1,
                ).unwrap(),
            return_wf(total),
            (year_end_all(psm) matches Some(rets) ==> sum_returns(rets, TaxReturn::zero())
                == sum_returns(rets.skip(i as int), total)),
        decreases n - i,
    {
        let p = positions[i].1;
        proof {
            assert(psm[i as int].1 == positions@[i as int].1);
        }
        match year_end_exec(&p) {
            None => {
                proof {
                    assert(year_end(psm[i as int].1) is None);
                    assert(year_end_all(psm) is None);
                }
                return Err(Error::OutOfRange);
            },
            Some(ret) => {
                proof {
                    lemma_year_end_wf(psm[i as int].1);
                }
                match add_returns_exec(&total, &ret) {
                    None => {
                        proof {
                            if let Some(rets) = year_end_all(psm) {
                                assert(rets.skip(i as int)[0] == rets[i as int]);
                                assert(rets[i as int].1 == year_end(psm[i as int].1).unwrap());
                                assert(sum_returns(rets, TaxReturn::zero()) is None);
                            }
                        }
                        return Err(Error::OutOfRange);
                    },
                    Some(t2) => {
                        proof {
                            if let Some(rets) = year_end_all(psm) {
                                assert(rets.skip(i as int)[0] == rets[i as int]);
                                assert(rets[i as int].1 == year_end(psm[i as int].1).unwrap());
                                assert(rets.skip(i as int).drop_first() =~= rets.skip(i + 1));
                            }
                        }
                        total = t2;
                        let sym2 = positions[i].0.clone();
                        symbols.push((sym2, ret));
                        i = i + 1;
                    },
                }
            },
        }
    }
    proof {
        assert(year_end_all(psm) is Some);
        if let Some(rets) = year_end_all(psm) {
            assert(rets.skip(n as int) =~= Seq::<(Seq<char>, TaxReturn)>::empty());
            assert(symbols_model(symbols@) =~= rets);
        }
    }
    Ok(AnnualSummary { year, symbols, total })
}

/// The calendar year an activity belongs to: that of its own
/// timestamp, never of any lot's.
pub open spec fn year_of(a: Activity) -> int {
    a.timestamp.date.year as int
}

/// Length of the leading run of activities dated in year `y`.
pub open spec fn run_len(acts: Seq<Activity>, y: int) -> int
    decreases acts.len(),
{
    if acts.len() == 0 || year_of(acts[0]) != y {
        0
    } else {
        1 + run_len(acts.drop_first(), y)
    }
}

pub proof fn lemma_run_len(acts: Seq<Activity>, y: int)
    ensures
        0 <= run_len(acts, y) <= acts.len(),
        acts.len() > 0 && year_of(acts[0]) == y ==> run_len(acts, y) >= 1,
    decreases acts.len(),
{
    if acts.len() > 0 && year_of(acts[0]) == y {
        lemma_run_len(acts.drop_first(), y);
    }
}

/// The members of the leading run are dated in year `y`; the activity
/// after it, if any, is not.
pub proof fn lemma_run_members(acts: Seq<Activity>, y: int)
    ensures
        forall|i: int| 0 <= i < run_len(acts, y) ==> year_of(#[trigger] acts[i]) == y,
        run_len(acts, y) < acts.len() ==> year_of(acts[run_len(acts, y)]) != y,
    decreases acts.len(),
{
    lemma_run_len(acts, y);
    if acts.len() > 0 && year_of(acts[0]) == y {
        lemma_run_members(acts.drop_first(), y);
        lemma_run_len(acts.drop_first(), y);
        assert forall|i: int| 0 <= i < run_len(acts, y) implies year_of(#[trigger] acts[i])
            == y by {
            if i > 0 {
                assert(acts.drop_first()[i - 1] == acts[i]);
            }
        }
        if run_len(acts, y) < acts.len() {
            assert(acts.drop_first()[run_len(acts, y) - 1] == acts[run_len(acts, y)]);
        }
    }
}

/// Partition law: in a timestamp-sorted log, the leading calendar-year
/// run holds exactly that year's activities — none of the same year
/// appears after it, so splitting off runs is the same as grouping by
/// each activity's own year.
pub proof fn lemma_run_is_year_partition(acts: Seq<Activity>)
    requires
        sorted_by_ts(acts),
        acts.len() > 0,
    ensures
        forall|i: int|
            run_len(acts, year_of(acts[0])) <= i < acts.len() ==> year_of(#[trigger] acts[i])
                != year_of(acts[0]),
{
    let y = year_of(acts[0]);
    let k = run_len(acts, y);
    lemma_run_len(acts, y);
    lemma_run_members(acts, y);
    assert forall|i: int| k <= i < acts.len() implies year_of(#[trigger] acts[i]) != y by {
        assert(acts[k].timestamp.le(acts[i].timestamp) || k == i);
        assert(acts[0].timestamp.le(acts[k].timestamp) || k == 0);
        assert(year_of(acts[k]) != y);
        assert(year_of(acts[k]) >= y);
    }
}

/// A run is pinned by its contents: `k` activities of year `y`
/// followed by the end or a different year.
pub proof fn lemma_run_len_eq(acts: Seq<Activity>, y: int, k: int)
    requires
        0 <= k <= acts.len(),
        forall|i: int| 0 <= i < k ==> year_of(#[trigger] acts[i]) == y,
        k == acts.len() || year_of(acts[k]) != y,
    ensures
        run_len(acts, y) == k,
    decreases acts.len(),
{
    if k > 0 {
        assert(year_of(acts[0]) == y);
        assert forall|i: int| 0 <= i < k - 1 implies year_of(#[trigger] acts.drop_first()[i])
            == y by {
            assert(acts.drop_first()[i] == acts[i + 1]);
        }
        if k < acts.len() {
            assert(acts.drop_first()[k - 1] == acts[k]);
        }
        lemma_run_len_eq(acts.drop_first(), y, k - 1);
    }
}

/// The whole computation: the sorted log split into yearly runs, each
/// replayed through one persistent ledger and closed into a summary.
pub open spec fn command_model(
    ledger: Seq<(Seq<char>, Seq<Block>)>,
    acts: Seq<Activity>,
) -> Result<Seq<(int, Seq<(Seq<char>, TaxReturn)>, TaxReturn)>, Error>
    decreases acts.len(),
    via command_model_dec
{
    if acts.len() == 0 {
        Ok(Seq::empty())
    } else {
        let y = year_of(acts[0]);
        let k = run_len(acts, y);
        match replay(ledger, Seq::empty(), acts.take(k)) {
            Replay::Failed { error } => Err(error),
            Replay::Stepped { ledger: l2, positions } => match year_end_all(positions) {
                None => Err(Error::OutOfRange),
                Some(rets) => match sum_returns(rets, TaxReturn::zero()) {
                    None => Err(Error::OutOfRange),
                    Some(total) => match command_model(l2, acts.skip(k)) {
                        Err(e) => Err(e),
                        Ok(rest) => Ok(seq![(y, rets, total)] + rest),
                    },
                },
            },
        }
    }
}

#[via_fn]
proof fn command_model_dec(ledger: Seq<(Seq<char>, Seq<Block>)>, acts: Seq<Activity>) {
    if acts.len() > 0 {
        lemma_run_len(acts, year_of(acts[0]));
    }
}

/// The abstract value of a summary list.
pub open spec fn summaries_model(v: Seq<AnnualSummary>) -> Seq<
    (int, Seq<(Seq<char>, TaxReturn)>, TaxReturn),
> {
    v.map_values(|s: AnnualSummary| (s.year as int, symbols_model(s.symbols@), s.total))
}

/// Activities in timestamp order.
pub open spec fn sorted_by_ts(s: Seq<Activity>) -> bool {
    forall|i: int, j: int|
        0 <= i < j < s.len() ==> (#[trigger] s[i]).timestamp.le((#[trigger] s[j]).timestamp)
}

/// Compute every year's tax summary from the timestamp-sorted,
/// currency-converted activity log: one pass, one ledger, yearly
/// accumulators, aggregates summed field-wise across symbols.  The
/// computation is all or nothing: the first underflow or out-of-range
/// value abandons it with that error and no output.
pub fn command(activities: &Vec<Activity>) -> (r: Result<Vec<AnnualSummary>, Error>)
    requires
        sorted_by_ts(activities@),
        forall|k: int| 0 <= k < activities@.len() ==> (#[trigger] activities@[k]).wf(),
    ensures
        match r {
            Ok(v) => command_model(Seq::empty(), activities@) == Ok::<
                Seq<(int, Seq<(Seq<char>, TaxReturn)>, TaxReturn)>,
                Error,
            >(summaries_model(v@)),
            Err(e) => command_model(Seq::empty(), activities@) == Err::<
                Seq<(int, Seq<(Seq<char>, TaxReturn)>, TaxReturn)>,
                Error,
            >(e),
        },
{
    let mut stock = Stock::new();
    let mut out: Vec<AnnualSummary> = Vec::new();
    let n = activities.len();
    let mut idx: usize = 0;
    proof {
        assert(activities@.skip(0) =~= activities@);
        assert(summaries_model(out@) =~= Seq::<
            (int, Seq<(Seq<char>, TaxReturn)>, TaxReturn),
        >::empty());
    }
    while idx < n
        invariant
            idx <= n,
            n == activities@.len(),
            forall|k: int| 0 <= k < activities@.len() ==> (#[trigger] activities@[k]).wf(),
            stock.wf(),
            match command_model(stock.model(), activities@.skip(idx as int)) {
                Ok(rest) => command_model(Seq::empty(), activities@) == Ok::<
                    Seq<(int, Seq<(Seq<char>, TaxReturn)>, TaxReturn)>,
                    Error,
                >(summaries_model(out@) + rest),
                Err(e) => command_model(Seq::empty(), activities@) == Err::<
                    Seq<(int, Seq<(Seq<char>, TaxReturn)>, TaxReturn)>,
                    Error,
                >(e),
            },
        decreases n - idx,
    {
        let y = activities[idx].timestamp.date.year;
        let mut j: usize = idx + 1;
        while j < n && activities[j].timestamp.date.year == y
            invariant
                idx < j <= n,
                n == activities@.len(),
                year_of(activities@[idx as int]) == y as int,
                forall|k: int| idx <= k < j ==> year_of(#[trigger] activities@[k]) == y as int,
            decreases n - j,
        {
            j = j + 1;
        }
        let ghost tail = activities@.skip(idx as int);
        let ghost k = (j - idx) as int;
        proof {
            assert forall|i: int| 0 <= i < k implies year_of(#[trigger] tail[i]) == y as int by {
                assert(tail[i] == activities@[idx + i]);
            }
            if k < tail.len() {
                assert(tail[k] == activities@[j as int]);
            }
            lemma_run_len_eq(tail, y as int, k);
            assert(tail[0] == activities@[idx as int]);
            assert(tail.take(k) =~= activities@.subrange(idx as int, j as int));
            assert(tail.skip(k) =~= activities@.skip(j as int));
        }
        match process_annual_activities(&mut stock, y, activities, idx, j) {
            Ok(s) => {
                let ghost out0 = out@;
                out.push(s);
                proof {
                    assert(summaries_model(out@) =~= summaries_model(out0).push(
                        (s.year as int, symbols_model(s.symbols@), s.total),
                    ));
                    if let Ok(rest) = command_model(stock.model(), activities@.skip(j as int)) {
                        assert(summaries_model(out0) + (seq![
                            (y as int, symbols_model(s.symbols@), s.total),
                        ] + rest) =~= summaries_model(out@) + rest);
                    }
                }
                idx = j;
            },
            Err(e) => {
                return Err(e);
            },
        }
    }
    proof {
        assert(activities@.skip(idx as int) =~= Seq::<Activity>::empty());
        assert(summaries_model(out@) + Seq::<
            (int, Seq<(Seq<char>, TaxReturn)>, TaxReturn),
        >::empty() =~= summaries_model(out@));
    }
    Ok(out)
}

/// Zero-gain law: a lot bought with no commission and sold in full at
/// its own price with no sale commission costs exactly its revenue —
/// the realized gain is zero.
pub proof fn lemma_equal_buy_sell_gain_zero(b: Block, q: i128, p: Currency)
    requires
        b.wf(),
        b.quantity == q,
        b.price == p,
        b.commission.value == 0,
        0 <= q,
        in_range(round2_prod(p.value as int, q as int)),
    ensures
        take_lots(seq![b], q as int, 0, 0) matches SellOutcome::Taken {
            cost,
            commission,
            lots: _,
        } && cost + commission + 0 == round2_prod(p.value as int, q as int),
{
    if q > 0 {
        assert(seq![b][0] == b);
        assert(seq![b].drop_first() =~= Seq::<Block>::empty());
        assert(take_lots(Seq::<Block>::empty(), 0, round2_prod(p.value as int, q as int), 0)
            == (SellOutcome::Taken {
            cost: round2_prod(p.value as int, q as int),
            commission: 0int,
            lots: Seq::<Block>::empty(),
        }));
    } else {
        assert(p.value as int * 0 == 0);
        assert(round2_prod(p.value as int, 0) == crate::fixed::round_half_even(
            0,
            crate::fixed::SCALE4 as int,
        ));
        assert(crate::fixed::round_half_even(0, crate::fixed::SCALE4 as int) == 0);
    }
}

/// Commission-attribution law: a sale that leaves part of a lot open
/// attributes none of the lot's commission; the later sale that
/// depletes the remainder attributes the whole original commission,
/// so it is counted exactly once.
pub proof fn lemma_commission_attributed_once(b: Block, q1: i128, q2: i128)
    requires
        b.wf(),
        0 < q1,
        0 < q2,
        q1 + q2 == b.quantity,
        in_range(round2_prod(b.price.value as int, q1 as int)),
        in_range(round2_prod(b.price.value as int, q2 as int)),
    ensures
        ({
            let rest = seq![
                Block {
                    timestamp: b.timestamp,
                    quantity: (b.quantity - q1) as i128,
                    price: b.price,
                    commission: b.commission,
                },
            ];
            &&& take_lots(seq![b], q1 as int, 0, 0) == (SellOutcome::Taken {
                cost: round2_prod(b.price.value as int, q1 as int),
                commission: 0,
                lots: rest,
            })
            &&& take_lots(rest, q2 as int, 0, 0) == (SellOutcome::Taken {
                cost: round2_prod(b.price.value as int, q2 as int),
                commission: b.commission.value as int,
                lots: Seq::<Block>::empty(),
            })
        }),
{
    let b2 = Block {
        timestamp: b.timestamp,
        quantity: (b.quantity - q1) as i128,
        price: b.price,
        commission: b.commission,
    };
    assert(seq![b][0] == b);
    assert(seq![b].update(0, b2) =~= seq![b2]);
    assert(seq![b2][0] == b2);
    assert(seq![b2].drop_first() =~= Seq::<Block>::empty());
    assert(take_lots(Seq::<Block>::empty(), 0, round2_prod(b.price.value as int, q2 as int), b.commission.value as int)
        == (SellOutcome::Taken {
        cost: round2_prod(b.price.value as int, q2 as int),
        commission: b.commission.value as int,
        lots: Seq::<Block>::empty(),
    }));
}

/// FIFO law: a sale consumes lots strictly from the front — what
/// remains is always a tail of the original queue, at most with its
/// first surviving lot reduced in quantity.
pub proof fn lemma_fifo_consumes_oldest_first(
    lots: Seq<Block>,
    remaining: int,
    cost: int,
    commission: int,
)
    ensures
        take_lots(lots, remaining, cost, commission) matches SellOutcome::Taken { lots: rest, .. }
            ==> exists|k: int, p: int|
            {
                &&& 0 <= k <= lots.len()
                &&& 0 <= p
                &&& (p > 0 ==> k < lots.len() && p < lots[k].quantity)
                &&& rest == rest_of(lots, k, p)
            },
    decreases lots.len(),
{
    if remaining <= 0 {
        if let SellOutcome::Taken { lots: rest, .. } = take_lots(lots, remaining, cost, commission) {
            assert(rest_of(lots, 0, 0) =~= lots);
            assert({
                let k = 0int;
                let p = 0int;
                &&& 0 <= k <= lots.len()
                &&& 0 <= p
                &&& (p > 0 ==> k < lots.len() && p < lots[k].quantity)
                &&& rest == rest_of(lots, k, p)
            });
        }
    } else if lots.len() > 0 {
        let b = lots[0];
        let take: int = if b.quantity <= remaining {
            b.quantity as int
        } else {
            remaining
        };
        let bc = round2_prod(b.price.value as int, take);
        if in_range(bc) && in_range(cost + bc) {
            if b.quantity <= remaining {
                if in_range(commission + b.commission.value) {
                    lemma_fifo_consumes_oldest_first(
                        lots.drop_first(),
                        remaining - take,
                        cost + bc,
                        commission + b.commission.value,
                    );
                    if let SellOutcome::Taken { lots: rest, .. } = take_lots(
                        lots,
                        remaining,
                        cost,
                        commission,
                    ) {
                        let (k2, p2): (int, int) = choose|k2: int, p2: int|
                            {
                                &&& 0 <= k2 <= lots.drop_first().len()
                                &&& 0 <= p2
                                &&& (p2 > 0 ==> k2 < lots.drop_first().len() && p2
                                    < lots.drop_first()[k2].quantity)
                                &&& rest == rest_of(lots.drop_first(), k2, p2)
                            };
                        assert(lots.drop_first().skip(k2) =~= lots.skip(k2 + 1));
                        if p2 > 0 {
                            assert(lots.drop_first()[k2] == lots[k2 + 1]);
                            assert(rest_of(lots.drop_first(), k2, p2) =~= rest_of(
                                lots,
                                k2 + 1,
                                p2,
                            ));
                        } else {
                            assert(rest_of(lots.drop_first(), k2, p2) =~= rest_of(
                                lots,
                                k2 + 1,
                                p2,
                            ));
                        }
                        assert({
                            let k = k2 + 1;
                            let p = p2;
                            &&& 0 <= k <= lots.len()
                            &&& 0 <= p
                            &&& (p > 0 ==> k < lots.len() && p < lots[k].quantity)
                            &&& rest == rest_of(lots, k, p)
                        });
                    }
                }
            } else {
                if let SellOutcome::Taken { lots: rest, .. } = take_lots(
                    lots,
                    remaining,
                    cost,
                    commission,
                ) {
                    assert(rest == lots.update(
                        0,
                        Block {
                            timestamp: b.timestamp,
                            quantity: (b.quantity - take) as i128,
                            price: b.price,
                            commission: b.commission,
                        },
                    ));
                    assert(lots.skip(0) =~= lots);
                    assert(rest =~= rest_of(lots, 0, take));
                    assert({
                        let k = 0int;
                        let p = take;
                        &&& 0 <= k <= lots.len()
                        &&& 0 <= p
                        &&& (p > 0 ==> k < lots.len() && p < lots[k].quantity)
                        &&& rest == rest_of(lots, k, p)
                    });
                }
            }
        }
    }
}

/// Timestamp order is total and transitive.
proof fn lemma_ts_le_props(a: Timestamp, b: Timestamp, c: Timestamp)
    ensures
        a.le(b) || b.le(a),
        a.le(b) && b.le(c) ==> a.le(c),
{
}

/// Stable insertion sort by timestamp: afterwards the log is in
/// chronological order and holds exactly the activities it held.
pub fn sort_activities(activities: &mut Vec<Activity>)
    ensures
        sorted_by_ts(final (activities)@),
        final (activities)@.to_multiset() == old(activities)@.to_multiset(),
{
    broadcast use vstd::seq_lib::group_to_multiset_ensures;
    broadcast use vstd::seq_lib::to_multiset_insert;

    let n = activities.len();
    if n < 2 {
        return ;
    }
    let mut i: usize = 1;
    while i < n
        invariant
            1 <= i <= n,
            n == activities@.len(),
            sorted_by_ts(activities@.take(i as int)),
            activities@.to_multiset() == old(activities)@.to_multiset(),
        decreases n - i,
    {
        let mut j: usize = 0;
        while j < i && crate::date::ts_le(&activities[j].timestamp, &activities[i].timestamp)
            invariant
                j <= i < n,
                n == activities@.len(),
                forall|k: int|
                    0 <= k < j ==> (#[trigger] activities@[k]).timestamp.le(
                        activities@[i as int].timestamp,
                    ),
            decreases i - j,
        {
            j = j + 1;
        }
        if j < i {
            let ghost v0 = activities@;
            let x = activities.remove(i);
            let ghost v1 = activities@;
            activities.insert(j, x);
            proof {
                broadcast use vstd::multiset::group_multiset_axioms;

                v0.to_multiset_ensures();
                assert(v1 == v0.remove(i as int));
                assert(v0.remove(i as int).to_multiset() == v0.to_multiset().remove(v0[i as int]));
                vstd::seq_lib::to_multiset_insert(v1, j as int, x);
                assert(v0[i as int] == x);
                assert(v0.contains(x));
                assert(v0.to_multiset().count(x) > 0);
                assert(activities@.to_multiset() =~= v0.to_multiset());
                // the moved activity sits between the elements at or
                // before it and those it displaced
                assert(!v0[j as int].timestamp.le(x.timestamp));
                lemma_ts_le_props(x.timestamp, v0[j as int].timestamp, x.timestamp);
                assert forall|p: int, q: int|
                    0 <= p < q < i + 1 implies (#[trigger] activities@[p]).timestamp.le(
                    (#[trigger] activities@[q]).timestamp,
                ) by {
                    let w = activities@;
                    if q < j {
                        assert(w[p] == v0[p] && w[q] == v0[q]);
                        assert(v0.take(i as int)[p] == v0[p]);
                        assert(v0.take(i as int)[q] == v0[q]);
                    } else if q == j {
                        assert(w[q] == x);
                        assert(w[p] == v0[p]);
                    } else {
                        // w[q] is the old element at q - 1
                        assert(w[q] == v0[q - 1]);
                        if p < j {
                            assert(w[p] == v0[p]);
                            if q - 1 == p {
                                assert(w[p].timestamp.le(w[q].timestamp));
                            } else {
                                assert(v0.take(i as int)[p] == v0[p]);
                                assert(v0.take(i as int)[q - 1] == v0[q - 1]);
                            }
                        } else if p == j {
                            assert(w[p] == x);
                            lemma_ts_le_props(
                                x.timestamp,
                                v0[j as int].timestamp,
                                v0[q - 1].timestamp,
                            );
                            assert(v0.take(i as int)[j as int] == v0[j as int]);
                            assert(v0.take(i as int)[q - 1] == v0[q - 1]);
                            if q - 1 == j {
                            } else {
                                assert(v0[j as int].timestamp.le(v0[q - 1].timestamp));
                            }
                        } else {
                            assert(w[p] == v0[p - 1]);
                            if p - 1 == q - 1 {
                            } else {
                                assert(v0.take(i as int)[p - 1] == v0[p - 1]);
                                assert(v0.take(i as int)[q - 1] == v0[q - 1]);
                            }
                        }
                    }
                }
                assert(sorted_by_ts(activities@.take(i + 1)));
            }
        } else {
            proof {
                assert forall|p: int, q: int|
                    0 <= p < q < i + 1 implies (#[trigger] activities@[p]).timestamp.le(
                    (#[trigger] activities@[q]).timestamp,
                ) by {
                    if q < i {
                        assert(activities@.take(i as int)[p] == activities@[p]);
                        assert(activities@.take(i as int)[q] == activities@[q]);
                    }
                }
                assert(sorted_by_ts(activities@.take(i + 1)));
            }
        }
        i = i + 1;
    }
    proof {
        assert(activities@.take(n as int) =~= activities@);
    }
}

} // verus!

