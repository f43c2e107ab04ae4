use crate::date::Date;
use vstd::prelude::*;

verus! {

/// Whether an event acquires or disposes of units.
#[derive(Clone, Copy, Debug, PartialEq, Eq, Structural)]
pub enum Action {
    Buy,
    Sell,
}

/// Why a set of entries cannot form a portfolio.
#[derive(Clone, Copy, Debug, PartialEq, Eq, Structural)]
pub enum PortfolioError {
    /// Two entries share a ticker.
    DuplicateTicker,
}

/// One acquisition or disposal of units of a ticker.
#[derive(Clone, Debug, PartialEq)]
pub struct Stock {
    pub date: Date,
    /// Price of one unit, fixed-point.
    pub price: u32,
    pub currency: String,
    /// Number of units, fixed-point.
    pub unit: u32,
    pub action: Action,
    /// Where the event comes from (a grant and vest period, a plan, an order type).
    pub metadata: String,
}

/// All events of one ticker.
#[derive(Clone, Debug, PartialEq)]
pub struct Positions {
    pub ticker: String,
    pub shares: Vec<Stock>,
}

/// The ledger: one entry per ticker.
#[derive(Clone, Debug)]
pub struct Portfolio {
    pub name: String,
    pub description: String,
    pub stocks: Vec<Positions>,
}

/// A ledger as mathematical values: ticker and events of each entry.
pub type Ledger = Seq<(Seq<char>, Seq<Stock>)>;

pub open spec fn ledger_of(v: Seq<Positions>) -> Ledger {
    v.map_values(|p: Positions| (p.ticker@, p.shares@))
}

/// `s` with its quantity replaced by `unit`.
pub open spec fn with_unit(s: Stock, unit: u32) -> Stock {
    Stock {
        date: s.date,
        price: s.price,
        currency: s.currency,
        unit: unit,
        action: s.action,
        metadata: s.metadata,
    }
}

/// The identity under which an imported event counts as already recorded:
/// metadata, date and price agree (quantity and currency are not compared).
pub open spec fn same_lot(a: Stock, b: Stock) -> bool {
    a.metadata@ == b.metadata@ && a.date == b.date && a.price == b.price
}

pub open spec fn holds_lot(s: Seq<Stock>, e: Stock) -> bool {
    exists|i: int| 0 <= i < s.len() && same_lot(#[trigger] s[i], e)
}

/// `s` after appending, in order, each event of `inc` whose identity is not
/// yet present.
pub open spec fn add_lots(s: Seq<Stock>, inc: Seq<Stock>) -> Seq<Stock>
    decreases inc.len(),
{
    if inc.len() == 0 {
        s
    } else {
        let acc = add_lots(s, inc.drop_last());
        if holds_lot(acc, inc.last()) {
            acc
        } else {
            acc.push(inc.last())
        }
    }
}

pub open spec fn has_ticker(l: Ledger, t: Seq<char>) -> bool {
    exists|i: int| 0 <= i < l.len() && (#[trigger] l[i]).0 == t
}

pub open spec fn merge_into(q: (Seq<char>, Seq<Stock>), p: (Seq<char>, Seq<Stock>)) -> (
    Seq<char>,
    Seq<Stock>,
) {
    if q.0 == p.0 {
        (q.0, add_lots(q.1, p.1))
    } else {
        q
    }
}

/// Merging one imported entry: its events go into the entry of the same
/// ticker, or it becomes a new entry.
pub open spec fn merge_position(l: Ledger, p: (Seq<char>, Seq<Stock>)) -> Ledger {
    if has_ticker(l, p.0) {
        l.map_values(|q: (Seq<char>, Seq<Stock>)| merge_into(q, p))
    } else {
        l.push(p)
    }
}

/// Merging a batch of imported entries, in order.
pub open spec fn merge_all(l: Ledger, inc: Ledger) -> Ledger
    decreases inc.len(),
{
    if inc.len() == 0 {
        l
    } else {
        merge_position(merge_all(l, inc.drop_last()), inc.last())
    }
}

/// No two events of `s` share their identity (metadata, date, price).
pub open spec fn distinct_lots(s: Seq<Stock>) -> bool {
    forall|i: int, j: int| 0 <= i < j < s.len() ==> !same_lot(#[trigger] s[i], #[trigger] s[j])
}

/// No entry of `l` holds two events of the same identity.
pub open spec fn lots_distinct(l: Ledger) -> bool {
    forall|i: int| 0 <= i < l.len() ==> distinct_lots(#[trigger] l[i].1)
}

/// No two entries share a ticker.
pub open spec fn unique_tickers(l: Ledger) -> bool {
    forall|i: int, j: int| 0 <= i < j < l.len() ==> (#[trigger] l[i]).0 != (#[trigger] l[j]).0
}

impl Stock {
    /// A copy of this event with its quantity replaced by `unit`.
    pub fn with_unit(&self, unit: u32) -> (r: Stock)
        ensures
            r == with_unit(*self, unit),
    {
        Stock {
            date: self.date,
            price: self.price,
            currency: self.currency.clone(),
            unit: unit,
            action: self.action,
            metadata: self.metadata.clone(),
        }
    }

    /// A copy of this event.
    pub fn copy(&self) -> (r: Stock)
        ensures
            r == *self,
    {
        self.with_unit(self.unit)
    }

    /// Whether `self` and `other` have the same identity for deduplication.
    pub fn same_lot(&self, other: &Stock) -> (r: bool)
        ensures
            r == same_lot(*self, *other),
    {
        self.metadata == other.metadata && self.date == other.date && self.price == other.price
    }
}

/// A copy of a sequence of events.
pub fn copy_lots(v: &Vec<Stock>) -> (r: Vec<Stock>)
    ensures
        r@ == v@,
{
    let mut r: Vec<Stock> = Vec::new();
    let mut k: usize = 0;
    while k < v.len()
        invariant
            k <= v.len(),
            r@ == v@.take(k as int),
        decreases v.len() - k,
    {
        r.push(v[k].copy());
        proof {
            assert(v@.take(k + 1) =~= v@.take(k as int).push(v@[k as int]));
        }
        k += 1;
    }
    proof {
        assert(v@.take(v.len() as int) =~= v@);
    }
    r
}

/// Appends to `shares`, in order, each event of `incoming` whose identity is
/// not yet among them.
pub fn add_lots_to(shares: &mut Vec<Stock>, incoming: &Vec<Stock>)
    ensures
        final(shares)@ == add_lots(old(shares)@, incoming@),
{
    let mut k: usize = 0;
    while k < incoming.len()
        invariant
            k <= incoming.len(),
            shares@ == add_lots(old(shares)@, incoming@.take(k as int)),
        decreases incoming.len() - k,
    {
        let e = &incoming[k];
        let mut found = false;
        let mut j: usize = 0;
        while j < shares.len()
            invariant
                j <= shares.len(),
                found <==> exists|i: int| 0 <= i < j && same_lot(#[trigger] shares@[i], *e),
            decreases shares.len() - j,
        {
            if shares[j].same_lot(e) {
                found = true;
            }
            j += 1;
        }
        proof {
            let t = incoming@.take(k + 1);
            assert(t.drop_last() =~= incoming@.take(k as int));
            assert(t.last() == *e);
        }
        if !found {
            shares.push(e.copy());
        }
        k += 1;
    }
    proof {
        assert(incoming@.take(incoming.len() as int) =~= incoming@);
    }
}

impl Positions {
    /// A copy of this entry.
    pub fn copy(&self) -> (r: Positions)
        ensures
            r.ticker@ == self.ticker@,
            r.shares@ == self.shares@,
    {
        Positions { ticker: self.ticker.clone(), shares: copy_lots(&self.shares) }
    }
}

impl Portfolio {
    /// The entries of this portfolio as mathematical values.
    pub open spec fn ledger(&self) -> Ledger {
        ledger_of(self.stocks@)
    }

    /// A portfolio is well formed when no two entries share a ticker.
    pub open spec fn wf(&self) -> bool {
        unique_tickers(self.ledger())
    }

    /// An empty portfolio.
    pub fn new() -> (r: Portfolio)
        ensures
            r.name@ == "My Portfolio"@,
            r.description@ == ""@,
            r.stocks@.len() == 0,
            r.wf(),
    {
        Portfolio { name: "My Portfolio".to_string(), description: "".to_string(), stocks: Vec::new() }
    }

    /// A portfolio of the given entries, provided no two share a ticker.
    pub fn from_positions(name: String, description: String, stocks: Vec<Positions>) -> (r: Result<
        Portfolio,
        PortfolioError,
    >)
        ensures
            r is Ok <==> unique_tickers(ledger_of(stocks@)),
            r matches Ok(p) ==> p.name == name && p.description == description && p.stocks@
                == stocks@,
            r is Err ==> r == Err::<Portfolio, PortfolioError>(PortfolioError::DuplicateTicker),
    {
        let ghost l = ledger_of(stocks@);
        let mut i: usize = 0;
        while i < stocks.len()
            invariant
                i <= stocks.len(),
                l == ledger_of(stocks@),
                forall|a: int, b: int| 0 <= a < i && a < b < l.len() ==> (#[trigger] l[a]).0 != (
                #[trigger] l[b]).0,
            decreases stocks.len() - i,
        {
            let mut j: usize = i + 1;
            while j < stocks.len()
                invariant
                    i < stocks.len(),
                    i + 1 <= j <= stocks.len(),
                    l == ledger_of(stocks@),
                    forall|a: int, b: int| 0 <= a < i && a < b < l.len() ==> (#[trigger] l[a]).0 != (
                    #[trigger] l[b]).0,
                    forall|b: int| i < b < j ==> l[i as int].0 != (#[trigger] l[b]).0,
                decreases stocks.len() - j,
            {
                if stocks[i].ticker.eq(&stocks[j].ticker) {
                    proof {
                        assert(l[i as int].0 == l[j as int].0);
                    }
                    return Err(PortfolioError::DuplicateTicker);
                }
                j += 1;
            }
            i += 1;
        }
        Ok(Portfolio { name, description, stocks })
    }

    /// Merges one entry into the portfolio (see `merge_postions`).
    pub fn new_stock(&mut self, stock: Positions)
        ensures
            final(self).ledger() == merge_position(old(self).ledger(), (stock.ticker@, stock.shares@)),
            final(self).name == old(self).name,
            final(self).description == old(self).description,
            old(self).wf() ==> final(self).wf(),
    {
        let ghost st = stock;
        let batch = vec![stock];
        proof {
            let inc = ledger_of(batch@);
            assert(inc.drop_last() =~= Seq::<(Seq<char>, Seq<Stock>)>::empty());
            assert(inc.last() == (st.ticker@, st.shares@));
            assert(merge_all(self.ledger(), inc.drop_last()) == self.ledger());
        }
        self.merge_postions(&batch);
    }

    /// Merges a batch of imported entries, in order: the events of an entry
    /// whose ticker is present go into each entry of that ticker, but for those
    /// whose identity (metadata, date, price) is already there; an entry whose
    /// ticker is absent is added whole. Nothing recorded is removed or changed.
    pub fn merge_postions(&mut self, to_be_merged_pos: &Vec<Positions>)
        ensures
            final(self).ledger() == merge_all(old(self).ledger(), ledger_of(to_be_merged_pos@)),
            final(self).name == old(self).name,
            final(self).description == old(self).description,
            old(self).wf() ==> final(self).wf(),
            lots_distinct(old(self).ledger()) && lots_distinct(ledger_of(to_be_merged_pos@))
                ==> lots_distinct(final(self).ledger()),
    {
        let ghost inc = ledger_of(to_be_merged_pos@);
        let mut n: usize = 0;
        while n < to_be_merged_pos.len()
            invariant
                n <= to_be_merged_pos.len(),
                inc == ledger_of(to_be_merged_pos@),
                self.ledger() == merge_all(old(self).ledger(), inc.take(n as int)),
                self.name == old(self).name,
                self.description == old(self).description,
                old(self).wf() ==> self.wf(),
            decreases to_be_merged_pos.len() - n,
        {
            let imp = &to_be_merged_pos[n];
            let ghost before = self.ledger();
            let ghost p = (imp.ticker@, imp.shares@);
            let mut ticker_exists = false;
            let mut i: usize = 0;
            while i < self.stocks.len()
                invariant
                    i <= self.stocks.len(),
                    p == (imp.ticker@, imp.shares@),
                    self.stocks@.len() == before.len(),
                    forall|x: int| 0 <= x < i ==> #[trigger] self.ledger()[x] == merge_into(before[x], p),
                    forall|x: int| i <= x < before.len() ==> #[trigger] self.ledger()[x] == before[x],
                    ticker_exists <==> exists|x: int| 0 <= x < i && (#[trigger] before[x]).0 == p.0,
                    self.name == old(self).name,
                    self.description == old(self).description,
                decreases self.stocks.len() - i,
            {
                let ghost s0 = self.stocks@;
                proof {
                    assert(self.ledger()[i as int] == before[i as int]);
                    assert(before[i as int].0 == s0[i as int].ticker@);
                }
                let same = self.stocks[i].ticker.eq(&imp.ticker);
                proof {
                    assert(self.stocks@ == s0);
                    assert(same == (s0[i as int].ticker@ == imp.ticker@));
                    assert(same == (before[i as int].0 == p.0));
                }
                if same {
                    ticker_exists = true;
                    let mut pos = self.stocks.remove(i);
                    add_lots_to(&mut pos.shares, &imp.shares);
                    let ghost g = pos;
                    self.stocks.insert(i, pos);
                    proof {
                        assert(self.stocks@ =~= s0.update(i as int, g));
                        assert(g.ticker == s0[i as int].ticker);
                    }
                }
                proof {
                    assert(self.ledger()[i as int] == merge_into(before[i as int], p));
                    assert forall|x: int| 0 <= x < i + 1 implies #[trigger] self.ledger()[x]
                        == merge_into(before[x], p) by {
                        if x < i {
                            assert(self.ledger()[x] == ledger_of(s0)[x]);
                        }
                    }
                    assert forall|x: int| i + 1 <= x < before.len() implies #[trigger] self.ledger()[x]
                        == before[x] by {
                        assert(self.ledger()[x] == ledger_of(s0)[x]);
                    }
                }
                i += 1;
            }
            let ghost mid = self.ledger();
            if !ticker_exists {
                self.stocks.push(imp.copy());
                proof {
                    assert forall|x: int| 0 <= x < before.len() implies #[trigger] mid[x]
                        == before[x] by {
                        assert(mid[x] == merge_into(before[x], p));
                    }
                    assert(self.ledger() =~= mid.push(p));
                }
            }
            proof {
                let t = inc.take(n + 1);
                assert(t.drop_last() =~= inc.take(n as int));
                assert(t.last() == p);
                if ticker_exists {
                    assert(has_ticker(before, p.0));
                    assert(self.ledger() =~= merge_position(before, p));
                } else {
                    assert(!has_ticker(before, p.0));
                    assert(self.ledger() =~= merge_position(before, p));
                }
                if old(self).wf() {
                    lemma_merge_position_unique(before, p);
                }
            }
            n += 1;
        }
        proof {
            assert(inc.take(inc.len() as int) =~= inc);
            if lots_distinct(old(self).ledger()) && lots_distinct(inc) {
                lemma_merge_all_distinct(old(self).ledger(), inc);
            }
        }
    }
}

proof fn lemma_add_lots_distinct(s: Seq<Stock>, inc: Seq<Stock>)
    requires
        distinct_lots(s),
    ensures
        distinct_lots(add_lots(s, inc)),
    decreases inc.len(),
{
    if inc.len() > 0 {
        lemma_add_lots_distinct(s, inc.drop_last());
        let acc = add_lots(s, inc.drop_last());
        if !holds_lot(acc, inc.last()) {
            let r = acc.push(inc.last());
            assert forall|i: int, j: int| 0 <= i < j < r.len() implies !same_lot(
                #[trigger] r[i],
                #[trigger] r[j],
            ) by {
                if j == acc.len() {
                    assert(r[i] == acc[i]);
                    if same_lot(r[i], r[j]) {
                        assert(same_lot(acc[i], inc.last()));
                    }
                } else {
                    assert(r[i] == acc[i] && r[j] == acc[j]);
                }
            }
        }
    }
}

proof fn lemma_merge_position_distinct(l: Ledger, p: (Seq<char>, Seq<Stock>))
    requires
        lots_distinct(l),
        distinct_lots(p.1),
    ensures
        lots_distinct(merge_position(l, p)),
{
    let m = merge_position(l, p);
    assert forall|i: int| 0 <= i < m.len() implies distinct_lots(#[trigger] m[i].1) by {
        if has_ticker(l, p.0) {
            assert(distinct_lots(l[i].1));
            lemma_add_lots_distinct(l[i].1, p.1);
        } else if i < l.len() {
            assert(m[i] == l[i]);
        } else {
            assert(m[i] == p);
        }
    }
}

proof fn lemma_merge_all_distinct(l: Ledger, inc: Ledger)
    requires
        lots_distinct(l),
        lots_distinct(inc),
    ensures
        lots_distinct(merge_all(l, inc)),
    decreases inc.len(),
{
    if inc.len() > 0 {
        let d = inc.drop_last();
        assert forall|i: int| 0 <= i < d.len() implies distinct_lots(#[trigger] d[i].1) by {
            assert(d[i] == inc[i]);
        }
        lemma_merge_all_distinct(l, d);
        assert(distinct_lots(inc[inc.len() - 1].1));
        lemma_merge_position_distinct(merge_all(l, d), inc.last());
    }
}

/// Merging one entry keeps tickers unique.
proof fn lemma_merge_position_unique(l: Ledger, p: (Seq<char>, Seq<Stock>))
    requires
        unique_tickers(l),
    ensures
        unique_tickers(merge_position(l, p)),
{
    let m = merge_position(l, p);
    if has_ticker(l, p.0) {
        assert forall|i: int, j: int| 0 <= i < j < m.len() implies (#[trigger] m[i]).0 != (
        #[trigger] m[j]).0 by {
            assert(m[i].0 == l[i].0);
            assert(m[j].0 == l[j].0);
        }
    } else {
        assert forall|i: int, j: int| 0 <= i < j < m.len() implies (#[trigger] m[i]).0 != (
        #[trigger] m[j]).0 by {
            if j == l.len() {
                assert(m[i] == l[i]);
            } else {
                assert(m[i] == l[i]);
                assert(m[j] == l[j]);
            }
        }
    }
}

/// Every event of `p` has its identity in each entry of ledger `l` with the
/// ticker of `p`, and there is such an entry.
pub open spec fn covers(l: Ledger, p: (Seq<char>, Seq<Stock>)) -> bool {
    &&& has_ticker(l, p.0)
    &&& forall|i: int, k: int|
        0 <= i < l.len() && 0 <= k < p.1.len() && (#[trigger] l[i]).0 == p.0 ==> holds_lot(
            l[i].1,
            #[trigger] p.1[k],
        )
}

proof fn lemma_add_lots_extends(s: Seq<Stock>, inc: Seq<Stock>)
    ensures
        add_lots(s, inc).len() >= s.len(),
        forall|i: int| 0 <= i < s.len() ==> #[trigger] add_lots(s, inc)[i] == s[i],
        forall|e: Stock| holds_lot(s, e) ==> holds_lot(add_lots(s, inc), e),
    decreases inc.len(),
{
    if inc.len() > 0 {
        lemma_add_lots_extends(s, inc.drop_last());
    }
    let r = add_lots(s, inc);
    assert forall|e: Stock| holds_lot(s, e) implies holds_lot(r, e) by {
        let i = choose|i: int| 0 <= i < s.len() && same_lot(#[trigger] s[i], e);
        assert(r[i] == s[i]);
    }
}

proof fn lemma_add_lots_holds(s: Seq<Stock>, inc: Seq<Stock>)
    ensures
        forall|k: int| 0 <= k < inc.len() ==> holds_lot(add_lots(s, inc), #[trigger] inc[k]),
    decreases inc.len(),
{
    if inc.len() > 0 {
        let d = inc.drop_last();
        lemma_add_lots_holds(s, d);
        let acc = add_lots(s, d);
        let r = add_lots(s, inc);
        assert forall|k: int| 0 <= k < inc.len() implies holds_lot(r, #[trigger] inc[k]) by {
            if k < inc.len() - 1 {
                assert(inc[k] == d[k]);
                assert(holds_lot(acc, d[k]));
                let i = choose|i: int| 0 <= i < acc.len() && same_lot(#[trigger] acc[i], d[k]);
                assert(r[i] == acc[i]);
            } else if !holds_lot(acc, inc.last()) {
                assert(r[acc.len() as int] == inc.last());
            }
        }
    }
}

proof fn lemma_add_lots_noop(s: Seq<Stock>, inc: Seq<Stock>)
    requires
        forall|k: int| 0 <= k < inc.len() ==> holds_lot(s, #[trigger] inc[k]),
    ensures
        add_lots(s, inc) == s,
    decreases inc.len(),
{
    if inc.len() > 0 {
        let d = inc.drop_last();
        assert forall|k: int| 0 <= k < d.len() implies holds_lot(s, #[trigger] d[k]) by {
            assert(d[k] == inc[k]);
        }
        lemma_add_lots_noop(s, d);
        assert(holds_lot(s, inc[inc.len() - 1]));
    }
}

proof fn lemma_covered_merge_noop(l: Ledger, p: (Seq<char>, Seq<Stock>))
    requires
        covers(l, p),
    ensures
        merge_position(l, p) == l,
{
    let m = merge_position(l, p);
    assert forall|i: int| 0 <= i < l.len() implies #[trigger] m[i] == l[i] by {
        if l[i].0 == p.0 {
            assert forall|k: int| 0 <= k < p.1.len() implies holds_lot(l[i].1, #[trigger] p.1[k]) by {
            }
            lemma_add_lots_noop(l[i].1, p.1);
        }
    }
    assert(m =~= l);
}

proof fn lemma_merge_covers_self(l: Ledger, p: (Seq<char>, Seq<Stock>))
    ensures
        covers(merge_position(l, p), p),
{
    let m = merge_position(l, p);
    if has_ticker(l, p.0) {
        let j = choose|j: int| 0 <= j < l.len() && (#[trigger] l[j]).0 == p.0;
        assert(m[j].0 == p.0);
        assert forall|i: int, k: int|
            0 <= i < m.len() && 0 <= k < p.1.len() && (#[trigger] m[i]).0 == p.0 implies holds_lot(
            m[i].1,
            #[trigger] p.1[k],
        ) by {
            lemma_add_lots_holds(l[i].1, p.1);
        }
    } else {
        assert(m[l.len() as int] == p);
        assert forall|i: int, k: int|
            0 <= i < m.len() && 0 <= k < p.1.len() && (#[trigger] m[i]).0 == p.0 implies holds_lot(
            m[i].1,
            #[trigger] p.1[k],
        ) by {
            if i < l.len() {
                assert(m[i] == l[i]);
            } else {
                assert(same_lot(p.1[k], p.1[k]));
            }
        }
    }
}

proof fn lemma_merge_keeps_cover(l: Ledger, a: (Seq<char>, Seq<Stock>), b: (Seq<char>, Seq<Stock>))
    requires
        covers(l, a),
    ensures
        covers(merge_position(l, b), a),
{
    let m = merge_position(l, b);
    let j = choose|j: int| 0 <= j < l.len() && (#[trigger] l[j]).0 == a.0;
    if has_ticker(l, b.0) {
        assert(m[j].0 == a.0);
        assert forall|i: int, k: int|
            0 <= i < m.len() && 0 <= k < a.1.len() && (#[trigger] m[i]).0 == a.0 implies holds_lot(
            m[i].1,
            #[trigger] a.1[k],
        ) by {
            assert(holds_lot(l[i].1, a.1[k]));
            lemma_add_lots_extends(l[i].1, b.1);
        }
    } else {
        assert(m[j] == l[j]);
        assert forall|i: int, k: int|
            0 <= i < m.len() && 0 <= k < a.1.len() && (#[trigger] m[i]).0 == a.0 implies holds_lot(
            m[i].1,
            #[trigger] a.1[k],
        ) by {
            if i < l.len() {
                assert(m[i] == l[i]);
            } else {
                assert(m[i] == b);
                assert(false);
            }
        }
    }
}

proof fn lemma_merge_all_covers(l: Ledger, inc: Ledger)
    ensures
        forall|k: int| 0 <= k < inc.len() ==> covers(merge_all(l, inc), #[trigger] inc[k]),
    decreases inc.len(),
{
    if inc.len() > 0 {
        let d = inc.drop_last();
        lemma_merge_all_covers(l, d);
        let m0 = merge_all(l, d);
        assert forall|k: int| 0 <= k < inc.len() implies covers(merge_all(l, inc), #[trigger] inc[k]) by {
            if k < inc.len() - 1 {
                assert(inc[k] == d[k]);
                lemma_merge_keeps_cover(m0, d[k], inc.last());
            } else {
                lemma_merge_covers_self(m0, inc.last());
            }
        }
    }
}

proof fn lemma_merge_all_covered_noop(m: Ledger, inc: Ledger)
    requires
        forall|k: int| 0 <= k < inc.len() ==> covers(m, #[trigger] inc[k]),
    ensures
        merge_all(m, inc) == m,
    decreases inc.len(),
{
    if inc.len() > 0 {
        let d = inc.drop_last();
        assert forall|k: int| 0 <= k < d.len() implies covers(m, #[trigger] d[k]) by {
            assert(d[k] == inc[k]);
        }
        lemma_merge_all_covered_noop(m, d);
        assert(covers(m, inc[inc.len() - 1]));
        lemma_covered_merge_noop(m, inc.last());
    }
}

/// Merging the same batch a second time changes nothing: the ledger after
/// two merges of `inc` is the ledger after one.
pub proof fn lemma_merge_idempotent(l: Ledger, inc: Ledger)
    ensures
        merge_all(merge_all(l, inc), inc) == merge_all(l, inc),
{
    lemma_merge_all_covers(l, inc);
    lemma_merge_all_covered_noop(merge_all(l, inc), inc);
}

} // verus!
