use crate::date::Date;
use crate::portfolio::{with_unit, Action, Portfolio, Positions, Stock};
use vstd::prelude::*;

verus! {

/// Why the disposals of a ticker could not be matched.
#[derive(Clone, Copy, Debug, PartialEq, Eq, Structural)]
pub enum FifoError {
    /// A disposal found no acquired units left to consume.
    InsufficientLots,
    /// A disposal met an acquisition in another currency.
    UnsupportedCurrencyConversion,
}

/// One slice of a disposal matched against one acquisition lot.
#[derive(Clone, Debug, PartialEq)]
pub struct Realization {
    pub ticker: String,
    pub sell_date: Date,
    pub units_sold: u32,
    pub buy_price: u32,
    pub sell_price: u32,
    /// `sell_price - buy_price`.
    pub gain_per_unit: i64,
    /// `gain_per_unit * units_sold`.
    pub realized_amount: i128,
    pub currency: String,
    pub sell_metadata: String,
}

/// Totals of the realizations of one calendar year. Gains and losses are
/// kept apart, each as a magnitude; the net result is their difference.
#[derive(Clone, Copy, Debug, PartialEq, Eq, Structural)]
pub struct YearSummary {
    pub year: i32,
    pub total_units_sold: u128,
    pub total_gain: u128,
    pub total_loss: u128,
}

/// What FIFO matching yields for one ticker.
#[derive(Clone, Debug, PartialEq)]
pub struct TickerReport {
    pub ticker: String,
    /// The realizations, in the order of the disposals.
    pub records: Vec<Realization>,
    /// One summary per calendar year, in chronological order.
    pub years: Vec<YearSummary>,
    /// The acquisition lots left after matching, oldest first, with what
    /// remains of each.
    pub open_lots: Vec<Stock>,
}

/// FIFO matching of disposals against acquisitions.
pub struct TaxCalculatorService {}

/// The events of `s` with action `a`, in order.
pub open spec fn of_action(s: Seq<Stock>, a: Action) -> Seq<Stock>
    decreases s.len(),
{
    if s.len() == 0 {
        s
    } else if s.last().action == a {
        of_action(s.drop_last(), a).push(s.last())
    } else {
        of_action(s.drop_last(), a)
    }
}

/// `e` placed after the last element of `s` whose date is not later than
/// its own (at the front when there is none).
pub open spec fn insert_by_date(s: Seq<Stock>, e: Stock) -> Seq<Stock>
    decreases s.len(),
{
    if s.len() == 0 || s.last().date.spec_le(e.date) {
        s.push(e)
    } else {
        insert_by_date(s.drop_last(), e).push(s.last())
    }
}

/// `s` in ascending order of date; events of the same date keep their order.
pub open spec fn sort_by_date(s: Seq<Stock>) -> Seq<Stock>
    decreases s.len(),
{
    if s.len() == 0 {
        s
    } else {
        insert_by_date(sort_by_date(s.drop_last()), s.last())
    }
}

pub open spec fn realization(ticker: String, sell: Stock, buy: Stock, u: u32) -> Realization {
    Realization {
        ticker: ticker,
        sell_date: sell.date,
        units_sold: u,
        buy_price: buy.price,
        sell_price: sell.price,
        gain_per_unit: (sell.price - buy.price) as i64,
        realized_amount: ((sell.price - buy.price) * u) as i128,
        currency: buy.currency,
        sell_metadata: sell.metadata,
    }
}

pub open spec fn min_u32(a: u32, b: u32) -> u32 {
    if a <= b { a } else { b }
}

/// Matching `rem` units of disposal `sell` against the queue of lots `q`,
/// oldest first: the realizations and the queue left.
pub open spec fn match_sell(ticker: String, sell: Stock, rem: u32, q: Seq<Stock>) -> Result<
    (Seq<Realization>, Seq<Stock>),
    FifoError,
>
    decreases rem, q.len(),
{
    if rem == 0 {
        Ok((seq![], q))
    } else if q.len() == 0 {
        Err(FifoError::InsufficientLots)
    } else if q[0].currency@ != sell.currency@ {
        Err(FifoError::UnsupportedCurrencyConversion)
    } else {
        let b = q[0];
        let u = min_u32(rem, b.unit);
        let rest = if b.unit - u > 0 {
            q.update(0, with_unit(b, (b.unit - u) as u32))
        } else {
            q.drop_first()
        };
        match match_sell(ticker, sell, (rem - u) as u32, rest) {
            Ok((rs, left)) => Ok((seq![realization(ticker, sell, b, u)] + rs, left)),
            Err(e) => Err(e),
        }
    }
}

/// Matching the disposals `sells`, in order, against the queue of lots `q`.
pub open spec fn match_sells(ticker: String, sells: Seq<Stock>, q: Seq<Stock>) -> Result<
    (Seq<Realization>, Seq<Stock>),
    FifoError,
>
    decreases sells.len(),
{
    if sells.len() == 0 {
        Ok((seq![], q))
    } else {
        match match_sells(ticker, sells.drop_last(), q) {
            Ok((rs, q1)) => match match_sell(ticker, sells.last(), sells.last().unit, q1) {
                Ok((rs2, q2)) => Ok((rs + rs2, q2)),
                Err(e) => Err(e),
            },
            Err(e) => Err(e),
        }
    }
}

/// FIFO matching of one ticker's events: disposals in date order against
/// acquisitions in date order.
pub open spec fn fifo(ticker: String, events: Seq<Stock>) -> Result<
    (Seq<Realization>, Seq<Stock>),
    FifoError,
> {
    match_sells(
        ticker,
        sort_by_date(of_action(events, Action::Sell)),
        sort_by_date(of_action(events, Action::Buy)),
    )
}

/// The queue of lots held as a sorted vector, the index of its head and what
/// is left of the head.
pub open spec fn queue(buys: Seq<Stock>, h: int, left: u32) -> Seq<Stock> {
    if 0 <= h < buys.len() {
        seq![with_unit(buys[h], left)] + buys.subrange(h + 1, buys.len() as int)
    } else {
        seq![]
    }
}

pub open spec fn prepend(rs: Seq<Realization>, r: Result<(Seq<Realization>, Seq<Stock>), FifoError>) -> Result<
    (Seq<Realization>, Seq<Stock>),
    FifoError,
> {
    match r {
        Ok((a, q)) => Ok((rs + a, q)),
        Err(e) => Err(e),
    }
}

/// The largest magnitude of a realized amount: `(2^32 - 1)^2`, a price
/// difference times a quantity.
pub const MAX_REALIZED: u128 = 0xffff_fffe_0000_0001;

impl Realization {
    /// The amounts agree with the prices and the units.
    pub open spec fn wf(self) -> bool {
        &&& self.gain_per_unit == self.sell_price - self.buy_price
        &&& self.realized_amount == self.gain_per_unit * self.units_sold
    }
}

proof fn lemma_realization_wf(ticker: String, sell: Stock, buy: Stock, u: u32)
    ensures
        realization(ticker, sell, buy, u).wf(),
        -(MAX_REALIZED as int) <= realization(ticker, sell, buy, u).realized_amount <= MAX_REALIZED,
{
    let g = sell.price - buy.price;
    assert(-0xffff_ffff <= g <= 0xffff_ffff);
    assert(-0xffff_fffe_0000_0001 <= g * u <= 0xffff_fffe_0000_0001) by (nonlinear_arith)
        requires
            -0xffff_ffff <= g <= 0xffff_ffff,
            0 <= u <= 0xffff_ffff,
    ;
}

proof fn lemma_queue_step(buys: Seq<Stock>, h: int, left: u32, u: u32)
    requires
        0 <= h < buys.len(),
        u <= left,
    ensures
        left - u > 0 ==> queue(buys, h, (left - u) as u32) == queue(buys, h, left).update(
            0,
            with_unit(queue(buys, h, left)[0], (left - u) as u32),
        ),
        h + 1 < buys.len() ==> queue(buys, h + 1, buys[h + 1].unit) == queue(
            buys,
            h,
            left,
        ).drop_first(),
        h + 1 >= buys.len() ==> queue(buys, h + 1, 0) == queue(buys, h, left).drop_first(),
{
    let q = queue(buys, h, left);
    if left - u > 0 {
        assert(queue(buys, h, (left - u) as u32) =~= q.update(
            0,
            with_unit(q[0], (left - u) as u32),
        ));
    }
    if h + 1 < buys.len() {
        assert(with_unit(buys[h + 1], buys[h + 1].unit) == buys[h + 1]);
        assert(queue(buys, h + 1, buys[h + 1].unit) =~= q.drop_first());
    } else {
        assert(queue(buys, h + 1, 0) =~= q.drop_first());
    }
}

/// Matches disposal `sell` against the lots of `buys` from index `*h` on,
/// where what is left of lot `*h` is `*left`; the realizations are appended
/// to `out` and added to the yearly totals `years`.
fn match_one_sell(
    ticker: &String,
    sell: &Stock,
    buys: &Vec<Stock>,
    h: &mut usize,
    left: &mut u32,
    out: &mut Vec<Realization>,
    years: &mut Vec<YearSummary>,
) -> (r: Result<(), FifoError>)
    requires
        *old(h) <= buys.len(),
        forall|i: int| 0 <= i < old(out)@.len() ==> (#[trigger] old(out)@[i]).wf(),
        bounded(old(years)@, old(out)@.len() as int),
    ensures
        match match_sell(*ticker, *sell, sell.unit, queue(buys@, *old(h) as int, *old(left))) {
            Ok((rs, q)) => {
                &&& r is Ok
                &&& final(out)@ == old(out)@ + rs
                &&& *final(h) <= buys.len()
                &&& queue(buys@, *final(h) as int, *final(left)) == q
                &&& forall|i: int| 0 <= i < final(out)@.len() ==> (#[trigger] final(out)@[i]).wf()
                &&& summaries_of(final(years)@) == fold_entries(
                    summaries_of(old(years)@),
                    record_entries(rs),
                )
                &&& bounded(final(years)@, final(out)@.len() as int)
            },
            Err(e) => r == Err::<(), FifoError>(e),
        },
{
    let ghost q0 = queue(buys@, *h as int, *left);
    let ghost out0 = out@;
    let ghost y0 = summaries_of(years@);
    let mut rem = sell.unit;
    while rem > 0
        invariant
            *h <= buys.len(),
            y0 == summaries_of(old(years)@),
            bounded(years@, out@.len() as int),
            summaries_of(years@) == fold_entries(
                y0,
                record_entries(out@.subrange(out0.len() as int, out@.len() as int)),
            ),
            q0 == queue(buys@, *old(h) as int, *old(left)),
            out0 == old(out)@,
            out0.len() <= out@.len(),
            out@.subrange(0, out0.len() as int) == out0,
            forall|i: int| 0 <= i < out@.len() ==> (#[trigger] out@[i]).wf(),
            match_sell(*ticker, *sell, sell.unit, q0) == prepend(
                out@.subrange(out0.len() as int, out@.len() as int),
                match_sell(*ticker, *sell, rem, queue(buys@, *h as int, *left)),
            ),
        decreases rem, buys.len() - *h,
    {
        let ghost q = queue(buys@, *h as int, *left);
        let ghost done = out@.subrange(out0.len() as int, out@.len() as int);
        if *h >= buys.len() {
            proof {
                assert(q.len() == 0);
                assert(match_sell(*ticker, *sell, rem, q) == Err::<
                    (Seq<Realization>, Seq<Stock>),
                    FifoError,
                >(FifoError::InsufficientLots));
                assert(match_sell(*ticker, *sell, sell.unit, q0) == Err::<
                    (Seq<Realization>, Seq<Stock>),
                    FifoError,
                >(FifoError::InsufficientLots));
            }
            return Err(FifoError::InsufficientLots);
        }
        let b = &buys[*h];
        proof {
            assert(q[0] == with_unit(buys@[*h as int], *left));
        }
        if !b.currency.eq(&sell.currency) {
            proof {
                assert(q[0].currency == b.currency);
                assert(match_sell(*ticker, *sell, rem, q) == Err::<
                    (Seq<Realization>, Seq<Stock>),
                    FifoError,
                >(FifoError::UnsupportedCurrencyConversion));
                assert(match_sell(*ticker, *sell, sell.unit, q0) == Err::<
                    (Seq<Realization>, Seq<Stock>),
                    FifoError,
                >(FifoError::UnsupportedCurrencyConversion));
            }
            return Err(FifoError::UnsupportedCurrencyConversion);
        }
        let u = if rem <= *left {
            rem
        } else {
            *left
        };
        let gain: i64 = sell.price as i64 - b.price as i64;
        proof {
            assert(-0xffff_fffe_0000_0001 <= gain * u <= 0xffff_fffe_0000_0001) by (nonlinear_arith)
                requires
                    -0xffff_ffff <= gain <= 0xffff_ffff,
                    0 <= u <= 0xffff_ffff,
            ;
        }
        let realized: i128 = gain as i128 * u as i128;
        let rec = Realization {
            ticker: ticker.clone(),
            sell_date: sell.date,
            units_sold: u,
            buy_price: b.price,
            sell_price: sell.price,
            gain_per_unit: gain,
            realized_amount: realized,
            currency: b.currency.clone(),
            sell_metadata: sell.metadata.clone(),
        };
        proof {
            assert(rec == realization(*ticker, *sell, q[0], u));
            lemma_realization_wf(*ticker, *sell, q[0], u);
            lemma_queue_step(buys@, *h as int, *left, u);
        }
        let ghost n0 = out@.len() as int;
        out.push(rec);
        let count = out.len();
        proof {
            assert(count == n0 + 1);
        }
        add_to_years(years, sell.date.year, u, realized, Ghost(n0));
        proof {
            let d2 = done.push(rec);
            assert(out@.subrange(out0.len() as int, out@.len() as int) =~= d2);
            assert(record_entries(d2).drop_last() =~= record_entries(done));
            assert(record_entries(d2).last() == entry_of(sell.date.year, u, realized));
        }
        let ghost old_left = *left;
        rem = rem - u;
        if *left - u > 0 {
            *left = *left - u;
        } else {
            *h = *h + 1;
            if *h < buys.len() {
                *left = buys[*h].unit;
            } else {
                *left = 0;
            }
        }
        proof {
            assert(out@.subrange(out0.len() as int, out@.len() as int) =~= done.push(rec));
            assert(done.push(rec) =~= done + seq![rec]);
            assert(out@.subrange(0, out0.len() as int) =~= out0);
            assert(forall|a: Seq<Realization>, b: Seq<Realization>, c: Seq<Realization>|
                (a + b) + c == a + (b + c)) by {
                assert forall|a: Seq<Realization>, b: Seq<Realization>, c: Seq<Realization>|
                    #[trigger] ((a + b) + c) == a + (b + c) by {
                    assert((a + b) + c =~= a + (b + c));
                }
            }
        }
    }
    proof {
        let d = out@.subrange(out0.len() as int, out@.len() as int);
        assert(out@ =~= out0 + d);
        assert(d + seq![] =~= d);
    }
    Ok(())
}

/// The events of `events` with action Buy, and those with action Sell, each
/// in their order.
fn split_by_action(events: &Vec<Stock>) -> (r: (Vec<Stock>, Vec<Stock>))
    ensures
        r.0@ == of_action(events@, Action::Buy),
        r.1@ == of_action(events@, Action::Sell),
{
    let mut buys: Vec<Stock> = Vec::new();
    let mut sells: Vec<Stock> = Vec::new();
    let mut k: usize = 0;
    while k < events.len()
        invariant
            k <= events.len(),
            buys@ == of_action(events@.take(k as int), Action::Buy),
            sells@ == of_action(events@.take(k as int), Action::Sell),
        decreases events.len() - k,
    {
        proof {
            let t = events@.take(k + 1);
            assert(t.drop_last() =~= events@.take(k as int));
            assert(t.last() == events@[k as int]);
        }
        match events[k].action {
            Action::Buy => buys.push(events[k].copy()),
            Action::Sell => sells.push(events[k].copy()),
        }
        k += 1;
    }
    proof {
        assert(events@.take(events.len() as int) =~= events@);
    }
    (buys, sells)
}

proof fn lemma_insert_by_date(s: Seq<Stock>, e: Stock, j: int)
    requires
        0 <= j <= s.len(),
        j == 0 || s[j - 1].date.spec_le(e.date),
        forall|i: int| j <= i < s.len() ==> !(#[trigger] s[i]).date.spec_le(e.date),
    ensures
        insert_by_date(s, e) == s.insert(j, e),
    decreases s.len(),
{
    if s.len() == 0 {
        assert(s.insert(j, e) =~= s.push(e));
    } else if s.last().date.spec_le(e.date) {
        assert(j == s.len());
        assert(s.insert(j, e) =~= s.push(e));
    } else {
        let d = s.drop_last();
        lemma_insert_by_date(d, e, j);
        assert(d.insert(j, e).push(s.last()) =~= s.insert(j, e));
    }
}

/// The events of `v` in ascending order of date; events of the same date
/// keep their order.
fn sorted_by_date(v: &Vec<Stock>) -> (r: Vec<Stock>)
    ensures
        r@ == sort_by_date(v@),
{
    let mut r: Vec<Stock> = Vec::new();
    let mut k: usize = 0;
    while k < v.len()
        invariant
            k <= v.len(),
            r@ == sort_by_date(v@.take(k as int)),
        decreases v.len() - k,
    {
        let e = v[k].copy();
        let mut j: usize = r.len();
        while j > 0 && !r[j - 1].date.le(&e.date)
            invariant
                j <= r.len(),
                forall|i: int| j <= i < r@.len() ==> !(#[trigger] r@[i]).date.spec_le(e.date),
            decreases j,
        {
            j -= 1;
        }
        proof {
            lemma_insert_by_date(r@, e, j as int);
            let t = v@.take(k + 1);
            assert(t.drop_last() =~= v@.take(k as int));
            assert(t.last() == e);
        }
        r.insert(j, e);
        k += 1;
    }
    proof {
        assert(v@.take(v.len() as int) =~= v@);
    }
    r
}

/// `(year, units sold, gains, losses)` of a slice of a sale.
pub open spec fn entry_of(year: i32, units: u32, realized: i128) -> (int, int, int, int) {
    (
        year as int,
        units as int,
        if realized >= 0 { realized as int } else { 0 },
        if realized < 0 { -realized } else { 0 },
    )
}

/// `(year, units sold, gains, losses)` of one realization.
pub open spec fn year_entry(r: Realization) -> (int, int, int, int) {
    entry_of(r.sell_date.year, r.units_sold, r.realized_amount)
}

pub open spec fn record_entries(rs: Seq<Realization>) -> Seq<(int, int, int, int)> {
    rs.map_values(|r: Realization| year_entry(r))
}

/// Yearly totals `ys` with entry `t` added: to the last bucket when it has
/// the year of `t`, else in a new bucket.
pub open spec fn add_year_entry(ys: Seq<(int, int, int, int)>, t: (int, int, int, int)) -> Seq<
    (int, int, int, int),
> {
    if ys.len() > 0 && ys.last().0 == t.0 {
        let l = ys.last();
        ys.update(ys.len() - 1, (l.0, l.1 + t.1, l.2 + t.2, l.3 + t.3))
    } else {
        ys.push(t)
    }
}

/// Yearly totals `ys` with the entries `es` added in order.
pub open spec fn fold_entries(ys: Seq<(int, int, int, int)>, es: Seq<(int, int, int, int)>) -> Seq<
    (int, int, int, int),
>
    decreases es.len(),
{
    if es.len() == 0 {
        ys
    } else {
        add_year_entry(fold_entries(ys, es.drop_last()), es.last())
    }
}

/// The entries that the disposals `sells`, matched in order against `q`,
/// contribute to the yearly totals: for each sale, an entry of its year with
/// no units and no amount (which opens its year's bucket), then the entries
/// of its realizations.
pub open spec fn sale_entries(ticker: String, sells: Seq<Stock>, q: Seq<Stock>) -> Seq<
    (int, int, int, int),
>
    decreases sells.len(),
{
    if sells.len() == 0 {
        seq![]
    } else {
        match match_sells(ticker, sells.drop_last(), q) {
            Ok((rs, q1)) => match match_sell(ticker, sells.last(), sells.last().unit, q1) {
                Ok((rs2, q2)) => sale_entries(ticker, sells.drop_last(), q) + seq![
                    entry_of(sells.last().date.year, 0, 0),
                ] + record_entries(rs2),
                Err(e) => seq![],
            },
            Err(e) => seq![],
        }
    }
}

/// Yearly totals `(year, units sold, gains, losses)` of the disposals of a
/// ticker: going through its sales in date order, a bucket opens whenever the
/// year of the sale changes, and it totals the realizations of its sales.
pub open spec fn fifo_years(ticker: String, events: Seq<Stock>) -> Seq<(int, int, int, int)> {
    fold_entries(
        seq![],
        sale_entries(
            ticker,
            sort_by_date(of_action(events, Action::Sell)),
            sort_by_date(of_action(events, Action::Buy)),
        ),
    )
}

impl YearSummary {
    pub open spec fn totals(self) -> (int, int, int, int) {
        (
            self.year as int,
            self.total_units_sold as int,
            self.total_gain as int,
            self.total_loss as int,
        )
    }

    /// The net realized amount of the year: gains less losses.
    pub open spec fn net_realized(self) -> int {
        self.total_gain - self.total_loss
    }
}

pub open spec fn summaries_of(ys: Seq<YearSummary>) -> Seq<(int, int, int, int)> {
    ys.map_values(|y: YearSummary| y.totals())
}

/// Every total of `ys` is within what `n` realizations can add up to.
spec fn bounded(ys: Seq<YearSummary>, n: int) -> bool {
    forall|j: int|
        0 <= j < ys.len() ==> {
            &&& (#[trigger] ys[j]).total_units_sold <= n * 0xffff_ffff
            &&& ys[j].total_gain <= n * MAX_REALIZED
            &&& ys[j].total_loss <= n * MAX_REALIZED
        }
}

proof fn lemma_fold_concat(
    ys: Seq<(int, int, int, int)>,
    a: Seq<(int, int, int, int)>,
    b: Seq<(int, int, int, int)>,
)
    ensures
        fold_entries(ys, a + b) == fold_entries(fold_entries(ys, a), b),
    decreases b.len(),
{
    if b.len() == 0 {
        assert(a + b =~= a);
    } else {
        assert((a + b).drop_last() =~= a + b.drop_last());
        lemma_fold_concat(ys, a, b.drop_last());
    }
}

proof fn lemma_fold_one(ys: Seq<(int, int, int, int)>, t: (int, int, int, int))
    ensures
        fold_entries(ys, seq![t]) == add_year_entry(ys, t),
{
    let one = seq![t];
    assert(one.drop_last() =~= Seq::<(int, int, int, int)>::empty());
    assert(one.last() == t);
    assert(fold_entries(ys, one.drop_last()) == ys);
}

/// Adds a slice of a sale (`units`, `realized`, in `year`) to the yearly
/// totals `years`, where the totals so far come from at most `n`
/// realizations.
fn add_to_years(years: &mut Vec<YearSummary>, year: i32, units: u32, realized: i128, n: Ghost<int>)
    requires
        bounded(old(years)@, n@),
        0 <= n@ < 0x1_0000_0000_0000_0000,
        -(MAX_REALIZED as int) <= realized <= MAX_REALIZED,
    ensures
        summaries_of(final(years)@) == add_year_entry(
            summaries_of(old(years)@),
            entry_of(year, units, realized),
        ),
        bounded(final(years)@, n@ + 1),
        units == 0 && realized == 0 ==> bounded(final(years)@, n@),
{
    let ghost prev = years@;
    let ghost k = n@;
    proof {
        assert((k + 1) * MAX_REALIZED <= 0xffff_ffff_ffff_ffff * MAX_REALIZED + MAX_REALIZED)
            by (nonlinear_arith)
            requires
                k + 1 <= 0x1_0000_0000_0000_0000,
        ;
        assert((k + 1) * 0xffff_ffff <= 0x1_0000_0000_0000_0000 * 0xffff_ffff) by (nonlinear_arith)
            requires
                k + 1 <= 0x1_0000_0000_0000_0000,
        ;
        assert(k * MAX_REALIZED + MAX_REALIZED == (k + 1) * MAX_REALIZED) by (nonlinear_arith);
        assert(k * 0xffff_ffff + 0xffff_ffff == (k + 1) * 0xffff_ffff) by (nonlinear_arith);
        assert(0 <= k * MAX_REALIZED) by (nonlinear_arith)
            requires
                0 <= k,
        ;
        assert(0 <= k * 0xffff_ffff) by (nonlinear_arith)
            requires
                0 <= k,
        ;
    }
    let (gain, loss): (u128, u128) = if realized >= 0 {
        (realized as u128, 0)
    } else {
        (0, (-realized) as u128)
    };
    let len = years.len();
    if len > 0 && years[len - 1].year == year {
        let last = years[len - 1];
        proof {
            assert(summaries_of(prev)[len - 1] == last.totals());
        }
        let upd = YearSummary {
            year: last.year,
            total_units_sold: last.total_units_sold + units as u128,
            total_gain: last.total_gain + gain,
            total_loss: last.total_loss + loss,
        };
        years.set(len - 1, upd);
        proof {
            assert(summaries_of(years@) =~= summaries_of(prev).update(len - 1, upd.totals()));
        }
    } else {
        let fresh = YearSummary {
            year: year,
            total_units_sold: units as u128,
            total_gain: gain,
            total_loss: loss,
        };
        years.push(fresh);
        proof {
            if len > 0 {
                assert(summaries_of(prev)[len - 1] == prev[len - 1].totals());
            }
            assert(summaries_of(years@) =~= summaries_of(prev).push(fresh.totals()));
        }
    }
}

proof fn lemma_sells_err(ticker: String, s: Seq<Stock>, q: Seq<Stock>, k: int)
    requires
        0 <= k <= s.len(),
        match_sells(ticker, s.take(k), q) is Err,
    ensures
        match_sells(ticker, s, q) == match_sells(ticker, s.take(k), q),
    decreases s.len() - k,
{
    if k == s.len() {
        assert(s.take(k) =~= s);
    } else {
        assert(s.take(k + 1).drop_last() =~= s.take(k));
        lemma_sells_err(ticker, s, q, k + 1);
    }
}

/// The lots of the queue that `buys`, `h` and `left` stand for.
fn remaining_lots(buys: &Vec<Stock>, h: usize, left: u32) -> (r: Vec<Stock>)
    ensures
        r@ == queue(buys@, h as int, left),
{
    let mut r: Vec<Stock> = Vec::new();
    if h >= buys.len() {
        return r;
    }
    r.push(buys[h].with_unit(left));
    let mut i: usize = h + 1;
    while i < buys.len()
        invariant
            h < i <= buys.len(),
            r@ == seq![with_unit(buys@[h as int], left)] + buys@.subrange(h + 1, i as int),
        decreases buys.len() - i,
    {
        r.push(buys[i].copy());
        proof {
            assert(seq![with_unit(buys@[h as int], left)] + buys@.subrange(h + 1, i + 1) =~= (seq![
                with_unit(buys@[h as int], left),
            ] + buys@.subrange(h + 1, i as int)).push(buys@[i as int]));
        }
        i += 1;
    }
    r
}

/// `r` is what FIFO matching owes for the events `events` of `ticker`: the
/// error that the matching meets, or the report of its realizations, of the
/// lots left and of the yearly totals (one bucket per run of sale years, see
/// `lemma_fifo_year_buckets`).
pub open spec fn is_fifo_report(ticker: String, events: Seq<Stock>, r: Result<TickerReport, FifoError>) -> bool {
    match fifo(ticker, events) {
        Ok((rs, q)) => {
            &&& r matches Ok(rep)
            &&& rep.ticker == ticker
            &&& rep.records@ == rs
            &&& rep.open_lots@ == q
            &&& summaries_of(rep.years@) == fifo_years(ticker, events)
        },
        Err(e) => r == Err::<TickerReport, FifoError>(e),
    }
}

impl TaxCalculatorService {
    /// FIFO matching of one ticker: disposals in date order, each consuming
    /// the oldest acquisition lots left, with realizations, yearly totals and
    /// the lots left; or the first error met, with nothing else.
    pub fn fifo_ticker(pos: &Positions) -> (r: Result<TickerReport, FifoError>)
        ensures
            is_fifo_report(pos.ticker, pos.shares@, r),
    {
        let (buys0, sells0) = split_by_action(&pos.shares);
        let buys = sorted_by_date(&buys0);
        let sells = sorted_by_date(&sells0);
        let mut h: usize = 0;
        let mut left: u32 = if buys.len() > 0 {
            buys[0].unit
        } else {
            0
        };
        proof {
            if buys.len() > 0 {
                assert(with_unit(buys@[0], left) == buys@[0]);
            }
            assert(queue(buys@, 0, left) =~= buys@);
            assert(sells@.take(0) =~= Seq::<Stock>::empty());
        }
        let mut records: Vec<Realization> = Vec::new();
        let mut years: Vec<YearSummary> = Vec::new();
        proof {
            assert(summaries_of(years@) =~= Seq::<(int, int, int, int)>::empty());
        }
        let mut k: usize = 0;
        while k < sells.len()
            invariant
                summaries_of(years@) == fold_entries(
                    seq![],
                    sale_entries(pos.ticker, sells@.take(k as int), buys@),
                ),
                bounded(years@, records@.len() as int),
                k <= sells.len(),
                h <= buys.len(),
                sells@ == sort_by_date(of_action(pos.shares@, Action::Sell)),
                buys@ == sort_by_date(of_action(pos.shares@, Action::Buy)),
                forall|i: int| 0 <= i < records@.len() ==> (#[trigger] records@[i]).wf(),
                match_sells(pos.ticker, sells@.take(k as int), buys@) == Ok::<
                    (Seq<Realization>, Seq<Stock>),
                    FifoError,
                >((records@, queue(buys@, h as int, left))),
            decreases sells.len() - k,
        {
            proof {
                let t = sells@.take(k + 1);
                assert(t.drop_last() =~= sells@.take(k as int));
                assert(t.last() == sells@[k as int]);
            }
            let ghost qk = queue(buys@, h as int, left);
            let ghost rec0 = records@;
            let ghost ek = sale_entries(pos.ticker, sells@.take(k as int), buys@);
            let ghost marker = entry_of(sells@[k as int].date.year, 0, 0);
            add_to_years(&mut years, sells[k].date.year, 0, 0, Ghost(records.len() as int));
            proof {
                lemma_fold_one(fold_entries(seq![], ek), marker);
                lemma_fold_concat(seq![], ek, seq![marker]);
            }
            match match_one_sell(
                &pos.ticker,
                &sells[k],
                &buys,
                &mut h,
                &mut left,
                &mut records,
                &mut years,
            ) {
                Ok(()) => {
                    proof {
                        let ms = match_sell(pos.ticker, sells@[k as int], sells@[k as int].unit, qk);
                        let rs2 = ms->Ok_0.0;
                        assert(sale_entries(pos.ticker, sells@.take(k + 1), buys@) == ek + seq![marker]
                            + record_entries(rs2));
                        lemma_fold_concat(seq![], ek + seq![marker], record_entries(rs2));
                    }
                },
                Err(e) => {
                    proof {
                        let m = match_sell(pos.ticker, sells@[k as int], sells@[k as int].unit, qk);
                        assert(m == Err::<(Seq<Realization>, Seq<Stock>), FifoError>(e));
                        assert(match_sells(pos.ticker, sells@.take(k + 1), buys@) == Err::<
                            (Seq<Realization>, Seq<Stock>),
                            FifoError,
                        >(e));
                        lemma_sells_err(pos.ticker, sells@, buys@, k + 1);
                    }
                    return Err(e);
                },
            }
            k += 1;
        }
        proof {
            assert(sells@.take(sells.len() as int) =~= sells@);
        }
        let open_lots = remaining_lots(&buys, h, left);
        Ok(TickerReport { ticker: pos.ticker.clone(), records, years, open_lots })
    }

    /// FIFO matching of each ticker of `portfolio`, one result per entry in
    /// its order; an error in one ticker leaves the others untouched.
    pub fn fifo_calculation(portfolio: &Portfolio) -> (r: Vec<Result<TickerReport, FifoError>>)
        ensures
            r@.len() == portfolio.stocks@.len(),
            forall|i: int|
                0 <= i < r@.len() ==> is_fifo_report(
                    portfolio.stocks@[i].ticker,
                    portfolio.stocks@[i].shares@,
                    #[trigger] r@[i],
                ),
    {
        let mut r: Vec<Result<TickerReport, FifoError>> = Vec::new();
        let mut i: usize = 0;
        while i < portfolio.stocks.len()
            invariant
                i <= portfolio.stocks.len(),
                r@.len() == i,
                forall|j: int|
                    0 <= j < i ==> is_fifo_report(
                        portfolio.stocks@[j].ticker,
                        portfolio.stocks@[j].shares@,
                        #[trigger] r@[j],
                    ),
            decreases portfolio.stocks.len() - i,
        {
            r.push(Self::fifo_ticker(&portfolio.stocks[i]));
            i += 1;
        }
        r
    }
}

/// Total quantity of a sequence of events.
pub open spec fn qty_sum(s: Seq<Stock>) -> int
    decreases s.len(),
{
    if s.len() == 0 {
        0
    } else {
        s[0].unit + qty_sum(s.drop_first())
    }
}

/// Total units of a sequence of realizations.
pub open spec fn units_sum(rs: Seq<Realization>) -> int
    decreases rs.len(),
{
    if rs.len() == 0 {
        0
    } else {
        rs[0].units_sold + units_sum(rs.drop_first())
    }
}

/// Every event of `s` is in currency `c`.
pub open spec fn in_currency(s: Seq<Stock>, c: Seq<char>) -> bool {
    forall|i: int| 0 <= i < s.len() ==> (#[trigger] s[i]).currency@ == c
}

proof fn lemma_qty_sum_push(s: Seq<Stock>, e: Stock)
    ensures
        qty_sum(s.push(e)) == qty_sum(s) + e.unit,
    decreases s.len(),
{
    if s.len() > 0 {
        assert(s.push(e).drop_first() =~= s.drop_first().push(e));
        lemma_qty_sum_push(s.drop_first(), e);
    } else {
        assert(s.push(e).drop_first() =~= s);
    }
}

proof fn lemma_qty_sum_nonneg(s: Seq<Stock>)
    ensures
        qty_sum(s) >= 0,
    decreases s.len(),
{
    if s.len() > 0 {
        lemma_qty_sum_nonneg(s.drop_first());
    }
}

proof fn lemma_units_sum_concat(a: Seq<Realization>, b: Seq<Realization>)
    ensures
        units_sum(a + b) == units_sum(a) + units_sum(b),
    decreases a.len(),
{
    if a.len() > 0 {
        assert((a + b).drop_first() =~= a.drop_first() + b);
        lemma_units_sum_concat(a.drop_first(), b);
    } else {
        assert(a + b =~= b);
    }
}

proof fn lemma_of_action(s: Seq<Stock>, a: Action, c: Seq<char>)
    requires
        in_currency(s, c),
    ensures
        in_currency(of_action(s, a), c),
    decreases s.len(),
{
    if s.len() > 0 {
        lemma_of_action(s.drop_last(), a, c);
    }
}

proof fn lemma_insert_by_date_sum(s: Seq<Stock>, e: Stock, c: Seq<char>)
    ensures
        qty_sum(insert_by_date(s, e)) == qty_sum(s) + e.unit,
        in_currency(s, c) && e.currency@ == c ==> in_currency(insert_by_date(s, e), c),
    decreases s.len(),
{
    if s.len() == 0 || s.last().date.spec_le(e.date) {
        lemma_qty_sum_push(s, e);
    } else {
        let d = s.drop_last();
        lemma_insert_by_date_sum(d, e, c);
        lemma_qty_sum_push(insert_by_date(d, e), s.last());
        lemma_qty_sum_push(d, s.last());
        assert(d.push(s.last()) =~= s);
    }
}

proof fn lemma_sort_by_date_sum(s: Seq<Stock>, c: Seq<char>)
    ensures
        qty_sum(sort_by_date(s)) == qty_sum(s),
        in_currency(s, c) ==> in_currency(sort_by_date(s), c),
    decreases s.len(),
{
    if s.len() > 0 {
        let d = s.drop_last();
        lemma_sort_by_date_sum(d, c);
        lemma_insert_by_date_sum(sort_by_date(d), s.last(), c);
        lemma_qty_sum_push(d, s.last());
        assert(d.push(s.last()) =~= s);
    }
}

proof fn lemma_match_sell_conserves(ticker: String, sell: Stock, rem: u32, q: Seq<Stock>)
    requires
        in_currency(q, sell.currency@),
    ensures
        rem <= qty_sum(q) ==> (match_sell(ticker, sell, rem, q) matches Ok((rs, q2)) && units_sum(rs)
            == rem && qty_sum(q2) == qty_sum(q) - rem && in_currency(q2, sell.currency@)),
        rem > qty_sum(q) ==> match_sell(ticker, sell, rem, q) == Err::<
            (Seq<Realization>, Seq<Stock>),
            FifoError,
        >(FifoError::InsufficientLots),
    decreases rem, q.len(),
{
    lemma_qty_sum_nonneg(q);
    if rem == 0 {
        assert(units_sum(seq![]) == 0);
    } else if q.len() == 0 {
    } else {
        let b = q[0];
        let u = min_u32(rem, b.unit);
        let rest = if b.unit - u > 0 {
            q.update(0, with_unit(b, (b.unit - u) as u32))
        } else {
            q.drop_first()
        };
        if b.unit - u > 0 {
            assert(rest.drop_first() =~= q.drop_first());
        }
        assert(qty_sum(rest) == qty_sum(q) - u);
        assert(in_currency(rest, sell.currency@)) by {
            assert forall|i: int| 0 <= i < rest.len() implies (#[trigger] rest[i]).currency@
                == sell.currency@ by {
                if b.unit - u > 0 {
                    if i > 0 {
                        assert(rest[i] == q[i]);
                    }
                } else {
                    assert(rest[i] == q[i + 1]);
                }
            }
        }
        lemma_match_sell_conserves(ticker, sell, (rem - u) as u32, rest);
        match match_sell(ticker, sell, (rem - u) as u32, rest) {
            Ok((rs, left)) => {
                let all = seq![realization(ticker, sell, b, u)] + rs;
                assert(all.drop_first() =~= rs);
            },
            Err(e) => {},
        }
    }
}

proof fn lemma_match_sells_conserves(ticker: String, sells: Seq<Stock>, q: Seq<Stock>, c: Seq<char>)
    requires
        in_currency(q, c),
        in_currency(sells, c),
    ensures
        qty_sum(sells) <= qty_sum(q) ==> (match_sells(ticker, sells, q) matches Ok((rs, q2))
            && units_sum(rs) == qty_sum(sells) && qty_sum(q2) == qty_sum(q) - qty_sum(sells)
            && in_currency(q2, c)),
        qty_sum(sells) > qty_sum(q) ==> match_sells(ticker, sells, q) == Err::<
            (Seq<Realization>, Seq<Stock>),
            FifoError,
        >(FifoError::InsufficientLots),
    decreases sells.len(),
{
    lemma_qty_sum_nonneg(q);
    if sells.len() == 0 {
        assert(units_sum(seq![]) == 0);
    } else {
        let d = sells.drop_last();
        let last = sells.last();
        lemma_qty_sum_push(d, last);
        assert(d.push(last) =~= sells);
        lemma_match_sells_conserves(ticker, d, q, c);
        match match_sells(ticker, d, q) {
            Ok((rs, q1)) => {
                lemma_match_sell_conserves(ticker, last, last.unit, q1);
                match match_sell(ticker, last, last.unit, q1) {
                    Ok((rs2, q2)) => {
                        lemma_units_sum_concat(rs, rs2);
                    },
                    Err(e) => {},
                }
            },
            Err(e) => {},
        }
    }
}

/// Conservation of units, for a ticker whose events are all in one currency
/// `c`: when the units disposed of do not exceed the units acquired, matching
/// succeeds, its realizations consume exactly the units disposed of, and the
/// lots left hold the rest; when they exceed them, matching fails with
/// `InsufficientLots`.
pub proof fn lemma_fifo_conservation(ticker: String, events: Seq<Stock>, c: Seq<char>)
    requires
        in_currency(events, c),
    ensures
        qty_sum(of_action(events, Action::Sell)) <= qty_sum(of_action(events, Action::Buy))
            ==> (fifo(ticker, events) matches Ok((rs, q)) && units_sum(rs) == qty_sum(
            of_action(events, Action::Sell),
        ) && qty_sum(q) == qty_sum(of_action(events, Action::Buy)) - qty_sum(
            of_action(events, Action::Sell),
        )),
        qty_sum(of_action(events, Action::Sell)) > qty_sum(of_action(events, Action::Buy))
            ==> fifo(ticker, events) == Err::<(Seq<Realization>, Seq<Stock>), FifoError>(
            FifoError::InsufficientLots,
        ),
{
    let sells = of_action(events, Action::Sell);
    let buys = of_action(events, Action::Buy);
    lemma_of_action(events, Action::Sell, c);
    lemma_of_action(events, Action::Buy, c);
    lemma_sort_by_date_sum(sells, c);
    lemma_sort_by_date_sum(buys, c);
    lemma_match_sells_conserves(ticker, sort_by_date(sells), sort_by_date(buys), c);
}

/// The events of `s` are in ascending order of date.
pub open spec fn dates_ascending(s: Seq<Stock>) -> bool {
    forall|i: int, j: int| 0 <= i < j < s.len() ==> (#[trigger] s[i]).date.spec_le((#[trigger] s[j]).date)
}

proof fn lemma_insert_by_date_sorted(s: Seq<Stock>, e: Stock)
    requires
        dates_ascending(s),
    ensures
        dates_ascending(insert_by_date(s, e)),
        insert_by_date(s, e).to_multiset() == s.to_multiset().insert(e),
        forall|b: Date|
            (forall|i: int| 0 <= i < s.len() ==> (#[trigger] s[i]).date.spec_le(b)) && e.date.spec_le(b)
                ==> forall|i: int|
                0 <= i < insert_by_date(s, e).len() ==> (#[trigger] insert_by_date(s, e)[i]).date.spec_le(b),
    decreases s.len(),
{
    broadcast use vstd::seq_lib::group_to_multiset_ensures;

    let r = insert_by_date(s, e);
    if s.len() == 0 || s.last().date.spec_le(e.date) {
        assert forall|i: int, j: int| 0 <= i < j < r.len() implies (#[trigger] r[i]).date.spec_le(
            (#[trigger] r[j]).date,
        ) by {
            if j == s.len() && s.len() > 0 {
                assert(s[i].date.spec_le(s.last().date) || i == s.len() - 1);
            }
        }
        assert forall|b: Date|
            (forall|i: int| 0 <= i < s.len() ==> (#[trigger] s[i]).date.spec_le(b)) && e.date.spec_le(b)
                implies forall|i: int| 0 <= i < r.len() ==> (#[trigger] r[i]).date.spec_le(b) by {
            assert forall|i: int| 0 <= i < r.len() implies (#[trigger] r[i]).date.spec_le(b) by {
                if i < s.len() {
                    assert(r[i] == s[i]);
                }
            }
        }
    } else {
        let d = s.drop_last();
        let l = s.last();
        assert(dates_ascending(d)) by {
            assert forall|i: int, j: int| 0 <= i < j < d.len() implies (#[trigger] d[i]).date.spec_le(
                (#[trigger] d[j]).date,
            ) by {
                assert(d[i] == s[i] && d[j] == s[j]);
            }
        }
        lemma_insert_by_date_sorted(d, e);
        let m = insert_by_date(d, e);
        assert forall|i: int| 0 <= i < d.len() implies (#[trigger] d[i]).date.spec_le(l.date) by {
            assert(d[i] == s[i]);
            assert(s[i].date.spec_le(s[s.len() - 1].date));
        }
        assert(e.date.spec_le(l.date));
        assert(forall|i: int| 0 <= i < m.len() ==> (#[trigger] m[i]).date.spec_le(l.date));
        assert(r == m.push(l));
        assert forall|i: int, j: int| 0 <= i < j < r.len() implies (#[trigger] r[i]).date.spec_le(
            (#[trigger] r[j]).date,
        ) by {
            if j == m.len() {
                assert(r[i] == m[i]);
            } else {
                assert(r[i] == m[i] && r[j] == m[j]);
            }
        }
        assert forall|b: Date|
            (forall|i: int| 0 <= i < s.len() ==> (#[trigger] s[i]).date.spec_le(b)) && e.date.spec_le(b)
                implies forall|i: int| 0 <= i < r.len() ==> (#[trigger] r[i]).date.spec_le(b) by {
            assert forall|i: int| 0 <= i < d.len() implies (#[trigger] d[i]).date.spec_le(b) by {
                assert(d[i] == s[i]);
            }
            assert(s[s.len() - 1] == l);
            assert forall|i: int| 0 <= i < r.len() implies (#[trigger] r[i]).date.spec_le(b) by {
                if i < m.len() {
                    assert(r[i] == m[i]);
                }
            }
        }
        assert(d.push(l) =~= s);
        assert(r.to_multiset() =~= s.to_multiset().insert(e));
    }
}

/// Acquisition lots are queued oldest first: the queue that the disposals of
/// a ticker are matched against, front first, holds exactly its acquisitions,
/// in ascending order of date.
pub proof fn lemma_lots_oldest_first(events: Seq<Stock>)
    ensures
        dates_ascending(sort_by_date(of_action(events, Action::Buy))),
        sort_by_date(of_action(events, Action::Buy)).to_multiset() == of_action(
            events,
            Action::Buy,
        ).to_multiset(),
{
    lemma_sort_by_date_sorted(of_action(events, Action::Buy));
}

proof fn lemma_sort_by_date_sorted(s: Seq<Stock>)
    ensures
        dates_ascending(sort_by_date(s)),
        sort_by_date(s).to_multiset() == s.to_multiset(),
    decreases s.len(),
{
    broadcast use vstd::seq_lib::group_to_multiset_ensures;

    if s.len() > 0 {
        let d = s.drop_last();
        lemma_sort_by_date_sorted(d);
        lemma_insert_by_date_sorted(sort_by_date(d), s.last());
        assert(d.push(s.last()) =~= s);
    } else {
        assert(s.to_multiset() =~= vstd::multiset::Multiset::empty());
        assert(sort_by_date(s).to_multiset() =~= vstd::multiset::Multiset::empty());
    }
}

/// The years of the sales `sells`, one per run of sales of the same year.
pub open spec fn year_runs(sells: Seq<Stock>) -> Seq<int>
    decreases sells.len(),
{
    if sells.len() == 0 {
        seq![]
    } else {
        let p = year_runs(sells.drop_last());
        let y = sells.last().date.year as int;
        if p.len() > 0 && p.last() == y {
            p
        } else {
            p.push(y)
        }
    }
}

pub open spec fn years_of(ys: Seq<(int, int, int, int)>) -> Seq<int> {
    ys.map_values(|t: (int, int, int, int)| t.0)
}

proof fn lemma_add_year_entry_years(ys: Seq<(int, int, int, int)>, t: (int, int, int, int))
    ensures
        years_of(add_year_entry(ys, t)) == (if ys.len() > 0 && ys.last().0 == t.0 {
            years_of(ys)
        } else {
            years_of(ys).push(t.0)
        }),
        add_year_entry(ys, t).len() > 0,
        add_year_entry(ys, t).last().0 == t.0,
{
    let r = add_year_entry(ys, t);
    if ys.len() > 0 && ys.last().0 == t.0 {
        assert(years_of(r) =~= years_of(ys));
    } else {
        assert(years_of(r) =~= years_of(ys).push(t.0));
    }
}

proof fn lemma_fold_same_year(ys: Seq<(int, int, int, int)>, es: Seq<(int, int, int, int)>, y: int)
    requires
        ys.len() > 0,
        ys.last().0 == y,
        forall|i: int| 0 <= i < es.len() ==> (#[trigger] es[i]).0 == y,
    ensures
        years_of(fold_entries(ys, es)) == years_of(ys),
        fold_entries(ys, es).len() > 0,
        fold_entries(ys, es).last().0 == y,
    decreases es.len(),
{
    if es.len() > 0 {
        let d = es.drop_last();
        assert forall|i: int| 0 <= i < d.len() implies (#[trigger] d[i]).0 == y by {
            assert(d[i] == es[i]);
        }
        lemma_fold_same_year(ys, d, y);
        assert(es.last().0 == y);
        lemma_add_year_entry_years(fold_entries(ys, d), es.last());
    }
}

proof fn lemma_match_sell_dates(ticker: String, sell: Stock, rem: u32, q: Seq<Stock>)
    ensures
        match_sell(ticker, sell, rem, q) matches Ok((rs, q2)) ==> forall|i: int|
            0 <= i < rs.len() ==> (#[trigger] rs[i]).sell_date == sell.date,
    decreases rem, q.len(),
{
    if rem > 0 && q.len() > 0 && q[0].currency@ == sell.currency@ {
        let b = q[0];
        let u = min_u32(rem, b.unit);
        let rest = if b.unit - u > 0 {
            q.update(0, with_unit(b, (b.unit - u) as u32))
        } else {
            q.drop_first()
        };
        lemma_match_sell_dates(ticker, sell, (rem - u) as u32, rest);
        match match_sell(ticker, sell, (rem - u) as u32, rest) {
            Ok((rs, left)) => {
                let all = seq![realization(ticker, sell, b, u)] + rs;
                assert forall|i: int| 0 <= i < all.len() implies (#[trigger] all[i]).sell_date
                    == sell.date by {
                    if i > 0 {
                        assert(all[i] == rs[i - 1]);
                    }
                }
            },
            Err(e) => {},
        }
    }
}

proof fn lemma_sale_entries_years(ticker: String, sells: Seq<Stock>, q: Seq<Stock>)
    requires
        match_sells(ticker, sells, q) is Ok,
    ensures
        years_of(fold_entries(seq![], sale_entries(ticker, sells, q))) == year_runs(sells),
        sells.len() > 0 ==> fold_entries(seq![], sale_entries(ticker, sells, q)).len() > 0
            && fold_entries(seq![], sale_entries(ticker, sells, q)).last().0 == sells.last().date.year,
    decreases sells.len(),
{
    if sells.len() == 0 {
        assert(years_of(seq![]) =~= Seq::<int>::empty());
    } else {
        let d = sells.drop_last();
        let last = sells.last();
        let (rs, q1) = match_sells(ticker, d, q)->Ok_0;
        let (rs2, q2) = match_sell(ticker, last, last.unit, q1)->Ok_0;
        lemma_sale_entries_years(ticker, d, q);
        let e1 = sale_entries(ticker, d, q);
        let m = entry_of(last.date.year, 0, 0);
        let recs = record_entries(rs2);
        let f1 = fold_entries(seq![], e1);
        lemma_fold_concat(seq![], e1 + seq![m], recs);
        lemma_fold_concat(seq![], e1, seq![m]);
        lemma_fold_one(f1, m);
        lemma_add_year_entry_years(f1, m);
        lemma_match_sell_dates(ticker, last, last.unit, q1);
        assert forall|i: int| 0 <= i < recs.len() implies (#[trigger] recs[i]).0 == last.date.year by {
            assert(rs2[i].sell_date == last.date);
        }
        lemma_fold_same_year(add_year_entry(f1, m), recs, last.date.year as int);
        if d.len() > 0 {
            assert(years_of(f1).last() == f1.last().0);
        }
    }
}

/// Year buckets: when matching succeeds, the years of the yearly totals, in
/// order, are the runs of equal years among the ticker's sales in date order;
/// a year whose sales all have quantity 0 still has its bucket, with zero
/// totals.
pub proof fn lemma_fifo_year_buckets(ticker: String, events: Seq<Stock>)
    requires
        fifo(ticker, events) is Ok,
    ensures
        years_of(fifo_years(ticker, events)) == year_runs(
            sort_by_date(of_action(events, Action::Sell)),
        ),
{
    lemma_sale_entries_years(
        ticker,
        sort_by_date(of_action(events, Action::Sell)),
        sort_by_date(of_action(events, Action::Buy)),
    );
}

/// `q` is what is left of the lots `buys` after consuming them in order: the
/// lots before some index `h` are used up, lot `h` has `left` of its units
/// (no more than it had), and the lots after it are untouched.
pub open spec fn lots_left(buys: Seq<Stock>, q: Seq<Stock>) -> bool {
    exists|h: int, left: u32|
        0 <= h <= buys.len() && (h < buys.len() ==> left <= buys[h].unit) && q == queue(
            buys,
            h,
            left,
        )
}

proof fn lemma_match_sell_lots_left(
    ticker: String,
    sell: Stock,
    rem: u32,
    buys: Seq<Stock>,
    h: int,
    left: u32,
)
    requires
        0 <= h <= buys.len(),
        h < buys.len() ==> left <= buys[h].unit,
    ensures
        match_sell(ticker, sell, rem, queue(buys, h, left)) matches Ok((rs, q2)) ==> lots_left(
            buys,
            q2,
        ),
    decreases rem, buys.len() - h,
{
    let q = queue(buys, h, left);
    if rem == 0 {
        assert(lots_left(buys, q));
    } else if q.len() > 0 && q[0].currency@ == sell.currency@ {
        let b = q[0];
        assert(b == with_unit(buys[h], left));
        let u = min_u32(rem, b.unit);
        lemma_queue_step(buys, h, left, u);
        if b.unit - u > 0 {
            lemma_match_sell_lots_left(ticker, sell, (rem - u) as u32, buys, h, (left - u) as u32);
        } else if h + 1 < buys.len() {
            lemma_match_sell_lots_left(ticker, sell, (rem - u) as u32, buys, h + 1, buys[h + 1].unit);
        } else {
            lemma_match_sell_lots_left(ticker, sell, (rem - u) as u32, buys, h + 1, 0);
        }
    }
}

proof fn lemma_match_sells_lots_left(ticker: String, sells: Seq<Stock>, buys: Seq<Stock>)
    ensures
        match_sells(ticker, sells, buys) matches Ok((rs, q2)) ==> lots_left(buys, q2),
    decreases sells.len(),
{
    if sells.len() == 0 {
        if buys.len() > 0 {
            assert(with_unit(buys[0], buys[0].unit) == buys[0]);
            assert(queue(buys, 0, buys[0].unit) =~= buys);
        } else {
            assert(queue(buys, 0, 0) =~= buys);
        }
    } else {
        let d = sells.drop_last();
        lemma_match_sells_lots_left(ticker, d, buys);
        match match_sells(ticker, d, buys) {
            Ok((rs, q1)) => {
                let (h, left) = choose|h: int, left: u32|
                    0 <= h <= buys.len() && (h < buys.len() ==> left <= buys[h].unit) && q1
                        == queue(buys, h, left);
                lemma_match_sell_lots_left(ticker, sells.last(), sells.last().unit, buys, h, left);
            },
            Err(e) => {},
        }
    }
}

/// No acquisition lot is consumed beyond its quantity, and lots are consumed
/// in order: when matching succeeds, the lots left are the ticker's
/// acquisitions in date order from some index `h` on, where lot `h` keeps at
/// most its own quantity and the later lots are untouched.
pub proof fn lemma_fifo_lots_left(ticker: String, events: Seq<Stock>)
    ensures
        fifo(ticker, events) matches Ok((rs, q)) ==> lots_left(
            sort_by_date(of_action(events, Action::Buy)),
            q,
        ),
{
    lemma_match_sells_lots_left(
        ticker,
        sort_by_date(of_action(events, Action::Sell)),
        sort_by_date(of_action(events, Action::Buy)),
    );
}

} // verus!
