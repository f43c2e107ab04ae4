use crate::date::{parsed_date, Date};
use crate::portfolio::{has_ticker, ledger_of, Action, Ledger, Positions, Stock};
use vstd::prelude::*;

verus! {

/// Why importing a statement failed.
#[derive(Clone, Debug, PartialEq, Eq)]
pub enum ImportError {
    /// A record lacks a field that an event needs, or holds one that cannot be read.
    MalformedEvent,
    /// The statement format is not supported.
    UnsupportedFormat,
    /// Reading the statement failed; the text says why.
    Source(String),
}

/// A source of imported entries: reads the given files into one entry per ticker.
pub trait Importer {
    fn import(&mut self, file_paths: Vec<String>) -> Result<Vec<Positions>, ImportError>;
}

/// Runs an importer.
pub struct ImporterService<I: Importer> {
    pub importer: I,
}

impl<I: Importer> ImporterService<I> {
    pub fn new_importer(imp: I) -> (r: Result<Self, ImportError>)
        ensures
            r matches Ok(s) && s.importer == imp,
    {
        Ok(ImporterService { importer: imp })
    }

    /// Imports `file_paths` with the importer held.
    pub fn run(&mut self, file_paths: Vec<String>) -> Result<Vec<Positions>, ImportError> {
        self.importer.import(file_paths)
    }
}

/// Importer of the comma-separated statement format, which is not supported yet.
pub struct CsvImporter {
    pub positions: Vec<Positions>,
}

impl CsvImporter {
    pub fn new() -> (r: Self)
        ensures
            r.positions@.len() == 0,
    {
        CsvImporter { positions: Vec::new() }
    }

    /// Reads one file; no record of this format is read yet.
    pub fn import_csv(file: &String) -> (r: Result<(), ImportError>)
        ensures
            r is Ok,
    {
        Ok(())
    }
}

impl Importer for CsvImporter {
    /// Reads each file in order, stopping at the first error and returning it;
    /// as no record of this format is read yet, the outcome is that the
    /// format is not supported.
    fn import(&mut self, file_paths: Vec<String>) -> (r: Result<Vec<Positions>, ImportError>)
        ensures
            r == Err::<Vec<Positions>, ImportError>(ImportError::UnsupportedFormat),
            final(self).positions@ == old(self).positions@,
    {
        let mut k: usize = 0;
        while k < file_paths.len()
            invariant
                k <= file_paths.len(),
                self.positions@ == old(self).positions@,
            decreases file_paths.len() - k,
        {
            match CsvImporter::import_csv(&file_paths[k]) {
                Ok(()) => {},
                Err(e) => {
                    return Err(e);
                },
            }
            k += 1;
        }
        Err(ImportError::UnsupportedFormat)
    }
}

/// `l` with events `sh` appended to each entry of ticker `t`, or with a new
/// entry `(t, sh)` when there is none.
pub open spec fn add_to_ticker(l: Ledger, t: Seq<char>, sh: Seq<Stock>) -> Ledger {
    if has_ticker(l, t) {
        l.map_values(|q: (Seq<char>, Seq<Stock>)| if q.0 == t { (q.0, q.1 + sh) } else { q })
    } else {
        l.push((t, sh))
    }
}

/// `l` with the events `evs`, each with its ticker, added one by one.
pub open spec fn add_events(l: Ledger, evs: Seq<(Seq<char>, Stock)>) -> Ledger
    decreases evs.len(),
{
    if evs.len() == 0 {
        l
    } else {
        let e = evs.last();
        add_to_ticker(add_events(l, evs.drop_last()), e.0, seq![e.1])
    }
}

/// Appends `shares` to each entry of `ticker` in `positions`, or adds an
/// entry for `ticker` holding them when there is none.
pub fn add_shares(positions: &mut Vec<Positions>, ticker: &String, shares: &Vec<Stock>)
    ensures
        ledger_of(final(positions)@) == add_to_ticker(ledger_of(old(positions)@), ticker@, shares@),
{
    let ghost before = ledger_of(positions@);
    let ghost t = ticker@;
    let mut found = false;
    let mut i: usize = 0;
    while i < positions.len()
        invariant
            i <= positions.len(),
            t == ticker@,
            before == ledger_of(old(positions)@),
            positions@.len() == before.len(),
            forall|x: int|
                0 <= x < i ==> #[trigger] ledger_of(positions@)[x] == (if before[x].0 == t {
                    (before[x].0, before[x].1 + shares@)
                } else {
                    before[x]
                }),
            forall|x: int| i <= x < before.len() ==> #[trigger] ledger_of(positions@)[x] == before[x],
            found <==> exists|x: int| 0 <= x < i && (#[trigger] before[x]).0 == t,
        decreases positions.len() - i,
    {
        let ghost s0 = positions@;
        proof {
            assert(ledger_of(positions@)[i as int] == before[i as int]);
            assert(before[i as int].0 == s0[i as int].ticker@);
        }
        let same = positions[i].ticker.eq(ticker);
        if same {
            found = true;
            let mut pos = positions.remove(i);
            let mut k: usize = 0;
            let ghost sh0 = pos.shares@;
            while k < shares.len()
                invariant
                    k <= shares.len(),
                    pos.shares@ == sh0 + shares@.take(k as int),
                    i < s0.len(),
                    pos.ticker == s0[i as int].ticker,
                decreases shares.len() - k,
            {
                pos.shares.push(shares[k].copy());
                proof {
                    assert(sh0 + shares@.take(k + 1) =~= (sh0 + shares@.take(k as int)).push(
                        shares@[k as int],
                    ));
                }
                k += 1;
            }
            proof {
                assert(shares@.take(shares.len() as int) =~= shares@);
            }
            let ghost g = pos;
            positions.insert(i, pos);
            proof {
                assert(positions@ =~= s0.update(i as int, g));
            }
        }
        proof {
            assert forall|x: int| 0 <= x < i + 1 implies #[trigger] ledger_of(positions@)[x] == (
            if before[x].0 == t {
                (before[x].0, before[x].1 + shares@)
            } else {
                before[x]
            }) by {
                if x < i {
                    assert(ledger_of(positions@)[x] == ledger_of(s0)[x]);
                }
            }
            assert forall|x: int| i + 1 <= x < before.len() implies #[trigger] ledger_of(
                positions@,
            )[x] == before[x] by {
                assert(ledger_of(positions@)[x] == ledger_of(s0)[x]);
            }
        }
        i += 1;
    }
    let ghost mid = ledger_of(positions@);
    if !found {
        proof {
            assert forall|x: int| 0 <= x < before.len() implies #[trigger] mid[x] == before[x] by {
                if before[x].0 == t {
                    assert(has_ticker(before, t));
                }
            }
        }
        let mut copy: Vec<Stock> = Vec::new();
        let mut k: usize = 0;
        while k < shares.len()
            invariant
                k <= shares.len(),
                copy@ == shares@.take(k as int),
                mid == ledger_of(positions@),
                t == ticker@,
                !found,
                forall|x: int| 0 <= x < before.len() ==> #[trigger] mid[x] == before[x],
                !has_ticker(before, t),
                mid.len() == before.len(),
            decreases shares.len() - k,
        {
            copy.push(shares[k].copy());
            proof {
                assert(shares@.take(k + 1) =~= shares@.take(k as int).push(shares@[k as int]));
            }
            k += 1;
        }
        proof {
            assert(shares@.take(shares.len() as int) =~= shares@);
        }
        let ghost pre = positions@;
        let np = Positions { ticker: ticker.clone(), shares: copy };
        proof {
            assert(np.ticker@ == t);
            assert(np.shares@ == shares@);
        }
        positions.push(np);
        proof {
            assert(positions@ == pre.push(np));
            assert(ledger_of(positions@).len() == before.len() + 1);
            assert forall|x: int| 0 <= x < before.len() implies ledger_of(positions@)[x] == before[x] by {
                assert(positions@[x] == pre[x]);
                assert(ledger_of(pre)[x] == mid[x]);
            }
            assert(ledger_of(positions@)[before.len() as int] == (t, shares@));
            assert(ledger_of(positions@) =~= before.push((t, shares@)));
        }
    } else {
        proof {
            assert(has_ticker(before, t));
            assert(mid =~= add_to_ticker(before, t, shares@));
        }
    }
}

/// One record of a broker statement, with amounts in fixed point; any field
/// may be missing.
#[derive(Clone, Debug)]
pub struct StatementRow {
    pub symbol: Option<String>,
    pub date: Option<String>,
    pub quantity: Option<u32>,
    pub price: Option<u32>,
    pub metadata: Option<String>,
}

pub open spec fn opt_view(o: Option<String>) -> Option<Seq<char>> {
    match o {
        Some(s) => Some(s@),
        None => None,
    }
}

/// What an event read from `row` holds: ticker, date (read with format
/// `fmt`), quantity, price and metadata (`meta` when given, else the row's);
/// none when a field is missing or the date cannot be read.
pub open spec fn read_row(row: StatementRow, fmt: Seq<char>, meta: Option<Seq<char>>) -> Option<
    (Seq<char>, Date, u32, u32, Seq<char>),
> {
    let m = if meta is Some {
        meta
    } else {
        opt_view(row.metadata)
    };
    match (row.symbol, row.date, row.quantity, row.price, m) {
        (Some(s), Some(d), Some(q), Some(p), Some(m)) => match parsed_date(d@, fmt) {
            Some((y, mo, da)) => Some((s@, Date { year: y, month: mo, day: da }, q, p, m)),
            None => None,
        },
        _ => None,
    }
}

/// `ev` is the event, in US dollars, with action `action`, that `r` describes.
pub open spec fn is_event(
    ev: (Seq<char>, Stock),
    r: (Seq<char>, Date, u32, u32, Seq<char>),
    action: Action,
) -> bool {
    &&& ev.0 == r.0
    &&& ev.1.date == r.1
    &&& ev.1.unit == r.2
    &&& ev.1.price == r.3
    &&& ev.1.metadata@ == r.4
    &&& ev.1.currency@ == "USD"@
    &&& ev.1.action == action
}

/// `after` is `before` with the events of the first `n` rows of `rows` added
/// in order, grouped by ticker.
pub open spec fn rows_added(
    before: Ledger,
    after: Ledger,
    rows: Seq<StatementRow>,
    n: int,
    fmt: Seq<char>,
    meta: Option<Seq<char>>,
    action: Action,
) -> bool {
    exists|evs: Seq<(Seq<char>, Stock)>|
        {
            &&& evs.len() == n
            &&& forall|i: int|
                0 <= i < n ==> is_event(#[trigger] evs[i], read_row(rows[i], fmt, meta)->0, action)
            &&& after == add_events(before, evs)
        }
}

/// The event that `row` describes.
fn event_of_row(row: &StatementRow, fmt: &str, action: Action, meta: &Option<String>) -> (r: Result<
    (String, Stock),
    ImportError,
>)
    ensures
        match read_row(*row, fmt@, opt_view(*meta)) {
            Some(e) => r matches Ok(ev) && is_event((ev.0@, ev.1), e, action),
            None => r == Err::<(String, Stock), ImportError>(ImportError::MalformedEvent),
        },
{
    let m = match meta {
        Some(m) => m,
        None => match &row.metadata {
            Some(m) => m,
            None => {
                return Err(ImportError::MalformedEvent);
            },
        },
    };
    let (symbol, text, quantity, price) = match (&row.symbol, &row.date, row.quantity, row.price) {
        (Some(s), Some(d), Some(q), Some(p)) => (s, d, q, p),
        _ => {
            return Err(ImportError::MalformedEvent);
        },
    };
    let date = match Date::parse(text.as_str(), fmt) {
        Some(d) => d,
        None => {
            return Err(ImportError::MalformedEvent);
        },
    };
    let stock = Stock {
        date: date,
        price: price,
        currency: "USD".to_string(),
        unit: quantity,
        action: action,
        metadata: m.clone(),
    };
    proof {
        reveal_strlit("USD");
    }
    Ok((symbol.clone(), stock))
}

/// Adds, in order, the event of each row of `rows` to `positions`, grouped
/// by ticker; stops at the first row that does not describe an event.
pub fn process_rows(
    rows: &Vec<StatementRow>,
    fmt: &str,
    action: Action,
    meta: &Option<String>,
    positions: &mut Vec<Positions>,
) -> (r: Result<(), ImportError>)
    ensures
        r is Ok <==> forall|i: int|
            0 <= i < rows@.len() ==> read_row(#[trigger] rows@[i], fmt@, opt_view(*meta)) is Some,
        r is Err ==> r == Err::<(), ImportError>(ImportError::MalformedEvent),
        r is Ok ==> rows_added(
            ledger_of(old(positions)@),
            ledger_of(final(positions)@),
            rows@,
            rows@.len() as int,
            fmt@,
            opt_view(*meta),
            action,
        ),
        r is Err ==> exists|k: int|
            0 <= k < rows@.len() && read_row(rows@[k], fmt@, opt_view(*meta)) is None && (forall|i: int|
                0 <= i < k ==> read_row(#[trigger] rows@[i], fmt@, opt_view(*meta)) is Some)
                && rows_added(
                ledger_of(old(positions)@),
                ledger_of(final(positions)@),
                rows@,
                k,
                fmt@,
                opt_view(*meta),
                action,
            ),
{
    let ghost mut evs: Seq<(Seq<char>, Stock)> = Seq::empty();
    let mut k: usize = 0;
    while k < rows.len()
        invariant
            k <= rows.len(),
            evs.len() == k,
            forall|i: int| 0 <= i < k ==> read_row(#[trigger] rows@[i], fmt@, opt_view(*meta)) is Some,
            forall|i: int|
                0 <= i < k ==> is_event(
                    #[trigger] evs[i],
                    read_row(rows@[i], fmt@, opt_view(*meta))->0,
                    action,
                ),
            ledger_of(positions@) == add_events(ledger_of(old(positions)@), evs),
        decreases rows.len() - k,
    {
        match event_of_row(&rows[k], fmt, action, meta) {
            Ok((ticker, stock)) => {
                let ghost ev = (ticker@, stock);
                let one = vec![stock];
                add_shares(positions, &ticker, &one);
                proof {
                    let ne = evs.push(ev);
                    assert(ne.drop_last() =~= evs);
                    assert(one@ =~= seq![ev.1]);
                    evs = ne;
                }
            },
            Err(e) => {
                proof {
                    assert(read_row(rows@[k as int], fmt@, opt_view(*meta)) is None);
                    assert(rows_added(
                        ledger_of(old(positions)@),
                        ledger_of(positions@),
                        rows@,
                        k as int,
                        fmt@,
                        opt_view(*meta),
                        action,
                    ));
                }
                return Err(e);
            },
        }
        k += 1;
    }
    proof {
        assert(rows_added(
            ledger_of(old(positions)@),
            ledger_of(positions@),
            rows@,
            rows@.len() as int,
            fmt@,
            opt_view(*meta),
            action,
        ));
    }
    Ok(())
}

/// Adds the disposals of a gains-and-losses statement: date sold as
/// `%m/%d/%Y`, proceeds per share as price, order type as metadata.
pub fn process_gl(rows: &Vec<StatementRow>, positions: &mut Vec<Positions>) -> (r: Result<
    (),
    ImportError,
>)
    ensures
        r is Ok <==> forall|i: int|
            0 <= i < rows@.len() ==> read_row(#[trigger] rows@[i], "%m/%d/%Y"@, None) is Some,
        r is Err ==> r == Err::<(), ImportError>(ImportError::MalformedEvent),
        r is Ok ==> rows_added(
            ledger_of(old(positions)@),
            ledger_of(final(positions)@),
            rows@,
            rows@.len() as int,
            "%m/%d/%Y"@,
            None,
            Action::Sell,
        ),
        r is Err ==> exists|k: int|
            0 <= k < rows@.len() && read_row(rows@[k], "%m/%d/%Y"@, None) is None && (forall|i: int|
                0 <= i < k ==> read_row(#[trigger] rows@[i], "%m/%d/%Y"@, None) is Some)
                && rows_added(
                ledger_of(old(positions)@),
                ledger_of(final(positions)@),
                rows@,
                k,
                "%m/%d/%Y"@,
                None,
                Action::Sell,
            ),
{
    process_rows(rows, "%m/%d/%Y", Action::Sell, &None, positions)
}

/// Adds the purchases of an employee stock purchase statement: purchase date
/// as `%d-%b-%Y`, fair market value at purchase as price, `ESPP` as metadata.
pub fn process_espp(rows: &Vec<StatementRow>, positions: &mut Vec<Positions>) -> (r: Result<
    (),
    ImportError,
>)
    ensures
        r is Ok <==> forall|i: int|
            0 <= i < rows@.len() ==> read_row(#[trigger] rows@[i], "%d-%b-%Y"@, Some("ESPP"@)) is Some,
        r is Err ==> r == Err::<(), ImportError>(ImportError::MalformedEvent),
        r is Ok ==> rows_added(
            ledger_of(old(positions)@),
            ledger_of(final(positions)@),
            rows@,
            rows@.len() as int,
            "%d-%b-%Y"@,
            Some("ESPP"@),
            Action::Buy,
        ),
        r is Err ==> exists|k: int|
            0 <= k < rows@.len() && read_row(rows@[k], "%d-%b-%Y"@, Some("ESPP"@)) is None && (forall|i: int|
                0 <= i < k ==> read_row(#[trigger] rows@[i], "%d-%b-%Y"@, Some("ESPP"@)) is Some)
                && rows_added(
                ledger_of(old(positions)@),
                ledger_of(final(positions)@),
                rows@,
                k,
                "%d-%b-%Y"@,
                Some("ESPP"@),
                Action::Buy,
            ),
{
    let meta = Some("ESPP".to_string());
    proof {
        reveal_strlit("ESPP");
        assert(opt_view(meta) == Some("ESPP"@));
    }
    process_rows(rows, "%d-%b-%Y", Action::Buy, &meta, positions)
}

} // verus!
