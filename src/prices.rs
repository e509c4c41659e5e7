//! Historical exchange rates between commodities.
use crate::date_utils::Date;
use crate::decimal::checked_div;
use crate::decimal::checked_mul;
use crate::decimal::dec_of;
use crate::decimal::decimal_product;
use crate::decimal::decimal_quotient;
use crate::decimal::Dec;
use crate::decimal::MAX_SCALE;
use crate::decimal::abs;
use crate::decimal::mantissa_limit;
use crate::decimal::pow10;
use crate::keyed::has_key;
use crate::keyed::keys_distinct;
use crate::keyed::lemma_empty;
use crate::keyed::lemma_entry;
use crate::keyed::lemma_insert;
use crate::keyed::lemma_push;
use crate::keyed::lemma_update;
use crate::keyed::to_map;
use crate::ledger::CommodityPrice;
use crate::ledger::Ledger;
use crate::ledger::Transaction;
use crate::ledger::prices_wf;
use crate::ledger::transactions_wf;
use vstd::prelude::*;

verus! {

#[derive(Debug, PartialEq, Eq)]
pub enum PricesError {
    /// No rate was ever given between the two commodities.
    NoSuchCommoditiesPair,
    /// Rates were given, but none on or before the date asked for.
    DateTooEarly,
    /// The result is beyond the limits of the decimal type.
    Overflow,
}

/// Rates of one commodity pair, by date.
pub type RatesMap = Map<Date, Dec>;

/// Rates of every pair: (source, destination) to the rates by date.
pub type PricesMap = Map<(Seq<char>, Seq<char>), RatesMap>;

/// A price as the engine reads it: date, source, destination, rate.
pub type PriceRecord = (Date, Seq<char>, Seq<char>, Dec);

/// `d` is the latest date of `m` that is not after `date`.
pub open spec fn is_floor(m: RatesMap, date: Date, d: Date) -> bool {
    &&& m.contains_key(d)
    &&& d.on_or_before(date)
    &&& forall|e: Date| #[trigger] m.contains_key(e) && e.on_or_before(date) ==> e.on_or_before(d)
}

/// The rate from `src` to `dst` that holds on `date`: the one given on the
/// latest date not after it.
pub open spec fn rate_lookup(p: PricesMap, src: Seq<char>, dst: Seq<char>, date: Date) -> Result<Dec, PricesError> {
    if !p.contains_key((src, dst)) {
        Err(PricesError::NoSuchCommoditiesPair)
    } else if exists|d: Date| is_floor(p[(src, dst)], date, d) {
        Ok(p[(src, dst)][choose|d: Date| is_floor(p[(src, dst)], date, d)])
    } else {
        Err(PricesError::DateTooEarly)
    }
}

/// `amount` of `src` expressed in `dst` on `date`.
pub open spec fn conversion(p: PricesMap, amount: Dec, src: Seq<char>, dst: Seq<char>, date: Date) -> Result<Dec, PricesError> {
    if src == dst {
        Ok(amount)
    } else {
        match rate_lookup(p, src, dst, date) {
            Err(e) => Err(e),
            Ok(rate) => match decimal_product(amount.parts(), rate.parts()) {
                Some(x) => Ok(dec_of(x)),
                None => Err(PricesError::Overflow),
            },
        }
    }
}

/// The rates of the pair `(src, dst)`, none where it has none.
pub open spec fn rates_of(p: PricesMap, src: Seq<char>, dst: Seq<char>) -> RatesMap {
    if p.contains_key((src, dst)) {
        p[(src, dst)]
    } else {
        Map::empty()
    }
}

/// `p` with `rate` set for `(src, dst)` on `date`.
pub open spec fn with_rate(p: PricesMap, src: Seq<char>, dst: Seq<char>, rate: Dec, date: Date) -> PricesMap {
    p.insert((src, dst), rates_of(p, src, dst).insert(date, rate))
}

/// The reciprocal of `rate` as the decimal type computes it, if it has one.
pub open spec fn reciprocal(rate: Dec) -> Option<Dec> {
    match decimal_quotient((1, 0), rate.parts()) {
        Some(x) => Some(dec_of(x)),
        None => None,
    }
}

/// `p` with `rate` set for `(src, dst)` on `date` and its reciprocal for
/// `(dst, src)`; unchanged where the rate has no reciprocal (a zero rate),
/// since a rate is only ever stored together with its reciprocal.
pub open spec fn with_price(p: PricesMap, src: Seq<char>, dst: Seq<char>, rate: Dec, date: Date) -> PricesMap {
    match reciprocal(rate) {
        Some(inv) => with_rate(with_rate(p, src, dst, rate, date), dst, src, inv, date),
        None => p,
    }
}

/// `p` with the prices `ps` set in order.
pub open spec fn with_prices(p: PricesMap, ps: Seq<PriceRecord>) -> PricesMap
    decreases ps.len(),
{
    if ps.len() == 0 {
        p
    } else {
        let r = ps.last();
        with_price(with_prices(p, ps.drop_last()), r.1, r.2, r.3, r.0)
    }
}

/// A price directive as a record.
pub open spec fn price_record(c: CommodityPrice) -> PriceRecord {
    (c.date, c.commodity_name@, c.amount.commodity@, c.amount.quantity)
}

/// The rate that a transaction implies: one with exactly two postings in two
/// different commodities, both quantities non-zero, prices the first
/// commodity at `-q1 / q0` of the second.
pub open spec fn implied_price(t: Transaction) -> Option<PriceRecord> {
    let ps = t.postings@;
    if ps.len() == 2 && ps[0].amount.commodity@ != ps[1].amount.commodity@ && ps[0].amount.quantity.mantissa
        != 0 && ps[1].amount.quantity.mantissa != 0 {
        let q1 = ps[1].amount.quantity;
        match decimal_quotient((-q1.mantissa, q1.scale as int), ps[0].amount.quantity.parts()) {
            Some(x) => Some((t.date, ps[0].amount.commodity@, ps[1].amount.commodity@, dec_of(x))),
            None => None,
        }
    } else {
        None
    }
}

/// The rates that the transactions `ts` imply, in order.
pub open spec fn implied_prices(ts: Seq<Transaction>) -> Seq<PriceRecord>
    decreases ts.len(),
{
    if ts.len() == 0 {
        Seq::empty()
    } else {
        match implied_price(ts.last()) {
            Some(r) => implied_prices(ts.drop_last()).push(r),
            None => implied_prices(ts.drop_last()),
        }
    }
}

/// Rates of one commodity pair, in ascending order of date.
#[derive(Debug)]
struct RatesTable {
    table: Vec<(Date, Dec)>,
}

impl View for RatesTable {
    type V = RatesMap;

    closed spec fn view(&self) -> RatesMap {
        to_map(self.table@)
    }
}

impl RatesTable {
    spec fn wf(&self) -> bool {
        &&& forall|i: int, j: int|
            0 <= i < j < self.table@.len() ==> (#[trigger] self.table@[i]).0.on_or_before(
                (#[trigger] self.table@[j]).0,
            ) && self.table@[i].0 != self.table@[j].0
        &&& forall|i: int| 0 <= i < self.table@.len() ==> (#[trigger] self.table@[i]).1.wf()
    }

    proof fn lemma_distinct(&self)
        requires
            self.wf(),
        ensures
            keys_distinct(self.table@),
    {
    }

    proof fn lemma_rates_wf(&self)
        requires
            self.wf(),
        ensures
            forall|d: Date| #[trigger] self@.contains_key(d) ==> self@[d].wf(),
    {
        assert forall|d: Date| #[trigger] self@.contains_key(d) implies self@[d].wf() by {
            let i = choose|i: int| 0 <= i < self.table@.len() && self.table@[i].0 == d;
            lemma_entry(self.table@, i);
        }
    }

    fn new() -> (r: RatesTable)
        ensures
            r.wf(),
            r@ == RatesMap::empty(),
    {
        let r = RatesTable { table: Vec::new() };
        proof {
            lemma_empty(r.table@);
        }
        r
    }

    /// The rate given on the latest date not after `date`.
    fn get_rate(&self, date: &Date) -> (r: Result<Dec, PricesError>)
        requires
            self.wf(),
        ensures
            r matches Ok(x) ==> exists|d: Date| is_floor(self@, *date, d) && self@[d] == x,
            r matches Ok(x) ==> x.wf(),
            r is Err ==> r == Err::<Dec, PricesError>(PricesError::DateTooEarly) && !exists|d: Date|
                is_floor(self@, *date, d),
    {
        proof {
            self.lemma_distinct();
        }
        let ghost t = self.table@;
        let mut i = self.table.len();
        while i > 0
            invariant
                t == self.table@,
                self.wf(),
                keys_distinct(t),
                i <= t.len(),
                forall|j: int| i <= j < t.len() ==> !(#[trigger] t[j]).0.on_or_before(*date),
            decreases i,
        {
            i -= 1;
            if self.table[i].0.is_on_or_before(date) {
                proof {
                    lemma_entry(t, i as int);
                    assert forall|e: Date| #[trigger]
                        self@.contains_key(e) && e.on_or_before(*date) implies e.on_or_before(
                        t[i as int].0,
                    ) by {
                        let j = choose|j: int| 0 <= j < t.len() && t[j].0 == e;
                        if j > i {
                            assert(!t[j].0.on_or_before(*date));
                        } else if j < i {
                            assert(t[j].0.on_or_before(t[i as int].0));
                        }
                    }
                    assert(is_floor(self@, *date, t[i as int].0));
                }
                return Ok(self.table[i].1);
            }
        }
        proof {
            assert forall|d: Date| !is_floor(self@, *date, d) by {
                if self@.contains_key(d) && d.on_or_before(*date) {
                    let j = choose|j: int| 0 <= j < t.len() && t[j].0 == d;
                    assert(!t[j].0.on_or_before(*date));
                }
            }
        }
        Err(PricesError::DateTooEarly)
    }

    /// Sets the rate of `date`, replacing one given for the same date.
    fn insert(&mut self, date: Date, rate: Dec)
        requires
            old(self).wf(),
            rate.wf(),
        ensures
            final(self).wf(),
            final(self)@ == old(self)@.insert(date, rate),
    {
        let ghost t = self.table@;
        let n = self.table.len();
        let mut i: usize = 0;
        while i < n && !date.is_on_or_before(&self.table[i].0)
            invariant
                t == self.table@,
                n == t.len(),
                i <= n,
                forall|j: int| 0 <= j < i ==> !date.on_or_before((#[trigger] t[j]).0),
            decreases n - i,
        {
            i += 1;
        }
        if i < n && self.table[i].0.same_day(&date) {
            self.table[i] = (date, rate);
            proof {
                assert(self.table@ =~= t.update(i as int, (t[i as int].0, rate)));
                lemma_update(t, i as int, rate);
            }
        } else {
            self.table.insert(i, (date, rate));
            proof {
                assert forall|j: int| 0 <= j < t.len() implies t[j].0 != date by {
                    if j < i {
                    } else if j > i {
                        assert(t[i as int].0.on_or_before(t[j].0));
                    }
                }
                lemma_insert(t, i as int, (date, rate));
            }
        }
    }
}

/// The two commodities of a rate: source and destination.
#[derive(Debug)]
struct CommoditiesPair {
    src_commodity_name: String,
    dst_commodity_name: String,
}

/// Exchange rates between commodity pairs over time.
#[derive(Debug)]
pub struct Prices {
    rates: Vec<(CommoditiesPair, RatesTable)>,
}

impl View for Prices {
    type V = PricesMap;

    closed spec fn view(&self) -> PricesMap {
        to_map(self.entries())
    }
}

impl Prices {
    closed spec fn entries(&self) -> Seq<((Seq<char>, Seq<char>), RatesMap)> {
        self.rates@.map_values(
            |e: (CommoditiesPair, RatesTable)|
                ((e.0.src_commodity_name@, e.0.dst_commodity_name@), e.1@),
        )
    }

    /// Pairs distinct, each table in date order with well-formed rates.
    pub closed spec fn wf(&self) -> bool {
        &&& keys_distinct(self.entries())
        &&& forall|i: int| 0 <= i < self.rates@.len() ==> (#[trigger] self.rates@[i]).1.wf()
    }

    /// Every rate held is within the decimal type's limits.
    pub proof fn lemma_rates_wf(&self)
        requires
            self.wf(),
        ensures
            forall|k: (Seq<char>, Seq<char>), d: Date|
                #![trigger self@[k][d]]
                self@.contains_key(k) && self@[k].contains_key(d) ==> self@[k][d].wf(),
    {
        assert forall|k: (Seq<char>, Seq<char>), d: Date|
            self@.contains_key(k) && self@[k].contains_key(d) implies #[trigger] self@[k][d].wf() by {
            let i = choose|i: int| 0 <= i < self.entries().len() && self.entries()[i].0 == k;
            lemma_entry(self.entries(), i);
            self.rates@[i].1.lemma_rates_wf();
        }
    }

    pub fn new() -> (r: Prices)
        ensures
            r.wf(),
            r@ == PricesMap::empty(),
    {
        let r = Prices { rates: Vec::new() };
        proof {
            lemma_empty(r.entries());
        }
        r
    }

    fn find(&self, src: &String, dst: &String) -> (r: Option<usize>)
        ensures
            r matches Some(i) ==> i < self.rates@.len() && self.entries()[i as int].0 == (src@, dst@),
            r is None ==> !has_key(self.entries(), (src@, dst@)),
    {
        let n = self.rates.len();
        let mut i: usize = 0;
        while i < n
            invariant
                n == self.rates@.len(),
                i <= n,
                forall|j: int| 0 <= j < i ==> self.entries()[j].0 != (src@, dst@),
            decreases n - i,
        {
            let pair = &self.rates[i].0;
            if pair.src_commodity_name == *src && pair.dst_commodity_name == *dst {
                return Some(i);
            }
            i += 1;
        }
        None
    }

    /// The rate from `src` to `dst` that holds on `date`.
    pub fn get_rate(&self, src: &String, dst: &String, date: &Date) -> (r: Result<Dec, PricesError>)
        requires
            self.wf(),
        ensures
            r == rate_lookup(self@, src@, dst@, *date),
            r matches Ok(x) ==> x.wf(),
    {
        match self.find(src, dst) {
            None => Err(PricesError::NoSuchCommoditiesPair),
            Some(i) => {
                proof {
                    lemma_entry(self.entries(), i as int);
                }
                let r = self.rates[i].1.get_rate(date);
                proof {
                    let m = self@[(src@, dst@)];
                    if let Ok(x) = r {
                        let d = choose|d: Date| is_floor(m, *date, d) && m[d] == x;
                        let c = choose|c: Date| is_floor(m, *date, c);
                        assert(c.on_or_before(d) && d.on_or_before(c));
                        assert(c == d);
                    }
                }
                r
            },
        }
    }

    /// `amount` of `src` expressed in `dst` on `date`; the same commodity
    /// converts to itself without any rate.
    pub fn convert(&self, amount: Dec, src: &String, dst: &String, date: &Date) -> (r: Result<
        Dec,
        PricesError,
    >)
        requires
            self.wf(),
            amount.wf(),
        ensures
            r == conversion(self@, amount, src@, dst@, *date),
            r matches Ok(x) ==> x.wf(),
            r matches Ok(x) ==> (src@ != dst@ ==> (rate_lookup(self@, src@, dst@, *date) matches Ok(rate)
                && (amount.scale + rate.scale <= MAX_SCALE && abs(amount.mantissa * rate.mantissa)
                < mantissa_limit() ==> x.val() * pow10(MAX_SCALE as nat) == amount.val() * rate.val()))),
            src@ != dst@ ==> ((rate_lookup(self@, src@, dst@, *date) matches Ok(rate) && amount.scale
                + rate.scale <= MAX_SCALE && abs(amount.mantissa * rate.mantissa) < mantissa_limit()) ==> r is Ok),
    {
        if *src == *dst {
            return Ok(amount);
        }
        let rate = self.get_rate(src, dst, date)?;
        match checked_mul(amount, rate) {
            Some(x) => Ok(x),
            None => Err(PricesError::Overflow),
        }
    }

    /// Sets one rate: `rate` for `(src, dst)` on `date`.
    fn set_rate(&mut self, src: &String, dst: &String, rate: Dec, date: Date)
        requires
            old(self).wf(),
            rate.wf(),
        ensures
            final(self).wf(),
            final(self)@ == with_rate(old(self)@, src@, dst@, rate, date),
    {
        let ghost s = self.entries();
        match self.find(src, dst) {
            Some(i) => {
                proof {
                    lemma_entry(s, i as int);
                }
                let (pair, mut table) = self.rates.remove(i);
                table.insert(date, rate);
                let ghost tv = table@;
                self.rates.insert(i, (pair, table));
                proof {
                    assert(self.entries() =~= s.update(i as int, (s[i as int].0, tv)));
                    lemma_update(s, i as int, tv);
                }
            },
            None => {
                let mut table = RatesTable::new();
                table.insert(date, rate);
                let ghost tv = table@;
                let pair = CommoditiesPair {
                    src_commodity_name: src.clone(),
                    dst_commodity_name: dst.clone(),
                };
                self.rates.push((pair, table));
                proof {
                    assert(self.entries() =~= s.push(((src@, dst@), tv)));
                    lemma_push(s, ((src@, dst@), tv));
                }
            },
        }
    }

    /// Sets `rate` for `(src, dst)` on `date`, and its reciprocal for
    /// `(dst, src)`; sets nothing where the rate has no reciprocal (a zero
    /// rate).
    pub fn add_price(&mut self, src: &String, dst: &String, rate: Dec, date: Date)
        requires
            old(self).wf(),
            rate.wf(),
        ensures
            final(self).wf(),
            final(self)@ == with_price(old(self)@, src@, dst@, rate, date),
            rate.mantissa != 0 ==> reciprocal(rate) is Some,
            rate.mantissa == 0 ==> final(self)@ == old(self)@,
    {
        match checked_div(Dec::one(), rate) {
            Some(inv) => {
                self.set_rate(src, dst, rate, date);
                self.set_rate(dst, src, inv, date);
            },
            None => {},
        }
    }

    fn add_prices(&mut self, prices: &Vec<CommodityPrice>)
        requires
            old(self).wf(),
            prices_wf(prices@),
        ensures
            final(self).wf(),
            final(self)@ == with_prices(old(self)@, prices@.map_values(|c: CommodityPrice| price_record(c))),
    {
        let ghost p0 = self@;
        let ghost rs = prices@.map_values(|c: CommodityPrice| price_record(c));
        let n = prices.len();
        let mut i: usize = 0;
        assert(rs.take(0).len() == 0);
        while i < n
            invariant
                n == prices@.len(),
                rs == prices@.map_values(|c: CommodityPrice| price_record(c)),
                prices_wf(prices@),
                i <= n,
                self.wf(),
                self@ == with_prices(p0, rs.take(i as int)),
            decreases n - i,
        {
            let price = &prices[i];
            proof {
                assert(rs.take(i as int + 1).drop_last() =~= rs.take(i as int));
                assert(prices@[i as int].wf());
            }
            self.add_price(&price.commodity_name, &price.amount.commodity, price.amount.quantity, price.date);
            i += 1;
        }
        proof {
            assert(rs.take(n as int) =~= rs);
        }
    }

    /// The rate table of a ledger: first the directives of `prices`, then those
    /// of `ledger`, then the rates that `ledger`'s transactions imply; a later
    /// rate for the same pair and date replaces an earlier one.
    pub fn load(ledger: &Ledger, prices: Option<&Ledger>) -> (r: Prices)
        requires
            ledger.wf(),
            prices matches Some(p) ==> p.wf(),
        ensures
            r.wf(),
            r@ == with_prices(
                with_prices(
                    match prices {
                        Some(p) => with_prices(
                            PricesMap::empty(),
                            p.commodity_prices@.map_values(|c: CommodityPrice| price_record(c)),
                        ),
                        None => PricesMap::empty(),
                    },
                    ledger.commodity_prices@.map_values(|c: CommodityPrice| price_record(c)),
                ),
                implied_prices(ledger.transactions@),
            ),
    {
        let mut result = Prices::new();
        match prices {
            Some(p) => result.add_prices(&p.commodity_prices),
            None => {},
        }
        result.add_prices(&ledger.commodity_prices);
        let implied = get_prices_from_transactions(&ledger.transactions);
        let ghost p1 = result@;
        let ghost iv = implied@.map_values(|e: (Date, String, String, Dec)| (e.0, e.1@, e.2@, e.3));
        let n = implied.len();
        let mut i: usize = 0;
        assert(iv.take(0).len() == 0);
        while i < n
            invariant
                n == implied@.len(),
                forall|j: int| 0 <= j < implied@.len() ==> (#[trigger] implied@[j]).3.wf(),
                i <= n,
                result.wf(),
                iv == implied@.map_values(|e: (Date, String, String, Dec)| (e.0, e.1@, e.2@, e.3)),
                result@ == with_prices(p1, iv.take(i as int)),
            decreases n - i,
        {
            proof {
                assert(iv.take(i as int + 1).drop_last() =~= iv.take(i as int));
            }
            let price = &implied[i];
            result.add_price(&price.1, &price.2, price.3, price.0);
            i += 1;
        }
        proof {
            assert(iv.take(n as int) =~= iv);
        }
        result
    }
}

/// The rates that the transactions imply, in their order.
fn get_prices_from_transactions(transactions: &Vec<Transaction>) -> (r: Vec<(Date, String, String, Dec)>)
    requires
        transactions_wf(transactions@),
    ensures
        r@.map_values(|e: (Date, String, String, Dec)| (e.0, e.1@, e.2@, e.3)) == implied_prices(
            transactions@,
        ),
        forall|j: int| 0 <= j < r@.len() ==> (#[trigger] r@[j]).3.wf(),
{
    let mut result: Vec<(Date, String, String, Dec)> = Vec::new();
    let ghost ts = transactions@;
    let n = transactions.len();
    let mut i: usize = 0;
    assert(ts.take(0).len() == 0);
    while i < n
        invariant
            n == ts.len(),
            ts == transactions@,
            transactions_wf(ts),
            i <= n,
            result@.map_values(|e: (Date, String, String, Dec)| (e.0, e.1@, e.2@, e.3)) == implied_prices(
                ts.take(i as int),
            ),
            forall|j: int| 0 <= j < result@.len() ==> (#[trigger] result@[j]).3.wf(),
        decreases n - i,
    {
        let t = &transactions[i];
        let ghost before = result@;
        proof {
            assert(ts.take(i as int + 1).drop_last() =~= ts.take(i as int));
            assert(ts[i as int].wf());
        }
        if t.postings.len() == 2 {
            let p0 = &t.postings[0];
            let p1 = &t.postings[1];
            proof {
                assert(t.postings@[0].wf() && t.postings@[1].wf());
            }
            if p0.amount.commodity != p1.amount.commodity && !p0.amount.quantity.is_zero()
                && !p1.amount.quantity.is_zero() {
                proof {
                    crate::decimal::lemma_val_zero(p0.amount.quantity);
                    crate::decimal::lemma_val_zero(p1.amount.quantity);
                }
                match checked_div(p1.amount.quantity.neg(), p0.amount.quantity) {
                    Some(rate) => {
                        result.push(
                            (t.date, p0.amount.commodity.clone(), p1.amount.commodity.clone(), rate),
                        );
                        proof {
                            assert(result@.map_values(
                                |e: (Date, String, String, Dec)| (e.0, e.1@, e.2@, e.3),
                            ) =~= before.map_values(
                                |e: (Date, String, String, Dec)| (e.0, e.1@, e.2@, e.3),
                            ).push((t.date, p0.amount.commodity@, p1.amount.commodity@, rate)));
                        }
                    },
                    None => {},
                }
            } else {
                proof {
                    crate::decimal::lemma_val_zero(p0.amount.quantity);
                    crate::decimal::lemma_val_zero(p1.amount.quantity);
                }
            }
        }
        i += 1;
    }
    proof {
        assert(ts.take(n as int) =~= ts);
    }
    result
}

/// Setting a price for `(src, dst)` on a date makes it the rate of that pair
/// on that date, and its reciprocal the rate of `(dst, src)` on that date
/// (`add_price` ensures that a non-zero rate has a reciprocal).
pub proof fn lemma_price_and_reciprocal(p: PricesMap, src: Seq<char>, dst: Seq<char>, rate: Dec, date: Date)
    requires
        src != dst,
        reciprocal(rate) is Some,
    ensures
        rate_lookup(with_price(p, src, dst, rate, date), src, dst, date) == Ok::<Dec, PricesError>(rate),
        rate_lookup(with_price(p, src, dst, rate, date), dst, src, date) == Ok::<Dec, PricesError>(
            reciprocal(rate).unwrap(),
        ),
{
    let q = with_price(p, src, dst, rate, date);
    let inv = reciprocal(rate).unwrap();
    let m = q[(src, dst)];
    let w = q[(dst, src)];
    assert(m == rates_of(p, src, dst).insert(date, rate));
    assert(w == rates_of(with_rate(p, src, dst, rate, date), dst, src).insert(date, inv));
    assert(is_floor(m, date, date));
    assert(is_floor(w, date, date));
    let d = choose|d: Date| is_floor(m, date, d);
    assert(d.on_or_before(date) && date.on_or_before(d));
    assert(d == date);
    let e = choose|e: Date| is_floor(w, date, e);
    assert(e.on_or_before(date) && date.on_or_before(e));
    assert(e == date);
}

} // verus!
