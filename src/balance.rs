//! Balances: per account, per commodity quantities.
use crate::date_utils::Date;
use crate::decimal::checked_add;
use crate::decimal::decimal_sum;
use crate::decimal::round_dp_half_up;
use crate::decimal::round_half_up;
use crate::decimal::lemma_pow10_positive;
use crate::decimal::MAX_SCALE;
use vstd::arithmetic::div_mod::lemma_div_multiples_vanish;
use crate::prices::conversion;
use crate::prices::Prices;
use crate::prices::PricesError;
use crate::prices::PricesMap;
use crate::decimal::checked_sub;
use crate::decimal::dec_of;
use crate::decimal::exact_difference;
use crate::decimal::exact_sum;
use crate::decimal::fits;
use crate::decimal::pow10;
use crate::decimal::max_scale_of;
use crate::decimal::Dec;
use crate::keyed::has_key;
use crate::keyed::keys_distinct;
use crate::keyed::lemma_empty;
use crate::keyed::lemma_entry;
use crate::keyed::lemma_push;
use crate::keyed::lemma_remove;
use crate::keyed::lemma_update;
use crate::keyed::to_map;
use crate::ledger::Posting;
use crate::ledger::Transaction;
use crate::ledger::Amount;
use vstd::prelude::*;
use vstd::string::StrSliceExecFns;

verus! {

/// What one account holds: commodity name to quantity.
pub type CommodityMap = Map<Seq<char>, Dec>;

/// What a set of accounts holds: account path to its holdings.
pub type BalanceMap = Map<Seq<char>, CommodityMap>;

pub open spec fn zero_dec() -> Dec {
    Dec { mantissa: 0, scale: 0 }
}

/// The quantity of `c` in `m`, zero where it holds none.
pub open spec fn amount_of(m: CommodityMap, c: Seq<char>) -> Dec {
    if m.contains_key(c) {
        m[c]
    } else {
        zero_dec()
    }
}

/// `a + b`, or `a - b` where `subtract` holds, without rounding.
pub open spec fn combine_amounts(a: Dec, b: Dec, subtract: bool) -> (int, int) {
    if subtract {
        exact_difference(a, b)
    } else {
        exact_sum(a, b)
    }
}

/// `m` with `q` added to (or taken from) commodity `c`; a zero result is dropped.
pub open spec fn with_amount(m: CommodityMap, c: Seq<char>, q: Dec, subtract: bool) -> CommodityMap {
    let r = combine_amounts(amount_of(m, c), q, subtract);
    if r.0 == 0 {
        m.remove(c)
    } else {
        m.insert(c, dec_of(r))
    }
}

/// Entrywise `a + b` (or `a - b`), with the commodities whose result is zero dropped.
pub open spec fn combined(a: CommodityMap, b: CommodityMap, subtract: bool) -> CommodityMap {
    Map::new(
        |c: Seq<char>|
            if b.contains_key(c) {
                combine_amounts(amount_of(a, c), b[c], subtract).0 != 0
            } else {
                a.contains_key(c)
            },
        |c: Seq<char>|
            if b.contains_key(c) {
                dec_of(combine_amounts(amount_of(a, c), b[c], subtract))
            } else {
                a[c]
            },
    )
}

/// Every entrywise result of `combined(a, b, subtract)` is within the decimal type's limits.
pub open spec fn combination_fits(a: CommodityMap, b: CommodityMap, subtract: bool) -> bool {
    forall|c: Seq<char>| #[trigger]
        b.contains_key(c) ==> fits(combine_amounts(amount_of(a, c), b[c], subtract))
}

/// The holdings of `account` in `m`, nothing where it has none.
pub open spec fn account_of(m: BalanceMap, account: Seq<char>) -> CommodityMap {
    if m.contains_key(account) {
        m[account]
    } else {
        Map::empty()
    }
}

/// Accountwise `a + b` (or `a - b`), with the accounts left empty dropped.
pub open spec fn balance_combined(a: BalanceMap, b: BalanceMap, subtract: bool) -> BalanceMap {
    Map::new(
        |k: Seq<char>|
            if b.contains_key(k) {
                combined(account_of(a, k), b[k], subtract) != Map::<Seq<char>, Dec>::empty()
            } else {
                a.contains_key(k)
            },
        |k: Seq<char>|
            if b.contains_key(k) {
                combined(account_of(a, k), b[k], subtract)
            } else {
                a[k]
            },
    )
}

pub open spec fn balance_combination_fits(a: BalanceMap, b: BalanceMap, subtract: bool) -> bool {
    forall|k: Seq<char>| #[trigger]
        b.contains_key(k) ==> combination_fits(account_of(a, k), b[k], subtract)
}

/// `m` after a posting of `q` of commodity `c` to `account`.
pub open spec fn with_posting(m: BalanceMap, account: Seq<char>, c: Seq<char>, q: Dec) -> BalanceMap {
    let holdings = with_amount(account_of(m, account), c, q, false);
    if holdings == Map::<Seq<char>, Dec>::empty() {
        m.remove(account)
    } else {
        m.insert(account, holdings)
    }
}

/// `m` after the postings `ps`, in order.
pub open spec fn after_postings(m: BalanceMap, ps: Seq<Posting>) -> BalanceMap
    decreases ps.len(),
{
    if ps.len() == 0 {
        m
    } else {
        let p = ps.last();
        with_posting(after_postings(m, ps.drop_last()), p.account@, p.amount.commodity@, p.amount.quantity)
    }
}

/// Each running total that `after_postings(m, ps)` goes through is within the
/// decimal type's limits.
pub open spec fn postings_fit(m: BalanceMap, ps: Seq<Posting>) -> bool
    decreases ps.len(),
{
    if ps.len() == 0 {
        true
    } else {
        let p = ps.last();
        let before = after_postings(m, ps.drop_last());
        postings_fit(m, ps.drop_last()) && fits(
            combine_amounts(amount_of(account_of(before, p.account@), p.amount.commodity@), p.amount.quantity, false),
        )
    }
}

/// Whether `prefixes` holds a string that `s` starts with.
pub open spec fn matches_any(s: Seq<char>, prefixes: Seq<Seq<char>>) -> bool {
    exists|i: int| 0 <= i < prefixes.len() && s.len() >= prefixes[i].len() && #[trigger] s.subrange(
        0,
        prefixes[i].len() as int,
    ) == prefixes[i]
}

/// The sum, in entry order, of the holdings of the accounts whose path starts
/// with one of `prefixes`.
pub open spec fn prefixed_total(entries: Seq<(Seq<char>, CommodityMap)>, prefixes: Seq<Seq<char>>) -> CommodityMap
    decreases entries.len(),
{
    if entries.len() == 0 {
        Map::empty()
    } else {
        let rest = prefixed_total(entries.drop_last(), prefixes);
        if matches_any(entries.last().0, prefixes) {
            combined(rest, entries.last().1, false)
        } else {
            rest
        }
    }
}

/// Each running total that `prefixed_total(entries, prefixes)` goes through is
/// within the decimal type's limits.
pub open spec fn prefixed_total_fits(entries: Seq<(Seq<char>, CommodityMap)>, prefixes: Seq<Seq<char>>) -> bool
    decreases entries.len(),
{
    if entries.len() == 0 {
        true
    } else {
        prefixed_total_fits(entries.drop_last(), prefixes) && (matches_any(entries.last().0, prefixes)
            ==> combination_fits(prefixed_total(entries.drop_last(), prefixes), entries.last().1, false))
    }
}

/// The position of the first entry of `s` for `c`, or -1 where it has none.
pub open spec fn key_index(s: Seq<(Seq<char>, Dec)>, c: Seq<char>) -> int
    decreases s.len(),
{
    if s.len() == 0 {
        -1
    } else if s[0].0 == c {
        0
    } else {
        let r = key_index(s.drop_first(), c);
        if r < 0 {
            -1
        } else {
            r + 1
        }
    }
}

/// The entries `s` with `q` added to (or taken from) commodity `c`: its
/// entry updated in place, dropped where it comes to zero, or a new one put
/// last.
pub open spec fn amount_entries(s: Seq<(Seq<char>, Dec)>, c: Seq<char>, q: Dec, subtract: bool) -> Seq<(Seq<char>, Dec)> {
    let i = key_index(s, c);
    if i >= 0 {
        let r = combine_amounts(s[i].1, q, subtract);
        if r.0 == 0 {
            s.remove(i)
        } else {
            s.update(i, (c, dec_of(r)))
        }
    } else {
        let r = combine_amounts(zero_dec(), q, subtract);
        if r.0 == 0 {
            s
        } else {
            s.push((c, dec_of(r)))
        }
    }
}

/// The entries `s` with every entry of `o` added (or taken away), in order.
pub open spec fn combined_entries(s: Seq<(Seq<char>, Dec)>, o: Seq<(Seq<char>, Dec)>, subtract: bool) -> Seq<(Seq<char>, Dec)>
    decreases o.len(),
{
    if o.len() == 0 {
        s
    } else {
        amount_entries(combined_entries(s, o.drop_last(), subtract), o.last().0, o.last().1, subtract)
    }
}

/// The entries of the sum, in account order, of the accounts whose path
/// starts with one of `prefixes`.
pub open spec fn prefixed_entries(
    accounts: Seq<(Seq<char>, Seq<(Seq<char>, Dec)>)>,
    prefixes: Seq<Seq<char>>,
) -> Seq<(Seq<char>, Dec)>
    decreases accounts.len(),
{
    if accounts.len() == 0 {
        Seq::empty()
    } else {
        let rest = prefixed_entries(accounts.drop_last(), prefixes);
        if matches_any(accounts.last().0, prefixes) {
            combined_entries(rest, accounts.last().1, false)
        } else {
            rest
        }
    }
}

pub proof fn lemma_key_index(s: Seq<(Seq<char>, Dec)>, c: Seq<char>, i: int)
    requires
        -1 <= i < s.len(),
        i >= 0 ==> s[i].0 == c,
        forall|j: int| 0 <= j < s.len() && (i < 0 || j < i) ==> (#[trigger] s[j]).0 != c,
    ensures
        key_index(s, c) == i,
    decreases s.len(),
{
    if s.len() > 0 && i != 0 {
        assert forall|j: int| 0 <= j < s.drop_first().len() && (i - 1 < 0 || j < i - 1) implies (
        #[trigger] s.drop_first()[j]).0 != c by {
            assert(s.drop_first()[j] == s[j + 1]);
        }
        if i < 0 {
            lemma_key_index(s.drop_first(), c, -1);
        } else {
            lemma_key_index(s.drop_first(), c, i - 1);
        }
    }
}

/// Whether `s` starts with `prefix`.
pub fn starts_with(s: &str, prefix: &str) -> (r: bool)
    ensures
        r == (s@.len() >= prefix@.len() && s@.subrange(0, prefix@.len() as int) == prefix@),
{
    let n = prefix.unicode_len();
    let m = s.unicode_len();
    if n > m {
        return false;
    }
    let mut i: usize = 0;
    while i < n
        invariant
            n == prefix@.len(),
            m == s@.len(),
            n <= m,
            i <= n,
            forall|j: int| 0 <= j < i ==> s@[j] == prefix@[j],
        decreases n - i,
    {
        if s.get_char(i) != prefix.get_char(i) {
            assert(s@.subrange(0, n as int)[i as int] != prefix@[i as int]);
            return false;
        }
        i += 1;
    }
    assert(s@.subrange(0, n as int) =~= prefix@);
    true
}

pub proof fn lemma_combined_step(a: CommodityMap, b: CommodityMap, c: Seq<char>, q: Dec, subtract: bool)
    requires
        !b.contains_key(c),
    ensures
        combined(a, b.insert(c, q), subtract) == with_amount(combined(a, b, subtract), c, q, subtract),
        amount_of(combined(a, b, subtract), c) == amount_of(a, c),
{
    assert(combined(a, b.insert(c, q), subtract) =~= with_amount(combined(a, b, subtract), c, q, subtract));
}

pub proof fn lemma_combined_empty(a: CommodityMap, subtract: bool)
    ensures
        combined(a, Map::empty(), subtract) == a,
{
    assert(combined(a, Map::empty(), subtract) =~= a);
}

/// Balance of an account: commodity names to amounts.
#[derive(Debug)]
pub struct AccountBalance {
    pub amounts: Vec<Amount>,
}

impl View for AccountBalance {
    type V = CommodityMap;

    open spec fn view(&self) -> CommodityMap {
        to_map(self.entries())
    }
}

impl AccountBalance {
    pub open spec fn entries(self) -> Seq<(Seq<char>, Dec)> {
        self.amounts@.map_values(|a: Amount| (a.commodity@, a.quantity))
    }

    /// Commodities distinct, each quantity within limits and not zero.
    pub open spec fn wf(self) -> bool {
        &&& keys_distinct(self.entries())
        &&& forall|i: int|
            0 <= i < self.amounts@.len() ==> (#[trigger] self.amounts@[i]).quantity.wf()
                && self.amounts@[i].quantity.mantissa != 0
    }

    pub proof fn lemma_values(self)
        requires
            self.wf(),
        ensures
            forall|c: Seq<char>| #[trigger]
                self@.contains_key(c) ==> self@[c].wf() && self@[c].mantissa != 0,
    {
        assert forall|c: Seq<char>| #[trigger] self@.contains_key(c) implies self@[c].wf()
            && self@[c].mantissa != 0 by {
            let i = choose|i: int| 0 <= i < self.entries().len() && self.entries()[i].0 == c;
            lemma_entry(self.entries(), i);
        }
    }

    pub proof fn lemma_empty_iff(self)
        ensures
            (self.amounts@.len() == 0) == (self@ == Map::<Seq<char>, Dec>::empty()),
    {
        if self.amounts@.len() == 0 {
            lemma_empty(self.entries());
        } else {
            assert(has_key(self.entries(), self.entries()[0].0));
            assert(self@.contains_key(self.entries()[0].0));
        }
    }

    pub fn new() -> (r: AccountBalance)
        ensures
            r.wf(),
            r@ == Map::<Seq<char>, Dec>::empty(),
            r.entries() == Seq::<(Seq<char>, Dec)>::empty(),
    {
        let r = AccountBalance { amounts: Vec::new() };
        assert(r.entries() =~= Seq::<(Seq<char>, Dec)>::empty());
        proof {
            lemma_empty(r.entries());
        }
        r
    }

    /// The position of `commodity`'s entry, if it has one.
    fn find(&self, commodity: &String) -> (r: Option<usize>)
        ensures
            r matches Some(i) ==> i < self.amounts@.len() && self.entries()[i as int].0 == commodity@,
            r matches Some(i) ==> forall|j: int| 0 <= j < i ==> self.entries()[j].0 != commodity@,
            r is None ==> !has_key(self.entries(), commodity@),
    {
        let n = self.amounts.len();
        let mut i: usize = 0;
        while i < n
            invariant
                n == self.amounts@.len(),
                i <= n,
                forall|j: int| 0 <= j < i ==> self.entries()[j].0 != commodity@,
            decreases n - i,
        {
            if self.amounts[i].commodity == *commodity {
                return Some(i);
            }
            i += 1;
        }
        None
    }

    /// Adds `q` of `commodity` (takes it away where `subtract` holds).
    pub fn add_amount(&mut self, commodity: &String, q: Dec, subtract: bool)
        requires
            old(self).wf(),
            q.wf(),
            fits(combine_amounts(amount_of(old(self)@, commodity@), q, subtract)),
        ensures
            final(self).wf(),
            final(self)@ == with_amount(old(self)@, commodity@, q, subtract),
            final(self).entries() == amount_entries(old(self).entries(), commodity@, q, subtract),
    {
        let ghost s = self.entries();
        match self.find(commodity) {
            Some(i) => {
                let cur = self.amounts[i].quantity;
                proof {
                    lemma_entry(s, i as int);
                    lemma_key_index(s, commodity@, i as int);
                }
                let r = if subtract {
                    checked_sub(cur, q)
                } else {
                    checked_add(cur, q)
                };
                match r {
                    Some(d) => {
                        if d.mantissa == 0 {
                            self.amounts.remove(i);
                            proof {
                                assert(self.entries() =~= s.remove(i as int));
                                lemma_remove(s, i as int);
                            }
                        } else {
                            self.amounts[i] = Amount { quantity: d, commodity: commodity.clone() };
                            proof {
                                assert(self.entries() =~= s.update(i as int, (s[i as int].0, d)));
                                lemma_update(s, i as int, d);
                            }
                        }
                    },
                    None => {},
                }
            },
            None => {
                proof {
                    assert forall|j: int| 0 <= j < s.len() implies (#[trigger] s[j]).0 != commodity@ by {
                        if s[j].0 == commodity@ {
                            assert(has_key(s, commodity@));
                        }
                    }
                    lemma_key_index(s, commodity@, -1);
                }
                let d = if subtract {
                    q.neg()
                } else {
                    q
                };
                if d.mantissa != 0 {
                    self.amounts.push(Amount { quantity: d, commodity: commodity.clone() });
                    proof {
                        assert(self.entries() =~= s.push((commodity@, d)));
                        lemma_push(s, (commodity@, d));
                    }
                } else {
                    assert(with_amount(old(self)@, commodity@, q, subtract) =~= old(self)@);
                }
            },
        }
    }

    /// Adds (or, where `subtract` holds, takes away) every entry of `other`.
    pub fn combine_with(&mut self, other: &AccountBalance, subtract: bool)
        requires
            old(self).wf(),
            other.wf(),
            combination_fits(old(self)@, other@, subtract),
        ensures
            final(self).wf(),
            final(self)@ == combined(old(self)@, other@, subtract),
            final(self).entries() == combined_entries(old(self).entries(), other.entries(), subtract),
    {
        let ghost a = self@;
        let ghost ae = self.entries();
        let ghost e = other.entries();
        let n = other.amounts.len();
        let mut i: usize = 0;
        proof {
            other.lemma_values();
            lemma_empty(e.take(0));
            lemma_combined_empty(a, subtract);
        }
        while i < n
            invariant
                n == other.amounts@.len(),
                e == other.entries(),
                i <= n,
                other.wf(),
                self.wf(),
                combination_fits(a, other@, subtract),
                forall|c: Seq<char>| #[trigger]
                    other@.contains_key(c) ==> other@[c].wf() && other@[c].mantissa != 0,
                self@ == combined(a, to_map(e.take(i as int)), subtract),
                self.entries() == combined_entries(ae, e.take(i as int), subtract),
            decreases n - i,
        {
            let amount = &other.amounts[i];
            proof {
                assert(e.take(i as int + 1).drop_last() =~= e.take(i as int));
                assert(e[i as int] == (amount.commodity@, amount.quantity));
            }
            proof {
                let t = e.take(i as int);
                assert(e.take(i as int + 1) =~= t.push(e[i as int]));
                assert forall|j: int| 0 <= j < t.len() implies t[j].0 != e[i as int].0 by {}
                assert(keys_distinct(t));
                lemma_push(t, e[i as int]);
                lemma_entry(e, i as int);
                lemma_combined_step(a, to_map(t), e[i as int].0, e[i as int].1, subtract);
                assert(other@.contains_key(amount.commodity@));
            }
            self.add_amount(&amount.commodity, amount.quantity, subtract);
            i += 1;
        }
        proof {
            assert(e.take(n as int) =~= e);
        }
    }

    pub fn add_assign(&mut self, other: &AccountBalance)
        requires
            old(self).wf(),
            other.wf(),
            combination_fits(old(self)@, other@, false),
        ensures
            final(self).wf(),
            final(self)@ == combined(old(self)@, other@, false),
            final(self).entries() == combined_entries(old(self).entries(), other.entries(), false),
    {
        self.combine_with(other, false)
    }

    pub fn sub_assign(&mut self, other: &AccountBalance)
        requires
            old(self).wf(),
            other.wf(),
            combination_fits(old(self)@, other@, true),
        ensures
            final(self).wf(),
            final(self)@ == combined(old(self)@, other@, true),
            final(self).entries() == combined_entries(old(self).entries(), other.entries(), true),
    {
        self.combine_with(other, true)
    }
}

/// Balance of one or more accounts: account paths to their balances.
#[derive(Debug)]
pub struct Balance {
    pub account_balances: Vec<(String, AccountBalance)>,
}

impl View for Balance {
    type V = BalanceMap;

    open spec fn view(&self) -> BalanceMap {
        to_map(self.entries())
    }
}

impl Balance {
    pub open spec fn entries(self) -> Seq<(Seq<char>, CommodityMap)> {
        self.account_balances@.map_values(|e: (String, AccountBalance)| (e.0@, e.1@))
    }

    /// Each account with the entries of its balance, in order.
    pub open spec fn account_seqs(self) -> Seq<(Seq<char>, Seq<(Seq<char>, Dec)>)> {
        self.account_balances@.map_values(|e: (String, AccountBalance)| (e.0@, e.1.entries()))
    }

    /// Accounts distinct, each balance well formed and not empty.
    pub open spec fn wf(self) -> bool {
        &&& keys_distinct(self.entries())
        &&& forall|i: int|
            0 <= i < self.account_balances@.len() ==> (#[trigger] self.account_balances@[i]).1.wf()
                && self.account_balances@[i].1.amounts@.len() > 0
    }

    pub fn new() -> (r: Balance)
        ensures
            r.wf(),
            r@ == BalanceMap::empty(),
    {
        let r = Balance { account_balances: Vec::new() };
        proof {
            lemma_empty(r.entries());
        }
        r
    }

    /// The position of `account`'s entry, if it has one.
    fn find(&self, account: &String) -> (r: Option<usize>)
        ensures
            r matches Some(i) ==> i < self.account_balances@.len() && self.entries()[i as int].0
                == account@,
            r is None ==> !has_key(self.entries(), account@),
    {
        let n = self.account_balances.len();
        let mut i: usize = 0;
        while i < n
            invariant
                n == self.account_balances@.len(),
                i <= n,
                forall|j: int| 0 <= j < i ==> self.entries()[j].0 != account@,
            decreases n - i,
        {
            if self.account_balances[i].0 == *account {
                return Some(i);
            }
            i += 1;
        }
        None
    }

    /// Takes the entry of `account` out, or an empty one where there is none.
    fn take_account(&mut self, account: &String) -> (r: AccountBalance)
        requires
            old(self).wf(),
        ensures
            final(self).wf(),
            r.wf(),
            r@ == account_of(old(self)@, account@),
            final(self)@ == old(self)@.remove(account@),
    {
        let ghost s = self.entries();
        match self.find(account) {
            Some(i) => {
                let (_, b) = self.account_balances.remove(i);
                proof {
                    lemma_entry(s, i as int);
                    assert(self.entries() =~= s.remove(i as int));
                    lemma_remove(s, i as int);
                }
                b
            },
            None => {
                assert(old(self)@.remove(account@) =~= old(self)@);
                AccountBalance::new()
            },
        }
    }

    /// Puts `b` back as the entry of `account`, unless it is empty.
    fn put_account(&mut self, account: &String, b: AccountBalance)
        requires
            old(self).wf(),
            b.wf(),
            !old(self)@.contains_key(account@),
        ensures
            final(self).wf(),
            b@ == Map::<Seq<char>, Dec>::empty() ==> final(self)@ == old(self)@,
            b@ != Map::<Seq<char>, Dec>::empty() ==> final(self)@ == old(self)@.insert(account@, b@),
    {
        proof {
            b.lemma_empty_iff();
        }
        if b.amounts.len() > 0 {
            let ghost s = self.entries();
            let ghost bv = b@;
            self.account_balances.push((account.clone(), b));
            proof {
                assert(self.entries() =~= s.push((account@, bv)));
                lemma_push(s, (account@, bv));
            }
        }
    }

    /// Adds (or, where `subtract` holds, takes away) every account of `other`.
    pub fn combine_with(&mut self, other: &Balance, subtract: bool)
        requires
            old(self).wf(),
            other.wf(),
            balance_combination_fits(old(self)@, other@, subtract),
        ensures
            final(self).wf(),
            final(self)@ == balance_combined(old(self)@, other@, subtract),
    {
        let ghost a = self@;
        let ghost e = other.entries();
        let n = other.account_balances.len();
        let mut i: usize = 0;
        proof {
            lemma_empty(e.take(0));
            assert(balance_combined(a, to_map(e.take(0)), subtract) =~= a);
        }
        while i < n
            invariant
                n == other.account_balances@.len(),
                e == other.entries(),
                i <= n,
                other.wf(),
                self.wf(),
                balance_combination_fits(a, other@, subtract),
                self@ == balance_combined(a, to_map(e.take(i as int)), subtract),
            decreases n - i,
        {
            let entry = &other.account_balances[i];
            let ghost before = self@;
            let ghost k = e[i as int].0;
            proof {
                let t = e.take(i as int);
                assert(e.take(i as int + 1) =~= t.push(e[i as int]));
                assert forall|j: int| 0 <= j < t.len() implies t[j].0 != e[i as int].0 by {}
                assert(keys_distinct(t));
                lemma_push(t, e[i as int]);
                lemma_entry(e, i as int);
                assert(other@.contains_key(k));
                assert(account_of(before, k) == account_of(a, k));
            }
            let mut b = self.take_account(&entry.0);
            b.combine_with(&entry.1, subtract);
            self.put_account(&entry.0, b);
            proof {
                let t = e.take(i as int);
                assert(self@ =~= balance_combined(a, to_map(t).insert(k, e[i as int].1), subtract));
            }
            i += 1;
        }
        proof {
            assert(e.take(n as int) =~= e);
        }
    }

    pub fn add_assign(&mut self, other: &Balance)
        requires
            old(self).wf(),
            other.wf(),
            balance_combination_fits(old(self)@, other@, false),
        ensures
            final(self).wf(),
            final(self)@ == balance_combined(old(self)@, other@, false),
    {
        self.combine_with(other, false)
    }

    pub fn sub_assign(&mut self, other: &Balance)
        requires
            old(self).wf(),
            other.wf(),
            balance_combination_fits(old(self)@, other@, true),
        ensures
            final(self).wf(),
            final(self)@ == balance_combined(old(self)@, other@, true),
    {
        self.combine_with(other, true)
    }

    /// Adds one posting's amount to its account.
    pub fn add_posting(&mut self, posting: &Posting)
        requires
            old(self).wf(),
            posting.wf(),
            fits(
                combine_amounts(
                    amount_of(account_of(old(self)@, posting.account@), posting.amount.commodity@),
                    posting.amount.quantity,
                    false,
                ),
            ),
        ensures
            final(self).wf(),
            final(self)@ == with_posting(
                old(self)@,
                posting.account@,
                posting.amount.commodity@,
                posting.amount.quantity,
            ),
    {
        let mut b = self.take_account(&posting.account);
        b.add_amount(&posting.amount.commodity, posting.amount.quantity, false);
        self.put_account(&posting.account, b);
    }

    /// Adds the amount of every posting of `transaction` to its account.
    pub fn update_with_transaction(&mut self, transaction: &Transaction)
        requires
            old(self).wf(),
            transaction.wf(),
            postings_fit(old(self)@, transaction.postings@),
        ensures
            final(self).wf(),
            final(self)@ == after_postings(old(self)@, transaction.postings@),
    {
        let ghost a = self@;
        let ghost ps = transaction.postings@;
        let n = transaction.postings.len();
        let mut i: usize = 0;
        assert(ps.take(0).len() == 0);
        while i < n
            invariant
                n == ps.len(),
                ps == transaction.postings@,
                transaction.wf(),
                i <= n,
                self.wf(),
                postings_fit(a, ps),
                self@ == after_postings(a, ps.take(i as int)),
            decreases n - i,
        {
            proof {
                assert(ps.take(i as int + 1).drop_last() =~= ps.take(i as int));
                lemma_postings_fit_prefix(a, ps, i as int + 1);
            }
            self.add_posting(&transaction.postings[i]);
            i += 1;
        }
        proof {
            assert(ps.take(n as int) =~= ps);
        }
    }

    /// The sum of the balances of the accounts whose path starts with any of
    /// `prefixes` (a plain string prefix, not one by path segments).
    pub fn get_account_balance(&self, prefixes: &Vec<String>) -> (r: AccountBalance)
        requires
            self.wf(),
            prefixed_total_fits(self.entries(), prefixes@.map_values(|p: String| p@)),
        ensures
            r.wf(),
            r@ == prefixed_total(self.entries(), prefixes@.map_values(|p: String| p@)),
            r.entries() == prefixed_entries(self.account_seqs(), prefixes@.map_values(|p: String| p@)),
    {
        let ghost sq = self.account_seqs();
        let ghost ps = prefixes@.map_values(|p: String| p@);
        let ghost e = self.entries();
        let mut result = AccountBalance::new();
        let n = self.account_balances.len();
        let mut i: usize = 0;
        assert(e.take(0).len() == 0);
        while i < n
            invariant
                n == self.account_balances@.len(),
                e == self.entries(),
                ps == prefixes@.map_values(|p: String| p@),
                self.wf(),
                i <= n,
                result.wf(),
                prefixed_total_fits(e, ps),
                result@ == prefixed_total(e.take(i as int), ps),
                sq == self.account_seqs(),
                result.entries() == prefixed_entries(sq.take(i as int), ps),
            decreases n - i,
        {
            let entry = &self.account_balances[i];
            let mut matched = false;
            let m = prefixes.len();
            let mut j: usize = 0;
            while j < m
                invariant
                    m == prefixes@.len(),
                    ps == prefixes@.map_values(|p: String| p@),
                    j <= m,
                    matched ==> matches_any(entry.0@, ps),
                    !matched ==> forall|x: int|
                        0 <= x < j ==> !(entry.0@.len() >= ps[x].len() && #[trigger] entry.0@.subrange(
                            0,
                            ps[x].len() as int,
                        ) == ps[x]),
                decreases m - j,
            {
                if !matched && starts_with(entry.0.as_str(), prefixes[j].as_str()) {
                    assert(ps[j as int] == prefixes@[j as int]@);
                    assert(entry.0@.subrange(0, ps[j as int].len() as int) == ps[j as int]);
                    matched = true;
                }
                j += 1;
            }
            proof {
                assert(e.take(i as int + 1).drop_last() =~= e.take(i as int));
                lemma_prefixed_fits_prefix(e, ps, i as int + 1);
                assert(e[i as int] == (entry.0@, entry.1@));
                assert(sq.take(i as int + 1).drop_last() =~= sq.take(i as int));
                assert(sq[i as int] == (entry.0@, entry.1.entries()));
            }
            if matched {
                result.add_assign(&entry.1);
            }
            i += 1;
        }
        proof {
            assert(e.take(n as int) =~= e);
            assert(sq.take(n as int) =~= sq);
        }
        result
    }
}

pub proof fn lemma_postings_fit_prefix(m: BalanceMap, ps: Seq<Posting>, k: int)
    requires
        postings_fit(m, ps),
        0 <= k <= ps.len(),
    ensures
        postings_fit(m, ps.take(k)),
    decreases ps.len(),
{
    if k < ps.len() {
        assert(ps.drop_last().take(k) =~= ps.take(k));
        lemma_postings_fit_prefix(m, ps.drop_last(), k);
    } else {
        assert(ps.take(k) =~= ps);
    }
}

pub proof fn lemma_prefixed_fits_prefix(e: Seq<(Seq<char>, CommodityMap)>, ps: Seq<Seq<char>>, k: int)
    requires
        prefixed_total_fits(e, ps),
        0 <= k <= e.len(),
    ensures
        prefixed_total_fits(e.take(k), ps),
    decreases e.len(),
{
    if k < e.len() {
        assert(e.drop_last().take(k) =~= e.take(k));
        lemma_prefixed_fits_prefix(e.drop_last(), ps, k);
    } else {
        assert(e.take(k) =~= e);
    }
}

/// Each quantity of `b` can be doubled within the decimal type's limits.
pub open spec fn doubling_fits(b: BalanceMap) -> bool {
    forall|k: Seq<char>, c: Seq<char>|
        #![trigger b[k][c]]
        b.contains_key(k) && b[k].contains_key(c) ==> fits((2 * b[k][c].mantissa, b[k][c].scale as int))
}

/// Adding a balance to itself and then taking it away again gives back the
/// balance, with no zero entries: `(b + b) - b == b`.
pub proof fn lemma_add_then_subtract_same(b: Balance)
    requires
        b.wf(),
        doubling_fits(b@),
    ensures
        balance_combination_fits(b@, b@, false),
        balance_combination_fits(balance_combined(b@, b@, false), b@, true),
        balance_combined(balance_combined(b@, b@, false), b@, true) == b@,
{
    let m = b@;
    let e = b.entries();
    let d = balance_combined(m, m, false);
    assert forall|k: Seq<char>| #[trigger] m.contains_key(k) implies {
        &&& forall|c: Seq<char>| #[trigger]
            m[k].contains_key(c) ==> m[k][c].wf() && m[k][c].mantissa != 0
        &&& m[k] != Map::<Seq<char>, Dec>::empty()
    } by {
        let i = choose|i: int| 0 <= i < e.len() && e[i].0 == k;
        lemma_entry(e, i);
        let ab = b.account_balances@[i].1;
        ab.lemma_values();
        ab.lemma_empty_iff();
    }
    assert forall|k: Seq<char>| #[trigger] m.contains_key(k) implies combination_fits(
        account_of(m, k),
        m[k],
        false,
    ) && combined(m[k], m[k], false) =~= m[k].map_values(
        |q: Dec| dec_of((2 * q.mantissa, q.scale as int)),
    ) by {
        assert forall|c: Seq<char>| #[trigger] m[k].contains_key(c) implies fits(
            combine_amounts(amount_of(m[k], c), m[k][c], false),
        ) by {
            assert(m[k][c] == b@[k][c]);
        }
    }
    assert forall|k: Seq<char>| #[trigger] m.contains_key(k) implies combination_fits(
        account_of(d, k),
        m[k],
        true,
    ) && d.contains_key(k) && combined(account_of(d, k), m[k], true) =~= m[k] && m[k] != Map::<
        Seq<char>,
        Dec,
    >::empty() by {
        assert(account_of(m, k) == m[k]);
        if !(exists|c: Seq<char>| m[k].contains_key(c)) {
            assert(m[k] =~= Map::<Seq<char>, Dec>::empty());
        }
        let c0 = choose|c: Seq<char>| m[k].contains_key(c);
        assert(combined(m[k], m[k], false).contains_key(c0));
        assert(d.contains_key(k));
        assert(d[k] == combined(m[k], m[k], false));
        assert forall|c: Seq<char>| #[trigger] m[k].contains_key(c) implies fits(
            combine_amounts(amount_of(d[k], c), m[k][c], true),
        ) && dec_of(combine_amounts(amount_of(d[k], c), m[k][c], true)) == m[k][c] by {
            let q = m[k][c];
            assert(q == b@[k][c]);
            assert(pow10(0) == 1);
            assert(fits((2 * q.mantissa, q.scale as int)));
            assert(combined(m[k], m[k], false)[c] == dec_of((2 * q.mantissa, q.scale as int)));
            assert(amount_of(d[k], c) == dec_of((2 * q.mantissa, q.scale as int)));
            let x = dec_of((2 * q.mantissa, q.scale as int));
            assert(x.mantissa == 2 * q.mantissa);
            assert(x.scale == q.scale);
            assert(max_scale_of(x.scale, q.scale) == q.scale);
            assert(q.mantissa != 0);
            assert(x.mantissa != 0);
            assert(pow10((q.scale - x.scale) as nat) == 1);
            assert(pow10((q.scale - q.scale) as nat) == 1);
            assert(exact_difference(x, q) == (q.mantissa as int, q.scale as int));
            assert(combine_amounts(x, q, true) == (q.mantissa as int, q.scale as int));
        }
    }
    assert(balance_combined(d, m, true) =~= m);
}

/// The value of the holdings `entries` in `target` on `date`: each converted,
/// then summed in entry order; the first failure is the result.
pub open spec fn valuation(entries: Seq<(Seq<char>, Dec)>, target: Seq<char>, date: Date, p: PricesMap) -> Result<Dec, PricesError>
    decreases entries.len(),
{
    if entries.len() == 0 {
        Ok(zero_dec())
    } else {
        match valuation(entries.drop_last(), target, date, p) {
            Err(e) => Err(e),
            Ok(acc) => match conversion(p, entries.last().1, entries.last().0, target, date) {
                Err(e) => Err(e),
                Ok(x) => match decimal_sum(acc.parts(), x.parts()) {
                    Some(s) => Ok(dec_of(s)),
                    None => Err(PricesError::Overflow),
                },
            },
        }
    }
}

/// `v` rounded to `dp` places, halves away from zero, as the decimal type
/// rounds: unchanged where its scale is at most `dp`.
pub open spec fn rounded(v: Dec, dp: u32, r: Dec) -> bool {
    &&& v.scale <= dp ==> r == v
    &&& v.scale > dp ==> r.scale == dp && r.val() == round_half_up(v.val(), dp)
}

/// A value as rounded for a report: rounded to `dp` places, halves away from
/// zero; zero where the valuation failed.
pub open spec fn rounded_value(v: Result<Dec, PricesError>, dp: u32) -> Dec {
    match v {
        Err(_) => zero_dec(),
        Ok(x) => if x.scale <= dp {
            x
        } else {
            Dec {
                mantissa: (round_half_up(x.val(), dp) / pow10((MAX_SCALE - dp) as nat)) as i128,
                scale: dp,
            }
        },
    }
}

pub proof fn lemma_rounded_value(v: Result<Dec, PricesError>, dp: u32, r: Dec)
    requires
        r.wf(),
        v matches Ok(x) ==> rounded(x, dp, r),
        v is Err ==> r == zero_dec(),
    ensures
        r == rounded_value(v, dp),
{
    if let Ok(x) = v {
        if x.scale > dp {
            let p = pow10((MAX_SCALE - dp) as nat);
            lemma_pow10_positive((MAX_SCALE - dp) as nat);
            assert(r.val() == r.mantissa * p);
            assert(r.mantissa * p == p * r.mantissa);
            lemma_div_multiples_vanish(r.mantissa as int, p);
        }
    }
}

impl AccountBalance {
    /// The value of every holding converted into `commodity_name` on `date`.
    pub fn value_in_commodity(&self, commodity_name: &String, date: &Date, prices: &Prices) -> (r: Result<Dec, PricesError>)
        requires
            self.wf(),
            prices.wf(),
        ensures
            r == valuation(self.entries(), commodity_name@, *date, prices@),
            r matches Ok(x) ==> x.wf(),
            exact_valuation(self.entries(), commodity_name@, *date, prices@) matches Some(v) ==> r
                == Ok::<Dec, PricesError>(v),
    {
        let ghost e = self.entries();
        let mut result = Dec::zero();
        let n = self.amounts.len();
        let mut i: usize = 0;
        assert(e.take(0).len() == 0);
        while i < n
            invariant
                n == self.amounts@.len(),
                e == self.entries(),
                self.wf(),
                prices.wf(),
                i <= n,
                result.wf(),
                valuation(e.take(i as int), commodity_name@, *date, prices@) == Ok::<Dec, PricesError>(result),
                exact_valuation(e.take(i as int), commodity_name@, *date, prices@) matches Some(v) ==> result
                    == v,
            decreases n - i,
        {
            let amount = &self.amounts[i];
            proof {
                assert(e.take(i as int + 1).drop_last() =~= e.take(i as int));
                assert(e[i as int] == (amount.commodity@, amount.quantity));
                assert(self.amounts@[i as int].quantity.wf());
            }
            let x = match prices.convert(amount.quantity, &amount.commodity, commodity_name, date) {
                Ok(x) => x,
                Err(err) => {
                    proof {
                        lemma_valuation_error_stays(e, i as int + 1, commodity_name@, *date, prices@);
                        lemma_exact_valuation_none_stays(e, i as int + 1, commodity_name@, *date, prices@);
                    }
                    return Err(err);
                },
            };
            match checked_add(result, x) {
                Some(s) => {
                    proof {
                        assert(dec_of(s.parts()) == s);
                    }
                    result = s;
                },
                None => {
                    proof {
                        lemma_valuation_error_stays(e, i as int + 1, commodity_name@, *date, prices@);
                        lemma_exact_valuation_none_stays(e, i as int + 1, commodity_name@, *date, prices@);
                    }
                    return Err(PricesError::Overflow);
                },
            }
            i += 1;
        }
        proof {
            assert(e.take(n as int) =~= e);
        }
        Ok(result)
    }

    /// The value in `commodity_name`, rounded to `decimal_points` places;
    /// zero where a conversion fails.
    pub fn value_in_commodity_rounded(
        &self,
        commodity_name: &String,
        decimal_points: u32,
        date: &Date,
        prices: &Prices,
    ) -> (r: Dec)
        requires
            self.wf(),
            prices.wf(),
        ensures
            r.wf(),
            r == rounded_value(valuation(self.entries(), commodity_name@, *date, prices@), decimal_points),
            exact_valuation(self.entries(), commodity_name@, *date, prices@) matches Some(v) ==> r
                == rounded_value(Ok(v), decimal_points),
    {
        let r = match self.value_in_commodity(commodity_name, date, prices) {
            Ok(v) => round_dp_half_up(v, decimal_points),
            Err(_) => Dec::zero(),
        };
        proof {
            lemma_rounded_value(valuation(self.entries(), commodity_name@, *date, prices@), decimal_points, r);
        }
        r
    }
}

/// The valuation of `entries` where no rounding enters: each holding
/// converted, the conversions summed in entry order, every partial sum exact;
/// `None` where a conversion fails or a partial sum is beyond the decimal
/// type's limits.
pub open spec fn exact_valuation(entries: Seq<(Seq<char>, Dec)>, target: Seq<char>, date: Date, p: PricesMap) -> Option<Dec>
    decreases entries.len(),
{
    if entries.len() == 0 {
        Some(zero_dec())
    } else {
        match exact_valuation(entries.drop_last(), target, date, p) {
            None => None,
            Some(acc) => match conversion(p, entries.last().1, entries.last().0, target, date) {
                Err(_) => None,
                Ok(x) => if fits(exact_sum(acc, x)) {
                    Some(dec_of(exact_sum(acc, x)))
                } else {
                    None
                },
            },
        }
    }
}

pub proof fn lemma_exact_valuation_none_stays(
    e: Seq<(Seq<char>, Dec)>,
    k: int,
    target: Seq<char>,
    date: Date,
    p: PricesMap,
)
    requires
        0 <= k <= e.len(),
        exact_valuation(e.take(k), target, date, p) is None,
    ensures
        exact_valuation(e, target, date, p) is None,
    decreases e.len(),
{
    if k < e.len() {
        assert(e.drop_last().take(k) =~= e.take(k));
        lemma_exact_valuation_none_stays(e.drop_last(), k, target, date, p);
    } else {
        assert(e.take(k) =~= e);
    }
}

pub proof fn lemma_valuation_error_stays(
    e: Seq<(Seq<char>, Dec)>,
    k: int,
    target: Seq<char>,
    date: Date,
    p: PricesMap,
)
    requires
        0 <= k <= e.len(),
        valuation(e.take(k), target, date, p) is Err,
    ensures
        valuation(e, target, date, p) == valuation(e.take(k), target, date, p),
    decreases e.len(),
{
    if k < e.len() {
        assert(e.drop_last().take(k) =~= e.take(k));
        lemma_valuation_error_stays(e.drop_last(), k, target, date, p);
    } else {
        assert(e.take(k) =~= e);
    }
}

impl AccountBalance {
    /// A separate balance with the same holdings.
    pub fn copy(&self) -> (r: AccountBalance)
        requires
            self.wf(),
        ensures
            r.wf(),
            r@ == self@,
            r.entries() == self.entries(),
    {
        let mut amounts: Vec<Amount> = Vec::new();
        let n = self.amounts.len();
        let mut i: usize = 0;
        while i < n
            invariant
                n == self.amounts@.len(),
                i <= n,
                amounts@.len() == i,
                forall|j: int|
                    0 <= j < i ==> (#[trigger] amounts@[j]).quantity == self.amounts@[j].quantity
                        && amounts@[j].commodity@ == self.amounts@[j].commodity@,
            decreases n - i,
        {
            let a = &self.amounts[i];
            amounts.push(Amount { quantity: a.quantity, commodity: a.commodity.clone() });
            i += 1;
        }
        let r = AccountBalance { amounts };
        assert(r.entries() =~= self.entries());
        r
    }
}

impl Balance {
    /// A separate balance with the same accounts and holdings.
    pub fn copy(&self) -> (r: Balance)
        requires
            self.wf(),
        ensures
            r.wf(),
            r@ == self@,
    {
        let mut entries: Vec<(String, AccountBalance)> = Vec::new();
        let n = self.account_balances.len();
        let mut i: usize = 0;
        while i < n
            invariant
                n == self.account_balances@.len(),
                self.wf(),
                i <= n,
                entries@.len() == i,
                forall|j: int|
                    0 <= j < i ==> (#[trigger] entries@[j]).0@ == self.account_balances@[j].0@
                        && entries@[j].1@ == self.account_balances@[j].1@ && entries@[j].1.entries()
                        == self.account_balances@[j].1.entries() && entries@[j].1.wf(),
            decreases n - i,
        {
            let e = &self.account_balances[i];
            assert(self.account_balances@[i as int].1.wf());
            entries.push((e.0.clone(), e.1.copy()));
            i += 1;
        }
        let r = Balance { account_balances: entries };
        assert(r.entries() =~= self.entries());
        r
    }
}

} // verus!
