//! The account tree as shown in a report: valued, pruned, sorted and with
//! single-child chains merged.
use crate::balance::rounded_value;
use crate::balance::valuation;
use crate::balance::zero_dec;
use crate::balance::AccountBalance;
use crate::balance::Balance;
use crate::configuration::ReportParameters;
use crate::date_utils::Date;
use crate::decimal::value_eq;
use crate::decimal::Dec;
use crate::prices::PricesMap;
use crate::keyed::lemma_entry;
use crate::keyed::to_map;
use crate::ledger::Amount;
use crate::prices::Prices;
use crate::tree_balance::child_entries;
use crate::tree_balance::node_at;
use crate::tree_balance::node_ok;
use crate::tree_balance::has_node;
use crate::tree_balance::holdings_at;
use crate::tree_balance::subtree_total;
use crate::tree_balance::tree_fits;
use crate::tree_balance::SEPARATOR;
use crate::tree_balance::TreeBalanceNode;
use vstd::prelude::*;
use vstd::string::StrSliceExecFns;
use vstd::string::StringExecFns;

verus! {

/// A node of the tree shown in a report.
#[derive(Debug)]
pub struct TreeNode {
    pub name: String,
    pub is_positive: bool,
    /// The value of everything below the node in the main commodity, rounded.
    pub amount_main_commodity_value: Dec,
    /// Every holding of the node, where it holds more than the main commodity;
    /// else none.
    pub amount_foreign_commodities: Vec<Amount>,
    pub children: Vec<TreeNode>,
}

/// `a` comes before `b`, or equals it, in code point order.
pub open spec fn name_le(a: Seq<char>, b: Seq<char>) -> bool
    decreases a.len(),
{
    if a.len() == 0 {
        true
    } else if b.len() == 0 {
        false
    } else if a[0] != b[0] {
        a[0] < b[0]
    } else {
        name_le(a.drop_first(), b.drop_first())
    }
}

pub proof fn lemma_name_le_total(a: Seq<char>, b: Seq<char>)
    ensures
        name_le(a, b) || name_le(b, a),
    decreases a.len(),
{
    if a.len() > 0 && b.len() > 0 {
        if a[0] == b[0] {
            lemma_name_le_total(a.drop_first(), b.drop_first());
        } else {
            assert(a[0] < b[0] || b[0] < a[0]);
        }
    }
}

/// Whether `a` comes before `b`, or equals it, in code point order.
pub fn name_is_le(a: &str, b: &str) -> (r: bool)
    ensures
        r == name_le(a@, b@),
{
    let n = a.unicode_len();
    let m = b.unicode_len();
    let mut i: usize = 0;
    assert(a@.skip(0) =~= a@);
    assert(b@.skip(0) =~= b@);
    while i < n && i < m
        invariant
            n == a@.len(),
            m == b@.len(),
            i <= n,
            i <= m,
            name_le(a@, b@) == name_le(a@.skip(i as int), b@.skip(i as int)),
        decreases n - i,
    {
        let c = a.get_char(i);
        let d = b.get_char(i);
        proof {
            assert(a@.skip(i as int)[0] == c);
            assert(b@.skip(i as int)[0] == d);
            assert(a@.skip(i as int).drop_first() =~= a@.skip(i as int + 1));
            assert(b@.skip(i as int).drop_first() =~= b@.skip(i as int + 1));
        }
        if c != d {
            return c < d;
        }
        i += 1;
    }
    i == n
}

/// A node of a report tree as a value: its name, its rounded value in the
/// main commodity, the holdings it lists, and its children.
pub struct NodeView {
    pub name: Seq<char>,
    pub value: Dec,
    pub foreign: Seq<(Seq<char>, Dec)>,
    pub children: Seq<NodeView>,
}

/// A node that a report shows: one with a value, or with children.
pub open spec fn is_shown(v: NodeView) -> bool {
    v.value.mantissa != 0 || v.children.len() > 0
}

/// The nodes of `s` that a report shows, in order.
pub open spec fn kept(s: Seq<NodeView>) -> Seq<NodeView>
    decreases s.len(),
{
    if s.len() == 0 {
        Seq::empty()
    } else {
        let r = kept(s.drop_last());
        if is_shown(s.last()) {
            r.push(s.last())
        } else {
            r
        }
    }
}

/// Where `x` goes among `s`: after every leading node whose name comes
/// before it or equals it.
pub open spec fn insertion_point(s: Seq<NodeView>, x: NodeView) -> int
    decreases s.len(),
{
    if s.len() == 0 {
        0
    } else if name_le(s[0].name, x.name) {
        1 + insertion_point(s.drop_first(), x)
    } else {
        0
    }
}

/// The nodes of `s` in order of name, each put in turn at its insertion point.
pub open spec fn sorted_views(s: Seq<NodeView>) -> Seq<NodeView>
    decreases s.len(),
{
    if s.len() == 0 {
        Seq::empty()
    } else {
        let r = sorted_views(s.drop_last());
        r.insert(insertion_point(r, s.last()), s.last())
    }
}

/// The report tree of `src` under the name `name`: valued in `main` on
/// `date` and rounded to `dp` places (zero where a rate is missing), its
/// children shown likewise, those without value or children left out, the
/// rest in order of name; a single remaining child of the same value is
/// merged into it, the names joined by `:`, its children taking its place.
pub open spec fn display(src: TreeBalanceNode, name: Seq<char>, main: Seq<char>, dp: u32, date: Date, p: PricesMap) -> NodeView
    decreases src, 1int,
{
    let value = rounded_value(valuation(src.balance.entries(), main, date, p), dp);
    let foreign = if holds_foreign(src.balance, main) {
        src.balance.entries()
    } else {
        Seq::empty()
    };
    let children = sorted_views(kept(displayed_children(src, main, dp, date, p)));
    if children.len() == 1 && children[0].value.val() == value.val() {
        NodeView {
            name: name + seq![SEPARATOR] + children[0].name,
            value,
            foreign,
            children: children[0].children,
        }
    } else {
        NodeView { name, value, foreign, children }
    }
}

/// Every child of `src` as `display` shows it, in the order of the tree.
pub open spec fn displayed_children(src: TreeBalanceNode, main: Seq<char>, dp: u32, date: Date, p: PricesMap) -> Seq<NodeView>
    decreases src, 0int,
{
    Seq::new(
        src.children@.len(),
        |i: int|
            if 0 <= i < src.children@.len() {
                display(src.children@[i].1, src.children@[i].0@, main, dp, date, p)
            } else {
                NodeView { name: Seq::empty(), value: zero_dec(), foreign: Seq::empty(), children: Seq::empty() }
            },
    )
}

/// `t` is the node `v`, and so is everything below it.
pub open spec fn matches_view(t: TreeNode, v: NodeView) -> bool
    decreases t,
{
    &&& t.name@ == v.name
    &&& t.amount_main_commodity_value == v.value
    &&& t.amount_main_commodity_value.wf()
    &&& t.is_positive == (v.value.val() > 0)
    &&& t.amount_foreign_commodities@.map_values(|a: Amount| (a.commodity@, a.quantity)) == v.foreign
    &&& t.children@.len() == v.children.len()
    &&& forall|i: int| 0 <= i < t.children@.len() ==> matches_view(#[trigger] t.children@[i], v.children[i])
}

pub proof fn lemma_insertion_point(s: Seq<NodeView>, x: NodeView, p: int)
    requires
        0 <= p <= s.len(),
        forall|q: int| 0 <= q < p ==> name_le((#[trigger] s[q]).name, x.name),
        p == s.len() || !name_le(s[p].name, x.name),
    ensures
        insertion_point(s, x) == p,
    decreases p,
{
    if p > 0 {
        assert(name_le(s[0].name, x.name));
        assert forall|q: int| 0 <= q < p - 1 implies name_le((#[trigger] s.drop_first()[q]).name, x.name) by {
            assert(s.drop_first()[q] == s[q + 1]);
        }
        lemma_insertion_point(s.drop_first(), x, p - 1);
    }
}

/// `v` in order of name: each node is put after the last one whose name
/// comes before it or equals it.
fn sort_by_name(v: Vec<TreeNode>, Ghost(vs): Ghost<Seq<NodeView>>) -> (r: Vec<TreeNode>)
    requires
        v@.len() == vs.len(),
        forall|i: int| 0 <= i < v@.len() ==> matches_view(#[trigger] v@[i], vs[i]),
    ensures
        r@.len() == sorted_views(vs).len(),
        forall|i: int| 0 <= i < r@.len() ==> matches_view(#[trigger] r@[i], sorted_views(vs)[i]),
{
    let mut v = v;
    let mut r: Vec<TreeNode> = Vec::new();
    let ghost mut k: int = 0;
    assert(vs.skip(0) =~= vs);
    assert(vs.take(0).len() == 0);
    while v.len() > 0
        invariant
            0 <= k <= vs.len(),
            v@.len() == vs.len() - k,
            forall|i: int| 0 <= i < v@.len() ==> matches_view(#[trigger] v@[i], vs[k + i]),
            r@.len() == sorted_views(vs.take(k)).len(),
            forall|i: int| 0 <= i < r@.len() ==> matches_view(#[trigger] r@[i], sorted_views(vs.take(k))[i]),
        decreases v@.len(),
    {
        let ghost before = r@;
        let ghost rv = sorted_views(vs.take(k));
        let ghost xv = vs[k];
        let ghost rest = v@;
        let x = v.remove(0);
        assert(matches_view(rest[0], vs[k + 0]));
        let n = r.len();
        let mut p: usize = 0;
        while p < n && name_is_le(r[p].name.as_str(), x.name.as_str())
            invariant
                n == r@.len(),
                r@ == before,
                rv.len() == n,
                forall|i: int| 0 <= i < n ==> matches_view(#[trigger] before[i], rv[i]),
                matches_view(x, xv),
                p <= n,
                forall|q: int| 0 <= q < p ==> name_le((#[trigger] rv[q]).name, xv.name),
            decreases n - p,
        {
            assert(matches_view(before[p as int], rv[p as int]));
            p += 1;
        }
        proof {
            if p < n {
                assert(matches_view(before[p as int], rv[p as int]));
            }
            lemma_insertion_point(rv, xv, p as int);
            assert(vs.take(k + 1).drop_last() =~= vs.take(k));
            assert(vs.take(k + 1).last() == xv);
        }
        r.insert(p, x);
        proof {
            let nv = rv.insert(p as int, xv);
            assert(sorted_views(vs.take(k + 1)) == nv);
            assert forall|i: int| 0 <= i < r@.len() implies matches_view(#[trigger] r@[i], nv[i]) by {
                if i < p {
                    assert(r@[i] == before[i]);
                } else if i > p {
                    assert(r@[i] == before[i - 1]);
                }
            }
            assert forall|i: int| 0 <= i < v@.len() implies matches_view(#[trigger] v@[i], vs[k + 1 + i]) by {
                assert(v@[i] == rest[i + 1]);
            }
            k = k + 1;
        }
    }
    proof {
        assert(vs.take(k) =~= vs);
    }
    r
}

/// The holdings of `b` hold something besides `main`.
pub open spec fn holds_foreign(b: AccountBalance, main: Seq<char>) -> bool {
    b.amounts@.len() > 1 || (b.amounts@.len() == 1 && b.amounts@[0].commodity@ != main)
}

/// A subtree of a well-formed tree is well formed.
proof fn lemma_child_wf(src: TreeBalanceNode, j: int)
    requires
        src.wf(),
        0 <= j < src.children@.len(),
    ensures
        src.children@[j].1.wf(),
        to_map(child_entries(src))[src.children@[j].0@] == src.children@[j].1,
{
    let ce = child_entries(src);
    let key = ce[j].0;
    let child = src.children@[j].1;
    assert(node_ok(node_at(src, Seq::empty())));
    assert(node_at(src, Seq::empty()) == Some(src));
    lemma_entry(ce, j);
    assert forall|q: Seq<Seq<char>>| #[trigger] node_ok(node_at(child, q)) by {
        let p = seq![key] + q;
        assert(p.drop_first() =~= q);
        assert(node_at(src, p) == node_at(child, q));
        assert(node_ok(node_at(src, p)));
    }
}

/// The node `src` as shown in a report under the name `name`: see `display`.
pub fn convert_tree_node(
    name: &String,
    src: &TreeBalanceNode,
    prices: &Prices,
    params: &ReportParameters,
    date: &Date,
) -> (r: TreeNode)
    requires
        src.wf(),
        prices.wf(),
    ensures
        matches_view(
            r,
            display(
                *src,
                name@,
                params.main_commodity@,
                params.main_commodity_decimal_points,
                *date,
                prices@,
            ),
        ),
    decreases src,
{
    let ghost main = params.main_commodity@;
    let ghost dp = params.main_commodity_decimal_points;
    let ghost target = display(*src, name@, main, dp, *date, prices@);
    proof {
        assert(node_ok(node_at(*src, Seq::empty())));
        assert(node_at(*src, Seq::empty()) == Some(*src));
    }
    let value = src.balance.value_in_commodity_rounded(
        &params.main_commodity,
        params.main_commodity_decimal_points,
        date,
        prices,
    );
    assert(value == target.value);
    let n_amounts = src.balance.amounts.len();
    let foreign = if n_amounts > 1 || (n_amounts == 1 && src.balance.amounts[0].commodity
        != params.main_commodity) {
        src.balance.copy().amounts
    } else {
        Vec::new()
    };
    proof {
        assert(foreign@.map_values(|a: Amount| (a.commodity@, a.quantity)) =~= target.foreign);
    }
    let ghost converted = displayed_children(*src, main, dp, *date, prices@);
    let mut children: Vec<TreeNode> = Vec::new();
    let n = src.children.len();
    let mut j: usize = 0;
    assert(converted.take(0).len() == 0);
    while j < n
        invariant
            n == src.children@.len(),
            converted.len() == n,
            forall|i: int|
                0 <= i < n ==> #[trigger] converted[i] == display(
                    src.children@[i].1,
                    src.children@[i].0@,
                    main,
                    dp,
                    *date,
                    prices@,
                ),
            main == params.main_commodity@,
            dp == params.main_commodity_decimal_points,
            src.wf(),
            prices.wf(),
            j <= n,
            children@.len() == kept(converted.take(j as int)).len(),
            forall|i: int|
                0 <= i < children@.len() ==> matches_view(
                    #[trigger] children@[i],
                    kept(converted.take(j as int))[i],
                ),
        decreases n - j,
    {
        let entry = &src.children[j];
        proof {
            lemma_child_wf(*src, j as int);
            assert(decreases_to!(*src => src.children));
            assert(decreases_to!(src.children => src.children@));
            assert(decreases_to!(src.children@ => src.children@[j as int]));
        }
        let child = convert_tree_node(&entry.0, &entry.1, prices, params, date);
        let ghost before = children@;
        let ghost kv = kept(converted.take(j as int));
        proof {
            assert(converted.take(j as int + 1).drop_last() =~= converted.take(j as int));
            assert(converted.take(j as int + 1).last() == converted[j as int]);
            assert(converted[j as int] == display(entry.1, entry.0@, main, dp, *date, prices@));
        }
        if child.amount_main_commodity_value.mantissa != 0 || child.children.len() > 0 {
            children.push(child);
            proof {
                assert forall|i: int| 0 <= i < children@.len() implies matches_view(
                    #[trigger] children@[i],
                    kv.push(converted[j as int])[i],
                ) by {
                    if i < before.len() {
                        assert(children@[i] == before[i]);
                    }
                }
            }
        }
        j += 1;
    }
    proof {
        assert(converted.take(n as int) =~= converted);
    }
    let ghost kv = kept(converted);
    let mut children = sort_by_name(children, Ghost(kv));
    let ghost sv = sorted_views(kv);
    let mut name = name.clone();
    let ghost name0 = name@;
    let merge = children.len() == 1 && value_eq(children[0].amount_main_commodity_value, value);
    proof {
        if children.len() == 1 {
            assert(matches_view(children@[0], sv[0]));
        }
    }
    if merge {
        let child = children.pop().unwrap();
        proof {
            reveal_strlit(":");
            assert(matches_view(child, sv[0]));
        }
        name.append(":");
        name.append(child.name.as_str());
        proof {
            assert(name@ == name0 + seq![SEPARATOR] + child.name@);
        }
        children = child.children;
    }
    let r = TreeNode {
        name,
        is_positive: value.is_positive(),
        amount_main_commodity_value: value,
        amount_foreign_commodities: foreign,
        children,
    };
    proof {
        let expected = if sv.len() == 1 && sv[0].value.val() == value.val() {
            NodeView {
                name: name0 + seq![SEPARATOR] + sv[0].name,
                value,
                foreign: target.foreign,
                children: sv[0].children,
            }
        } else {
            NodeView { name: name0, value, foreign: target.foreign, children: sv }
        };
        assert(target == expected);
        assert(r.children@.len() == expected.children.len());
        assert forall|i: int| 0 <= i < r.children@.len() implies matches_view(
            #[trigger] r.children@[i],
            expected.children[i],
        ) by {}
        assert(r.amount_foreign_commodities@.map_values(|a: Amount| (a.commodity@, a.quantity))
            == expected.foreign);
        assert(matches_view(r, expected));
    }
    r
}

/// The report tree of `balance` valued on `date`, its root named `/`: the
/// display of the tree of its accounts.
pub fn get_summary_tree(balance: &Balance, prices: &Prices, params: &ReportParameters, date: &Date) -> (r: TreeNode)
    requires
        balance.wf(),
        prices.wf(),
        tree_fits(balance.entries()),
    ensures
        exists|root: TreeBalanceNode|
            {
                &&& root.wf()
                &&& forall|p: Seq<Seq<char>>| #[trigger]
                    node_at(root, p) is Some <==> (p.len() == 0 || has_node(balance.entries(), p))
                &&& forall|p: Seq<Seq<char>>| #[trigger]
                    holdings_at(root, p) == subtree_total(balance.entries(), p)
                &&& matches_view(
                    r,
                    display(
                        root,
                        seq!['/'],
                        params.main_commodity@,
                        params.main_commodity_decimal_points,
                        *date,
                        prices@,
                    ),
                )
            },
{
    let root = TreeBalanceNode::from_balance(balance);
    let name = String::from_str("/");
    proof {
        reveal_strlit("/");
        assert(name@ =~= seq!['/']);
    }
    convert_tree_node(&name, &root, prices, params, date)
}

} // verus!
