//! Balances arranged as a tree of account path segments.
use crate::balance::combination_fits;
use crate::balance::combined;
use crate::balance::AccountBalance;
use crate::balance::Balance;
use crate::balance::CommodityMap;
use crate::decimal::Dec;
use crate::keyed::has_key;
use crate::keyed::keys_distinct;
use crate::keyed::lemma_empty;
use crate::keyed::lemma_entry;
use crate::keyed::lemma_push;
use crate::keyed::lemma_update;
use crate::keyed::to_map;
use vstd::prelude::*;
use vstd::string::StrSliceExecFns;

verus! {

/// The character that separates the segments of an account path.
pub const SEPARATOR: char = ':';

/// The segments of an account path: the text between separators.
pub open spec fn segments(s: Seq<char>) -> Seq<Seq<char>>
    decreases s.len(),
{
    if s.len() == 0 {
        seq![Seq::<char>::empty()]
    } else {
        let r = segments(s.drop_last());
        if s.last() == SEPARATOR {
            r.push(Seq::empty())
        } else {
            r.update(r.len() - 1, r.last().push(s.last()))
        }
    }
}

/// The views of a sequence of strings.
pub open spec fn seg_views(v: Seq<String>) -> Seq<Seq<char>> {
    v.map_values(|x: String| x@)
}

/// Splits an account path into its segments.
pub fn split_account(name: &String) -> (r: Vec<String>)
    ensures
        r@.map_values(|x: String| x@) == segments(name@),
{
    let s = name.as_str();
    let n = s.unicode_len();
    let mut result: Vec<String> = Vec::new();
    let mut start: usize = 0;
    let mut i: usize = 0;
    assert(name@.take(0) =~= Seq::<char>::empty());
    while i < n
        invariant
            n == s@.len(),
            s@ == name@,
            start <= i <= n,
            segments(name@.take(i as int)) == result@.map_values(|x: String| x@).push(
                name@.subrange(start as int, i as int),
            ),
        decreases n - i,
    {
        let c = s.get_char(i);
        proof {
            assert(name@.take(i as int + 1).drop_last() =~= name@.take(i as int));
            assert(name@.take(i as int + 1).last() == c);
        }
        if c == SEPARATOR {
            let seg = s.substring_char(start, i).to_owned();
            let ghost before = result@.map_values(|x: String| x@);
            result.push(seg);
            proof {
                assert(result@.map_values(|x: String| x@) =~= before.push(name@.subrange(start as int, i as int)));
                assert(name@.subrange(i as int + 1, i as int + 1) =~= Seq::<char>::empty());
            }
            start = i + 1;
        } else {
            proof {
                assert(name@.subrange(start as int, i as int + 1) =~= name@.subrange(start as int, i as int).push(c));
            }
        }
        i += 1;
    }
    let seg = s.substring_char(start, n).to_owned();
    let ghost before = result@.map_values(|x: String| x@);
    result.push(seg);
    proof {
        assert(name@.take(n as int) =~= name@);
        assert(result@.map_values(|x: String| x@) =~= before.push(name@.subrange(start as int, n as int)));
    }
    result
}

/// `p` is a prefix of `q`.
pub open spec fn is_prefix(p: Seq<Seq<char>>, q: Seq<Seq<char>>) -> bool {
    p.len() <= q.len() && q.take(p.len() as int) == p
}

pub proof fn lemma_prefix_empty(q: Seq<Seq<char>>, path: Seq<Seq<char>>)
    ensures
        q.len() == 0 ==> is_prefix(q, path),
{
    if q.len() == 0 {
        assert(path.take(0) =~= q);
    }
}

pub proof fn lemma_prefix_step(q: Seq<Seq<char>>, sv: Seq<Seq<char>>, i: int)
    requires
        0 <= i < sv.len(),
        q.len() > 0,
    ensures
        is_prefix(q, sv.skip(i)) <==> (q[0] == sv[i] && is_prefix(q.drop_first(), sv.skip(i + 1))),
{
    let path = sv.skip(i);
    if is_prefix(q, path) {
        assert(q[0] == path.take(q.len() as int)[0]);
        assert(sv.skip(i + 1).take(q.len() - 1) =~= q.drop_first());
    }
    if q[0] == sv[i] && is_prefix(q.drop_first(), sv.skip(i + 1)) {
        assert forall|j: int| 0 <= j < q.len() implies path.take(q.len() as int)[j] == q[j] by {
            if j > 0 {
                assert(sv.skip(i + 1).take(q.len() - 1)[j - 1] == q.drop_first()[j - 1]);
            }
        }
        assert(path.take(q.len() as int) =~= q);
    }
}

/// The sum, in entry order, of the holdings of the accounts at or below the
/// node at path `p`.
pub open spec fn subtree_total(entries: Seq<(Seq<char>, CommodityMap)>, p: Seq<Seq<char>>) -> CommodityMap
    decreases entries.len(),
{
    if entries.len() == 0 {
        Map::empty()
    } else {
        let rest = subtree_total(entries.drop_last(), p);
        if is_prefix(p, segments(entries.last().0)) {
            combined(rest, entries.last().1, false)
        } else {
            rest
        }
    }
}

/// Some account of `entries` is at or below the node at path `p`.
pub open spec fn has_node(entries: Seq<(Seq<char>, CommodityMap)>, p: Seq<Seq<char>>) -> bool {
    exists|i: int| 0 <= i < entries.len() && is_prefix(p, #[trigger] segments(entries[i].0))
}

/// Each running total of every node of the tree of `entries` is within the
/// decimal type's limits.
pub open spec fn tree_fits(entries: Seq<(Seq<char>, CommodityMap)>) -> bool {
    forall|k: int, p: Seq<Seq<char>>|
        0 <= k < entries.len() && is_prefix(p, #[trigger] segments(entries[k].0)) ==> #[trigger] combination_fits(
            subtree_total(entries.take(k), p),
            entries[k].1,
            false,
        )
}

pub proof fn lemma_subtree_total_absent(entries: Seq<(Seq<char>, CommodityMap)>, p: Seq<Seq<char>>)
    requires
        !has_node(entries, p),
    ensures
        subtree_total(entries, p) == Map::<Seq<char>, Dec>::empty(),
    decreases entries.len(),
{
    if entries.len() > 0 {
        assert(!is_prefix(p, segments(entries[entries.len() - 1].0)));
        assert forall|i: int| 0 <= i < entries.drop_last().len() implies !is_prefix(
            p,
            #[trigger] segments(entries.drop_last()[i].0),
        ) by {
            assert(entries.drop_last()[i] == entries[i]);
        }
        lemma_subtree_total_absent(entries.drop_last(), p);
    }
}

/// A node of the account tree: the holdings of everything below it, and its
/// children by path segment.
#[derive(Debug)]
pub struct TreeBalanceNode {
    pub balance: AccountBalance,
    pub children: Vec<(String, TreeBalanceNode)>,
}

/// The children of `n` as (segment, node) entries.
pub open spec fn child_entries(n: TreeBalanceNode) -> Seq<(Seq<char>, TreeBalanceNode)> {
    n.children@.map_values(|e: (String, TreeBalanceNode)| (e.0@, e.1))
}

/// The node at path `p` below `n`, if there is one.
pub open spec fn node_at(n: TreeBalanceNode, p: Seq<Seq<char>>) -> Option<TreeBalanceNode>
    decreases p.len(),
{
    if p.len() == 0 {
        Some(n)
    } else {
        let m = to_map(child_entries(n));
        if m.contains_key(p[0]) {
            node_at(m[p[0]], p.drop_first())
        } else {
            None
        }
    }
}

/// The holdings of the node at path `p`, nothing where there is no node.
pub open spec fn holdings_at(n: TreeBalanceNode, p: Seq<Seq<char>>) -> CommodityMap {
    match node_at(n, p) {
        Some(x) => x.balance@,
        None => Map::empty(),
    }
}

/// A present node has a well-formed balance and distinct child segments.
pub open spec fn node_ok(o: Option<TreeBalanceNode>) -> bool {
    match o {
        Some(x) => x.balance.wf() && keys_distinct(child_entries(x)),
        None => true,
    }
}

impl TreeBalanceNode {
    /// Every node has a well-formed balance and distinct child segments.
    pub open spec fn wf(self) -> bool {
        forall|p: Seq<Seq<char>>| #[trigger] node_ok(node_at(self, p))
    }

    pub fn new() -> (r: TreeBalanceNode)
        ensures
            r.wf(),
            r.balance@ == Map::<Seq<char>, Dec>::empty(),
            forall|p: Seq<Seq<char>>| #[trigger] node_at(r, p) is Some <==> p.len() == 0,
    {
        let r = TreeBalanceNode { balance: AccountBalance::new(), children: Vec::new() };
        proof {
            lemma_empty(child_entries(r));
            assert forall|p: Seq<Seq<char>>| #[trigger] node_at(r, p) is Some <==> p.len() == 0 by {
                if p.len() > 0 {
                    assert(!to_map(child_entries(r)).contains_key(p[0]));
                }
            }
        }
        r
    }

    /// Adds `b` to this node and to every node along `segs[i..]` below it,
    /// creating the nodes that are missing.
    fn add_along(&mut self, segs: &Vec<String>, i: usize, b: &AccountBalance)
        requires
            old(self).wf(),
            b.wf(),
            i <= segs@.len(),
            forall|q: Seq<Seq<char>>| #[trigger]
                is_prefix(q, seg_views(segs@).skip(i as int)) ==> combination_fits(
                    holdings_at(*old(self), q),
                    b@,
                    false,
                ),
        ensures
            final(self).wf(),
            forall|q: Seq<Seq<char>>| #[trigger]
                is_prefix(q, seg_views(segs@).skip(i as int)) ==> (node_at(*final(self), q) is Some
                    && holdings_at(*final(self), q) == combined(holdings_at(*old(self), q), b@, false)),
            forall|q: Seq<Seq<char>>|
                !is_prefix(q, seg_views(segs@).skip(i as int)) ==> #[trigger] node_at(
                    *final(self),
                    q,
                ) == node_at(*old(self), q),
        decreases segs@.len() - i,
    {
        let ghost sv = seg_views(segs@);
        let ghost path = sv.skip(i as int);
        let ghost old_self = *self;
        proof {
            lemma_prefix_empty(Seq::<Seq<char>>::empty(), path);
            assert(node_at(*self, Seq::<Seq<char>>::empty()) == Some(*self));
            assert(node_ok(node_at(*self, Seq::<Seq<char>>::empty())));
        }
        self.balance.add_assign(b);
        if i < segs.len() {
            let ghost ce = child_entries(old_self);
            proof {
                assert(node_at(old_self, Seq::<Seq<char>>::empty()) == Some(old_self));
            }
            let mut found: Option<usize> = None;
            let n = self.children.len();
            let mut j: usize = 0;
            while j < n
                invariant
                    n == self.children@.len(),
                    ce == child_entries(old_self),
                    self.children@ == old_self.children@,
                    i < segs@.len(),
                    j <= n,
                    found matches Some(k) ==> k < n && ce[k as int].0 == segs@[i as int]@,
                    found is None ==> forall|x: int| 0 <= x < j ==> ce[x].0 != segs@[i as int]@,
                decreases n - j,
            {
                if found.is_none() && self.children[j].0 == segs[i] {
                    found = Some(j);
                }
                j += 1;
            }
            let ghost key = segs@[i as int]@;
            proof {
                assert(sv[i as int] == key);
                assert(path[0] == key);
            }
            match found {
                Some(k) => {
                    let (name, mut child) = self.children.remove(k);
                    proof {
                        lemma_entry(ce, k as int);
                        assert forall|q: Seq<Seq<char>>| #[trigger] node_ok(node_at(child, q)) by {
                            assert(node_at(old_self, seq![key] + q) == node_at(child, q)) by {
                                assert((seq![key] + q).drop_first() =~= q);
                            }
                        }
                        assert forall|q: Seq<Seq<char>>| #[trigger]
                            is_prefix(q, sv.skip(i as int + 1)) implies combination_fits(
                            holdings_at(child, q),
                            b@,
                            false,
                        ) by {
                            assert((seq![key] + q).drop_first() =~= q);
                            assert(sv.skip(i as int + 1) =~= path.drop_first());
                            assert(is_prefix(seq![key] + q, path)) by {
                                assert(path.take(q.len() + 1 as int) =~= seq![key] + path.drop_first().take(q.len() as int));
                            }
                            assert(node_at(old_self, seq![key] + q) == node_at(child, q));
                        }
                    }
                    child.add_along(segs, i + 1, b);
                    let ghost cv = child;
                    self.children.insert(k, (name, child));
                    proof {
                        assert(child_entries(*self) =~= ce.update(k as int, (key, cv)));
                        lemma_update(ce, k as int, cv);
                        lemma_node_step(*self, old_self, key, cv, sv, i as int, b@);
                    }
                },
                None => {
                    let mut child = TreeBalanceNode::new();
                    proof {
                        assert forall|q: Seq<Seq<char>>| #[trigger]
                            is_prefix(q, sv.skip(i as int + 1)) implies combination_fits(
                            holdings_at(child, q),
                            b@,
                            false,
                        ) by {
                            if q.len() > 0 {
                                assert(node_at(child, q) is None);
                            }
                            b.lemma_values();
                        }
                    }
                    let ghost c0 = child;
                    child.add_along(segs, i + 1, b);
                    let ghost cv = child;
                    proof {
                        assert forall|q: Seq<Seq<char>>| !is_prefix(q, sv.skip(i as int + 1)) implies #[trigger] node_at(
                            cv,
                            q,
                        ) is None by {
                            lemma_prefix_empty(q, sv.skip(i as int + 1));
                            assert(node_at(cv, q) == node_at(c0, q));
                        }
                    }
                    self.children.push((segs[i].clone(), child));
                    proof {
                        assert(!has_key(ce, key));
                        assert(child_entries(*self) =~= ce.push((key, cv)));
                        lemma_push(ce, (key, cv));
                        self.lemma_after_child_insert(old_self, key, cv, sv, i as int, b@);
                    }
                },
            }
        } else {
            proof {
                assert(child_entries(*self) =~= child_entries(old_self));
                assert forall|q: Seq<Seq<char>>| !is_prefix(q, path) implies #[trigger] node_at(*self, q)
                    == node_at(old_self, q) by {
                    lemma_prefix_empty(q, path);
                    assert(to_map(child_entries(*self)) == to_map(child_entries(old_self)));
                }
                assert forall|q: Seq<Seq<char>>| #[trigger] node_ok(node_at(*self, q)) by {
                    if q.len() == 0 {
                        assert(node_at(*self, q) == Some(*self));
                        assert(node_at(old_self, q) == Some(old_self));
                    } else {
                        assert(to_map(child_entries(*self)) == to_map(child_entries(old_self)));
                        assert(node_at(*self, q) == node_at(old_self, q));
                    }
                }
                assert forall|q: Seq<Seq<char>>| #[trigger]
                    is_prefix(q, path) implies q.len() == 0 by {}
            }
        }
    }

    proof fn lemma_after_child_insert(
        self,
        old_self: TreeBalanceNode,
        key: Seq<char>,
        cv: TreeBalanceNode,
        sv: Seq<Seq<char>>,
        i: int,
        b: CommodityMap,
    )
        requires
            0 <= i < sv.len(),
            sv[i] == key,
            old_self.wf(),
            self.balance.wf(),
            self.balance@ == combined(old_self.balance@, b, false),
            !to_map(child_entries(old_self)).contains_key(key),
            keys_distinct(child_entries(self)),
            to_map(child_entries(self)) == to_map(child_entries(old_self)).insert(key, cv),
            cv.wf(),
            forall|q: Seq<Seq<char>>| #[trigger]
                is_prefix(q, sv.skip(i + 1)) ==> (node_at(cv, q) is Some && holdings_at(cv, q)
                    == combined(Map::<Seq<char>, Dec>::empty(), b, false)),
            forall|q: Seq<Seq<char>>|
                !is_prefix(q, sv.skip(i + 1)) ==> #[trigger] node_at(cv, q) is None,
        ensures
            self.wf(),
            forall|q: Seq<Seq<char>>| #[trigger]
                is_prefix(q, sv.skip(i)) ==> (node_at(self, q) is Some && holdings_at(self, q)
                    == combined(holdings_at(old_self, q), b, false)),
            forall|q: Seq<Seq<char>>|
                !is_prefix(q, sv.skip(i)) ==> #[trigger] node_at(self, q) == node_at(old_self, q),
    {
        let path = sv.skip(i);
        assert forall|q: Seq<Seq<char>>| #[trigger] node_ok(node_at(self, q)) by {
            if q.len() > 0 {
                if q[0] == key {
                    assert(node_at(self, q) == node_at(cv, q.drop_first()));
                } else {
                    assert(node_at(self, q) == node_at(old_self, q));
                }
            } else {
                assert(node_at(self, q) == Some(self));
            }
        }
        assert forall|q: Seq<Seq<char>>| #[trigger]
            is_prefix(q, path) implies (node_at(self, q) is Some && holdings_at(self, q) == combined(
            holdings_at(old_self, q),
            b,
            false,
        )) by {
            if q.len() > 0 {
                lemma_prefix_step(q, sv, i);
                assert(node_at(self, q) == node_at(cv, q.drop_first()));
                assert(node_at(old_self, q) is None);
            } else {
                assert(node_at(self, q) == Some(self));
                assert(node_at(old_self, q) == Some(old_self));
            }
        }
        assert forall|q: Seq<Seq<char>>| !is_prefix(q, path) implies #[trigger] node_at(self, q)
            == node_at(old_self, q) by {
            if q.len() > 0 {
                if q[0] == key {
                    lemma_prefix_step(q, sv, i);
                    assert(node_at(self, q) == node_at(cv, q.drop_first()));
                    assert(node_at(old_self, q) is None);
                } else {
                    assert(node_at(self, q) == node_at(old_self, q));
                }
            } else {
                lemma_prefix_empty(q, path);
            }
        }
    }
}

proof fn lemma_node_step(
    s: TreeBalanceNode,
    old_self: TreeBalanceNode,
    key: Seq<char>,
    cv: TreeBalanceNode,
    sv: Seq<Seq<char>>,
    i: int,
    b: CommodityMap,
)
    requires
        0 <= i < sv.len(),
        sv[i] == key,
        old_self.wf(),
        s.balance.wf(),
        s.balance@ == combined(old_self.balance@, b, false),
        to_map(child_entries(old_self)).contains_key(key),
        keys_distinct(child_entries(s)),
        to_map(child_entries(s)) == to_map(child_entries(old_self)).insert(key, cv),
        cv.wf(),
        forall|q: Seq<Seq<char>>| #[trigger]
            is_prefix(q, sv.skip(i + 1)) ==> (node_at(cv, q) is Some && holdings_at(cv, q) == combined(
                holdings_at(to_map(child_entries(old_self))[key], q),
                b,
                false,
            )),
        forall|q: Seq<Seq<char>>|
            !is_prefix(q, sv.skip(i + 1)) ==> #[trigger] node_at(cv, q) == node_at(
                to_map(child_entries(old_self))[key],
                q,
            ),
    ensures
        s.wf(),
        forall|q: Seq<Seq<char>>| #[trigger]
            is_prefix(q, sv.skip(i)) ==> (node_at(s, q) is Some && holdings_at(s, q) == combined(
                holdings_at(old_self, q),
                b,
                false,
            )),
        forall|q: Seq<Seq<char>>|
            !is_prefix(q, sv.skip(i)) ==> #[trigger] node_at(s, q) == node_at(old_self, q),
{
    let path = sv.skip(i);
    let oc = to_map(child_entries(old_self))[key];
    assert forall|q: Seq<Seq<char>>| #[trigger] node_ok(node_at(s, q)) by {
        if q.len() > 0 {
            if q[0] == key {
                assert(node_at(s, q) == node_at(cv, q.drop_first()));
            } else {
                assert(node_at(s, q) == node_at(old_self, q));
            }
        } else {
            assert(node_at(s, q) == Some(s));
        }
    }
    assert forall|q: Seq<Seq<char>>| #[trigger]
        is_prefix(q, path) implies (node_at(s, q) is Some && holdings_at(s, q) == combined(
        holdings_at(old_self, q),
        b,
        false,
    )) by {
        if q.len() > 0 {
            lemma_prefix_step(q, sv, i);
            assert(node_at(s, q) == node_at(cv, q.drop_first()));
            assert(node_at(old_self, q) == node_at(oc, q.drop_first()));
        } else {
            assert(node_at(s, q) == Some(s));
            assert(node_at(old_self, q) == Some(old_self));
        }
    }
    assert forall|q: Seq<Seq<char>>| !is_prefix(q, path) implies #[trigger] node_at(s, q) == node_at(
        old_self,
        q,
    ) by {
        if q.len() > 0 {
            if q[0] == key {
                lemma_prefix_step(q, sv, i);
                assert(node_at(s, q) == node_at(cv, q.drop_first()));
                assert(node_at(old_self, q) == node_at(oc, q.drop_first()));
            } else {
                assert(node_at(s, q) == node_at(old_self, q));
            }
        } else {
            lemma_prefix_empty(q, path);
        }
    }
}

impl TreeBalanceNode {
    /// The tree of `balance`: a node for each prefix of each account's path
    /// segments, holding the sum of the accounts at or below it.
    pub fn from_balance(balance: &Balance) -> (r: TreeBalanceNode)
        requires
            balance.wf(),
            tree_fits(balance.entries()),
        ensures
            r.wf(),
            forall|p: Seq<Seq<char>>| #[trigger]
                node_at(r, p) is Some <==> (p.len() == 0 || has_node(balance.entries(), p)),
            forall|p: Seq<Seq<char>>| #[trigger] holdings_at(r, p) == subtree_total(balance.entries(), p),
    {
        let ghost e = balance.entries();
        let mut root = TreeBalanceNode::new();
        let n = balance.account_balances.len();
        let mut i: usize = 0;
        proof {
            assert forall|p: Seq<Seq<char>>| #[trigger] holdings_at(root, p) == subtree_total(e.take(0), p) by {
                assert(e.take(0).len() == 0);
            }
            assert forall|p: Seq<Seq<char>>| #[trigger]
                node_at(root, p) is Some <==> (p.len() == 0 || has_node(e.take(0), p)) by {
                assert(e.take(0).len() == 0);
            }
        }
        while i < n
            invariant
                n == balance.account_balances@.len(),
                e == balance.entries(),
                balance.wf(),
                tree_fits(e),
                i <= n,
                root.wf(),
                forall|p: Seq<Seq<char>>| #[trigger]
                    node_at(root, p) is Some <==> (p.len() == 0 || has_node(e.take(i as int), p)),
                forall|p: Seq<Seq<char>>| #[trigger] holdings_at(root, p) == subtree_total(e.take(i as int), p),
            decreases n - i,
        {
            let entry = &balance.account_balances[i];
            let segs = split_account(&entry.0);
            let ghost old_root = root;
            let ghost t = e.take(i as int);
            let ghost t1 = e.take(i as int + 1);
            proof {
                assert(t1.drop_last() =~= t);
                assert(t1.last() == e[i as int]);
                assert(e[i as int] == (entry.0@, entry.1@));
                assert(seg_views(segs@).skip(0) =~= seg_views(segs@));
                assert(balance.account_balances@[i as int].1.wf());
                assert forall|q: Seq<Seq<char>>| #[trigger]
                    is_prefix(q, seg_views(segs@).skip(0)) implies combination_fits(holdings_at(root, q), entry.1@, false) by {
                    assert(is_prefix(q, segments(e[i as int].0)));
                    assert(combination_fits(subtree_total(e.take(i as int), q), e[i as int].1, false));
                    assert(holdings_at(root, q) == subtree_total(t, q));
                }
            }
            root.add_along(&segs, 0, &entry.1);
            proof {
                assert forall|p: Seq<Seq<char>>| #[trigger] holdings_at(root, p) == subtree_total(t1, p) by {
                    assert(holdings_at(old_root, p) == subtree_total(t, p));
                    if is_prefix(p, seg_views(segs@).skip(0)) {
                        assert(holdings_at(root, p) == combined(holdings_at(old_root, p), entry.1@, false));
                    } else {
                        assert(node_at(root, p) == node_at(old_root, p));
                    }
                }
                assert forall|p: Seq<Seq<char>>| #[trigger]
                    node_at(root, p) is Some <==> (p.len() == 0 || has_node(t1, p)) by {
                    if is_prefix(p, seg_views(segs@).skip(0)) {
                        assert(node_at(root, p) is Some);
                        assert(t1[i as int] == e[i as int]);
                        assert(has_node(t1, p));
                    } else {
                        assert(node_at(root, p) == node_at(old_root, p));
                        if has_node(t1, p) {
                            let k = choose|k: int| 0 <= k < t1.len() && is_prefix(p, #[trigger] segments(t1[k].0));
                            assert(k != i);
                            assert(t[k] == t1[k]);
                            assert(has_node(t, p));
                        }
                        if has_node(t, p) {
                            let k = choose|k: int| 0 <= k < t.len() && is_prefix(p, #[trigger] segments(t[k].0));
                            assert(t[k] == t1[k]);
                            assert(has_node(t1, p));
                        }
                    }
                }
            }
            i += 1;
        }
        proof {
            assert(e.take(n as int) =~= e);
        }
        root
    }
}

/// The sum, in entry order, of the holdings of every account.
pub open spec fn grand_total(entries: Seq<(Seq<char>, CommodityMap)>) -> CommodityMap
    decreases entries.len(),
{
    if entries.len() == 0 {
        Map::empty()
    } else {
        combined(grand_total(entries.drop_last()), entries.last().1, false)
    }
}

/// The root of the tree of a balance holds the sum of the holdings of every
/// account of the balance (`from_balance` gives each node the sum of the
/// accounts at or below it).
pub proof fn lemma_root_holds_all_accounts(balance: Balance)
    ensures
        subtree_total(balance.entries(), Seq::empty()) == grand_total(balance.entries()),
{
    lemma_root_total(balance.entries());
}

proof fn lemma_root_total(entries: Seq<(Seq<char>, CommodityMap)>)
    ensures
        subtree_total(entries, Seq::empty()) == grand_total(entries),
    decreases entries.len(),
{
    if entries.len() > 0 {
        lemma_prefix_empty(Seq::empty(), segments(entries.last().0));
        lemma_root_total(entries.drop_last());
    }
}

} // verus!
