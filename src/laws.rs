use vstd::prelude::*;

use crate::error::ResError;
use crate::layer::{
    acyclic, expand, expand_list, forest, kids_of, lemma_expand_list, lemma_kids_contains,
    lemma_kids_members, outcome, tops,
};
use crate::model::{models, ResModel, SysRes, SysResVO, TreeModel};

verus! {

/// `x` is the record at `t` or at some node below it.
pub open spec fn occurs(t: TreeModel, x: ResModel) -> bool
    decreases t, 1nat,
{
    t.res == x || match t.children {
        Some(cs) => occurs_in(cs, x),
        None => false,
    }
}

/// `x` occurs in one of the trees `s`.
pub open spec fn occurs_in(s: Seq<TreeModel>, x: ResModel) -> bool
    decreases s, 0nat,
{
    s.len() > 0 && (occurs_in(s.drop_last(), x) || occurs(s.last(), x))
}

/// `occurs_in` holds exactly when one of the trees holds `x`.
pub proof fn lemma_occurs_in(s: Seq<TreeModel>, x: ResModel)
    ensures
        occurs_in(s, x) <==> exists|i: int| 0 <= i < s.len() && #[trigger] occurs(s[i], x),
    decreases s.len(),
{
    if s.len() > 0 {
        let d = s.drop_last();
        lemma_occurs_in(d, x);
        if occurs_in(d, x) {
            let i = choose|i: int| 0 <= i < d.len() && #[trigger] occurs(d[i], x);
            assert(s[i] == d[i]);
        }
        if exists|i: int| 0 <= i < s.len() && #[trigger] occurs(s[i], x) {
            let i = choose|i: int| 0 <= i < s.len() && #[trigger] occurs(s[i], x);
            if i < d.len() {
                assert(s[i] == d[i]);
            } else {
                assert(s[i] == s.last());
            }
        }
        if occurs(s.last(), x) {
            assert(occurs(s[s.len() - 1], x));
        }
    }
}

/// `ch` is a path down the parent links: each record after the first is in
/// `u` and names the one before it as its parent.
pub open spec fn is_chain(ch: Seq<ResModel>, u: Seq<ResModel>) -> bool {
    &&& ch.len() >= 1
    &&& forall|k: int|
        1 <= k < ch.len() ==> u.contains(#[trigger] ch[k]) && ch[k].parent_id == ch[k - 1].id
}

/// `x` is `r` or a descendant of `r` through the records of `u`.
pub open spec fn reachable(r: ResModel, x: ResModel, u: Seq<ResModel>) -> bool {
    exists|ch: Seq<ResModel>| is_chain(ch, u) && ch[0] == r && ch.last() == x
}

/// The positions `ch` of `u` go round a cycle of parent links: each record
/// names the one before it as its parent, and the first names the last.
pub open spec fn is_cycle(u: Seq<ResModel>, ch: Seq<int>) -> bool {
    &&& ch.len() >= 1
    &&& forall|k: int| 0 <= k < ch.len() ==> 0 <= #[trigger] ch[k] < u.len()
    &&& forall|k: int|
        0 <= k < ch.len() - 1 ==> u[#[trigger] ch[k + 1]].parent_id == u[ch[k]].id
    &&& u[ch[0]].parent_id == u[ch[ch.len() - 1]].id
}

proof fn lemma_chain_rest(ch: Seq<ResModel>, u: Seq<ResModel>)
    requires
        is_chain(ch, u),
        ch.len() > 1,
    ensures
        is_chain(ch.drop_first(), u),
        ch.drop_first()[0] == ch[1],
        ch.drop_first().last() == ch.last(),
{
    let rest = ch.drop_first();
    assert forall|k: int| 1 <= k < rest.len() implies u.contains(#[trigger] rest[k])
        && rest[k].parent_id == rest[k - 1].id by {
        assert(rest[k] == ch[k + 1]);
        assert(rest[k - 1] == ch[k]);
    }
}

proof fn lemma_chain_prepend(r: ResModel, ch: Seq<ResModel>, u: Seq<ResModel>)
    requires
        is_chain(ch, u),
        u.contains(ch[0]),
        ch[0].parent_id == r.id,
    ensures
        is_chain(seq![r] + ch, u),
        (seq![r] + ch)[0] == r,
        (seq![r] + ch).last() == ch.last(),
{
    let ch2 = seq![r] + ch;
    assert forall|k: int| 1 <= k < ch2.len() implies u.contains(#[trigger] ch2[k])
        && ch2[k].parent_id == ch2[k - 1].id by {
        assert(ch2[k] == ch[k - 1]);
        if k > 1 {
            assert(ch2[k - 1] == ch[k - 2]);
        }
    }
}

/// The children of a node are the records of the universe under it, in the
/// order of the universe: `kids_of` is the universe filtered by parent.
pub proof fn lemma_kids_are_filter(key: Option<Seq<char>>, u: Seq<ResModel>)
    ensures
        kids_of(key, u) == u.filter(|x: ResModel| x.parent_id == key),
    decreases u.len(),
{
    reveal(Seq::filter);
    if u.len() > 0 {
        lemma_kids_are_filter(key, u.drop_last());
    }
}

/// The children hung under a node are the trees of the records of the
/// universe whose parent is that node, one for each, in the universe's order.
pub proof fn lemma_children_in_order(r: ResModel, u: Seq<ResModel>, fuel: nat)
    requires
        expand(r, u, fuel) is Some,
    ensures
        ({
            let t = expand(r, u, fuel)->Some_0;
            let ks = kids_of(r.id, u);
            &&& t.res == r
            &&& ks == u.filter(|x: ResModel| x.parent_id == r.id)
            &&& ks.len() == 0 ==> t.children is None
            &&& ks.len() > 0 ==> t.children is Some && t.children->Some_0.len() == ks.len()
                && forall|i: int|
                0 <= i < ks.len() ==> (#[trigger] t.children->Some_0[i]).res == ks[i]
                && Some(t.children->Some_0[i]) == expand(ks[i], u, (fuel - 1) as nat)
        }),
{
    lemma_kids_are_filter(r.id, u);
    let ks = kids_of(r.id, u);
    if ks.len() > 0 {
        lemma_expand_list(ks, u, (fuel - 1) as nat);
        let ts = expand_list(ks, u, (fuel - 1) as nat)->Some_0;
        assert forall|i: int| 0 <= i < ks.len() implies (#[trigger] ts[i]).res == ks[i] by {
            assert(Some(ts[i]) == expand(ks[i], u, (fuel - 1) as nat));
        }
    }
}

/// A record with nothing under it gives a node whose children are absent,
/// never an empty sequence; a node that has children holds at least one.
pub proof fn lemma_childless_node(r: ResModel, u: Seq<ResModel>, fuel: nat)
    ensures
        kids_of(r.id, u).len() == 0 ==> expand(r, u, fuel) == Some(
            TreeModel { res: r, children: None },
        ),
        expand(r, u, fuel) is Some && expand(r, u, fuel)->Some_0.children is Some
            ==> expand(r, u, fuel)->Some_0.children->Some_0.len() > 0,
{
    if expand(r, u, fuel) is Some && kids_of(r.id, u).len() > 0 {
        lemma_expand_list(kids_of(r.id, u), u, (fuel - 1) as nat);
    }
}

/// Every record below the top of a built hierarchy is a record of the
/// universe, and its parent is the top or another record of the universe.
pub proof fn lemma_parent_present(r: ResModel, u: Seq<ResModel>, fuel: nat, x: ResModel)
    requires
        expand(r, u, fuel) is Some,
        occurs(expand(r, u, fuel)->Some_0, x),
        x != r,
    ensures
        u.contains(x),
        x.parent_id == r.id || exists|p: int| 0 <= p < u.len() && u[p].id == x.parent_id,
    decreases fuel,
{
    let t = expand(r, u, fuel)->Some_0;
    let ks = kids_of(r.id, u);
    lemma_children_in_order(r, u, fuel);
    assert(t.children is Some);
    let cs = t.children->Some_0;
    lemma_occurs_in(cs, x);
    assert(exists|i: int| 0 <= i < cs.len() && #[trigger] occurs(cs[i], x));
    let i = choose|i: int| 0 <= i < cs.len() && #[trigger] occurs(cs[i], x);
    lemma_kids_members(r.id, u, i);
    if x != ks[i] {
        lemma_parent_present(ks[i], u, (fuel - 1) as nat, x);
        let q = choose|q: int| 0 <= q < u.len() && u[q] == ks[i];
        assert(u[q].id == ks[i].id);
    }
}

/// Below a single node, a record whose parent is neither that node nor any
/// record of the universe appears nowhere.
pub proof fn lemma_orphan_absent_below(r: ResModel, u: Seq<ResModel>, fuel: nat, x: ResModel)
    requires
        expand(r, u, fuel) is Some,
        x != r,
        x.parent_id != r.id,
        forall|p: int| 0 <= p < u.len() ==> u[p].id != x.parent_id,
    ensures
        !occurs(expand(r, u, fuel)->Some_0, x),
{
    if occurs(expand(r, u, fuel)->Some_0, x) {
        lemma_parent_present(r, u, fuel, x);
    }
}

/// A record whose parent is neither in the universe nor among the candidates
/// appears in no tree of the forest: not as a child, and not as a root since
/// it has a parent.
pub proof fn lemma_orphan_excluded(c: Seq<ResModel>, u: Seq<ResModel>, x: ResModel)
    requires
        x.parent_id is Some,
        forall|p: int| 0 <= p < u.len() ==> u[p].id != x.parent_id,
        forall|p: int| 0 <= p < c.len() ==> c[p].id != x.parent_id,
    ensures
        forest(c, u) matches Ok(ts) ==> forall|i: int| 0 <= i < ts.len() ==> !occurs(#[trigger] ts[i], x),
{
    if forest(c, u) is Ok {
        let ts = forest(c, u)->Ok_0;
        let roots = tops(c);
        lemma_expand_list(roots, u, u.len());
        assert forall|i: int| 0 <= i < ts.len() implies !occurs(#[trigger] ts[i], x) by {
            lemma_kids_members(None, c, i);
            assert(Some(ts[i]) == expand(roots[i], u, u.len()));
            if occurs(ts[i], x) {
                if x == roots[i] {
                } else {
                    lemma_parent_present(roots[i], u, u.len(), x);
                    let q = choose|q: int| 0 <= q < c.len() && c[q] == roots[i];
                    assert(c[q].id == roots[i].id);
                }
            }
        }
    }
}

proof fn lemma_occurs_reachable(r: ResModel, u: Seq<ResModel>, fuel: nat, x: ResModel)
    requires
        expand(r, u, fuel) is Some,
        occurs(expand(r, u, fuel)->Some_0, x),
    ensures
        reachable(r, x, u),
    decreases fuel,
{
    let t = expand(r, u, fuel)->Some_0;
    let ks = kids_of(r.id, u);
    lemma_children_in_order(r, u, fuel);
    if x == r {
        let ch = seq![r];
        assert(is_chain(ch, u) && ch[0] == r && ch.last() == x);
    } else {
        assert(t.children is Some);
        let cs = t.children->Some_0;
        lemma_occurs_in(cs, x);
        assert(exists|i: int| 0 <= i < cs.len() && #[trigger] occurs(cs[i], x));
        let i = choose|i: int| 0 <= i < cs.len() && #[trigger] occurs(cs[i], x);
        lemma_kids_members(r.id, u, i);
        lemma_occurs_reachable(ks[i], u, (fuel - 1) as nat, x);
        let ch = choose|ch: Seq<ResModel>| is_chain(ch, u) && ch[0] == ks[i] && ch.last() == x;
        lemma_chain_prepend(r, ch, u);
        let ch2 = seq![r] + ch;
        assert(is_chain(ch2, u) && ch2[0] == r);
        assert(ch2.last() == x);
    }
}

proof fn lemma_reachable_occurs(r: ResModel, u: Seq<ResModel>, fuel: nat, x: ResModel)
    requires
        expand(r, u, fuel) is Some,
        reachable(r, x, u),
    ensures
        occurs(expand(r, u, fuel)->Some_0, x),
    decreases fuel,
{
    let t = expand(r, u, fuel)->Some_0;
    let ks = kids_of(r.id, u);
    lemma_children_in_order(r, u, fuel);
    let ch = choose|ch: Seq<ResModel>| is_chain(ch, u) && ch[0] == r && ch.last() == x;
    if ch.len() > 1 {
        let y = ch[1];
        let p = choose|p: int| 0 <= p < u.len() && u[p] == y;
        lemma_kids_contains(r.id, u, p);
        let i = choose|i: int| 0 <= i < ks.len() && ks[i] == y;
        lemma_chain_rest(ch, u);
        let rest = ch.drop_first();
        assert(is_chain(rest, u) && rest[0] == y && rest.last() == x);
        assert(Some(t.children->Some_0[i]) == expand(ks[i], u, (fuel - 1) as nat));
        lemma_reachable_occurs(y, u, (fuel - 1) as nat, x);
        let cs = t.children->Some_0;
        assert(occurs(cs[i], x));
        lemma_occurs_in(cs, x);
    }
}

/// What a built hierarchy holds is exactly what is reachable from its top.
pub proof fn lemma_occurs_iff_reachable(r: ResModel, u: Seq<ResModel>, fuel: nat, x: ResModel)
    requires
        expand(r, u, fuel) is Some,
    ensures
        occurs(expand(r, u, fuel)->Some_0, x) <==> reachable(r, x, u),
{
    if occurs(expand(r, u, fuel)->Some_0, x) {
        lemma_occurs_reachable(r, u, fuel, x);
    }
    if reachable(r, x, u) {
        lemma_reachable_occurs(r, u, fuel, x);
    }
}

/// A forest that is built holds, across its trees, exactly the records
/// reachable from a candidate without a parent.
pub proof fn lemma_forest_reachable(c: Seq<ResModel>, u: Seq<ResModel>, x: ResModel)
    requires
        forest(c, u) is Ok,
    ensures
        ({
            let ts = forest(c, u)->Ok_0;
            (exists|i: int| 0 <= i < ts.len() && #[trigger] occurs(ts[i], x)) <==> exists|j: int|
                0 <= j < tops(c).len() && #[trigger] reachable(tops(c)[j], x, u)
        }),
{
    let ts = forest(c, u)->Ok_0;
    let roots = tops(c);
    lemma_expand_list(roots, u, u.len());
    if exists|i: int| 0 <= i < ts.len() && #[trigger] occurs(ts[i], x) {
        let i = choose|i: int| 0 <= i < ts.len() && #[trigger] occurs(ts[i], x);
        assert(Some(ts[i]) == expand(roots[i], u, u.len()));
        lemma_occurs_iff_reachable(roots[i], u, u.len(), x);
        assert(reachable(roots[i], x, u));
    }
    if exists|j: int| 0 <= j < roots.len() && #[trigger] reachable(roots[j], x, u) {
        let j = choose|j: int| 0 <= j < roots.len() && #[trigger] reachable(roots[j], x, u);
        assert(Some(ts[j]) == expand(roots[j], u, u.len()));
        lemma_occurs_iff_reachable(roots[j], u, u.len(), x);
        assert(occurs(ts[j], x));
    }
}

proof fn lemma_cycle_never_expands(u: Seq<ResModel>, ch: Seq<int>, k: int, fuel: nat)
    requires
        is_cycle(u, ch),
        0 <= k < ch.len(),
    ensures
        expand(u[ch[k]], u, fuel) is None,
    decreases fuel,
{
    let next = if k == ch.len() - 1 { 0 } else { k + 1 };
    let r = u[ch[k]];
    assert(u[ch[next]].parent_id == r.id);
    lemma_kids_contains(r.id, u, ch[next]);
    let ks = kids_of(r.id, u);
    if fuel > 0 {
        let i = choose|i: int| 0 <= i < ks.len() && ks[i] == u[ch[next]];
        lemma_cycle_never_expands(u, ch, next, (fuel - 1) as nat);
        lemma_expand_list(ks, u, (fuel - 1) as nat);
        assert(expand(ks[i], u, (fuel - 1) as nat) is None);
    }
}

/// A universe with a cycle of parent links is refused with `CycleDetected`,
/// whatever the candidates.
pub proof fn lemma_cycle_refused(c: Seq<ResModel>, u: Seq<ResModel>, ch: Seq<int>)
    requires
        is_cycle(u, ch),
    ensures
        forest(c, u) == Err::<Seq<TreeModel>, ResError>(ResError::CycleDetected),
{
    lemma_cycle_never_expands(u, ch, 0, (u.len() - 1) as nat);
    assert(!acyclic(u));
}

/// The positions `ps` of `u` go down the parent links: each record names the
/// one before it as its parent.
pub open spec fn is_descent(u: Seq<ResModel>, ps: Seq<int>) -> bool {
    &&& forall|k: int| 0 <= k < ps.len() ==> 0 <= #[trigger] ps[k] < u.len()
    &&& forall|k: int| 1 <= k < ps.len() ==> u[#[trigger] ps[k]].parent_id == u[ps[k - 1]].id
}

proof fn lemma_failure_descends(u: Seq<ResModel>, p: int, fuel: nat)
    requires
        0 <= p < u.len(),
        expand(u[p], u, fuel) is None,
    ensures
        exists|ps: Seq<int>| is_descent(u, ps) && ps.len() == fuel + 2 && ps[0] == p,
    decreases fuel,
{
    let r = u[p];
    let ks = kids_of(r.id, u);
    if fuel == 0 {
        lemma_kids_members(r.id, u, 0);
        let q = choose|q: int| 0 <= q < u.len() && u[q] == ks[0];
        let ps = seq![p, q];
        assert(is_descent(u, ps));
    } else {
        lemma_expand_list(ks, u, (fuel - 1) as nat);
        let i = choose|i: int| 0 <= i < ks.len() && (#[trigger] expand(ks[i], u, (fuel - 1) as nat)) is None;
        lemma_kids_members(r.id, u, i);
        let q = choose|q: int| 0 <= q < u.len() && u[q] == ks[i];
        lemma_failure_descends(u, q, (fuel - 1) as nat);
        let rest = choose|ps: Seq<int>| is_descent(u, ps) && ps.len() == fuel + 1 && ps[0] == q;
        let ps = seq![p] + rest;
        assert forall|k: int| 1 <= k < ps.len() implies u[#[trigger] ps[k]].parent_id == u[ps[k - 1]].id by {
            assert(ps[k] == rest[k - 1]);
            if k > 1 {
                assert(ps[k - 1] == rest[k - 2]);
            }
        }
        assert forall|k: int| 0 <= k < ps.len() implies 0 <= #[trigger] ps[k] < u.len() by {
            if k > 0 {
                assert(ps[k] == rest[k - 1]);
            }
        }
        assert(is_descent(u, ps));
    }
}

proof fn lemma_repeat_in_long_descent(u: Seq<ResModel>, ps: Seq<int>)
    requires
        is_descent(u, ps),
        ps.len() > u.len(),
    ensures
        exists|a: int, b: int| 0 <= a < b < ps.len() && ps[a] == ps[b],
{
    if !exists|a: int, b: int| 0 <= a < b < ps.len() && ps[a] == ps[b] {
        assert(ps.no_duplicates()) by {
            assert forall|i: int, j: int| 0 <= i < ps.len() && 0 <= j < ps.len() && i != j implies ps[i]
                != ps[j] by {
                if i < j {
                    assert(!(ps[i] == ps[j]));
                } else {
                    assert(!(ps[j] == ps[i]));
                }
            }
        }
        ps.unique_seq_to_set();
        let range = vstd::set_lib::set_int_range(0, u.len() as int);
        vstd::set_lib::lemma_int_range(0, u.len() as int);
        assert(ps.to_set().subset_of(range)) by {
            assert forall|x: int| ps.to_set().contains(x) implies range.contains(x) by {
                let k = choose|k: int| 0 <= k < ps.len() && ps[k] == x;
            }
        }
        vstd::set_lib::lemma_len_subset(ps.to_set(), range);
    }
}

/// A universe whose forest is refused holds a cycle of parent links: the
/// refusal is never spurious.
pub proof fn lemma_refusal_has_cycle(c: Seq<ResModel>, u: Seq<ResModel>)
    requires
        forest(c, u) is Err,
    ensures
        exists|ch: Seq<int>| is_cycle(u, ch),
{
    crate::layer::lemma_forest_ok(c, u);
    let n = u.len();
    let i = choose|i: int| 0 <= i < n && (#[trigger] expand(u[i], u, (n - 1) as nat)) is None;
    lemma_failure_descends(u, i, (n - 1) as nat);
    let ps = choose|ps: Seq<int>| is_descent(u, ps) && ps.len() == (n - 1) + 2 && ps[0] == i;
    lemma_repeat_in_long_descent(u, ps);
    let (a, b) = choose|a: int, b: int| 0 <= a < b < ps.len() && ps[a] == ps[b];
    let ch = ps.subrange(a, b);
    assert forall|k: int| 0 <= k < ch.len() - 1 implies u[#[trigger] ch[k + 1]].parent_id == u[ch[k]].id by {
        assert(ch[k + 1] == ps[a + k + 1]);
        assert(ch[k] == ps[a + k]);
    }
    assert(ch[0] == ps[b]);
    assert(ch[ch.len() - 1] == ps[b - 1]);
    assert(is_cycle(u, ch));
}

/// The forest is refused with `CycleDetected` exactly when the universe
/// holds a cycle of parent links, whatever the candidates.
pub proof fn lemma_refused_iff_cycle(c: Seq<ResModel>, u: Seq<ResModel>)
    ensures
        forest(c, u) is Err <==> exists|ch: Seq<int>| is_cycle(u, ch),
        forest(c, u) is Err ==> forest(c, u) == Err::<Seq<TreeModel>, ResError>(
            ResError::CycleDetected,
        ),
{
    if forest(c, u) is Err {
        lemma_refusal_has_cycle(c, u);
    }
    if exists|ch: Seq<int>| is_cycle(u, ch) {
        let ch = choose|ch: Seq<int>| is_cycle(u, ch);
        lemma_cycle_refused(c, u, ch);
    }
}

/// Hanging descendants under any single node is refused only where the
/// universe holds a cycle of parent links.
pub proof fn lemma_node_refusal_has_cycle(r: ResModel, u: Seq<ResModel>)
    requires
        expand(r, u, u.len()) is None,
    ensures
        exists|ch: Seq<int>| is_cycle(u, ch),
{
    if acyclic(u) {
        crate::layer::lemma_acyclic_expands(r, u);
    }
    lemma_refusal_has_cycle(Seq::empty(), u);
}

/// How many times `x` stands in `t`, at its top or below.
pub open spec fn count(t: TreeModel, x: ResModel) -> nat
    decreases t, 1nat,
{
    (if t.res == x {
        1nat
    } else {
        0nat
    }) + match t.children {
        Some(cs) => count_in(cs, x),
        None => 0nat,
    }
}

/// How many times `x` stands in the trees `s` together.
pub open spec fn count_in(s: Seq<TreeModel>, x: ResModel) -> nat
    decreases s, 0nat,
{
    if s.len() == 0 {
        0nat
    } else {
        count_in(s.drop_last(), x) + count(s.last(), x)
    }
}

/// No two records of `u` share an id.
pub open spec fn unique_ids(u: Seq<ResModel>) -> bool {
    forall|p: int, q: int| 0 <= p < u.len() && 0 <= q < u.len() && p != q ==> u[p].id != u[q].id
}

proof fn lemma_count_in_sum(s: Seq<TreeModel>, x: ResModel)
    requires
        forall|i: int| 0 <= i < s.len() ==> #[trigger] count(s[i], x) == if occurs(s[i], x) {
            1nat
        } else {
            0nat
        },
        forall|i: int, j: int| 0 <= i < j < s.len() ==> !(#[trigger] occurs(s[i], x) && #[trigger] occurs(s[j], x)),
    ensures
        count_in(s, x) == if occurs_in(s, x) {
            1nat
        } else {
            0nat
        },
    decreases s.len(),
{
    if s.len() > 0 {
        let d = s.drop_last();
        assert forall|i: int| 0 <= i < d.len() implies #[trigger] count(d[i], x) == if occurs(d[i], x) {
            1nat
        } else {
            0nat
        } by {
            assert(d[i] == s[i]);
        }
        assert forall|i: int, j: int| 0 <= i < j < d.len() implies !(#[trigger] occurs(d[i], x)
            && #[trigger] occurs(d[j], x)) by {
            assert(d[i] == s[i]);
            assert(d[j] == s[j]);
        }
        lemma_count_in_sum(d, x);
        lemma_occurs_in(d, x);
        let l = s.len() - 1;
        assert(s.last() == s[l]);
        assert(count(s[l], x) == if occurs(s[l], x) { 1nat } else { 0nat });
        if occurs_in(d, x) && occurs(s[l], x) {
            let i = choose|i: int| 0 <= i < d.len() && #[trigger] occurs(d[i], x);
            assert(d[i] == s[i]);
        }
    }
}

/// Without repeated values, the children under a key repeat none either.
proof fn lemma_kids_distinct(key: Option<Seq<char>>, u: Seq<ResModel>)
    requires
        u.no_duplicates(),
    ensures
        kids_of(key, u).no_duplicates(),
    decreases u.len(),
{
    if u.len() > 0 {
        let d = u.drop_last();
        assert(d.no_duplicates()) by {
            assert forall|i: int, j: int| 0 <= i < d.len() && 0 <= j < d.len() && i != j implies d[i] != d[j] by {
                assert(d[i] == u[i] && d[j] == u[j]);
            }
        }
        lemma_kids_distinct(key, d);
        let k = kids_of(key, d);
        if u.last().parent_id == key {
            assert forall|i: int| 0 <= i < k.len() implies k[i] != u.last() by {
                lemma_kids_members(key, d, i);
                let p = choose|p: int| 0 <= p < d.len() && d[p] == k[i];
                assert(u[p] == d[p]);
                assert(u[u.len() - 1] == u.last());
            }
            let k2 = k.push(u.last());
            assert forall|i: int, j: int| 0 <= i < k2.len() && 0 <= j < k2.len() && i != j implies k2[i] != k2[j] by {
                if i < k.len() && j < k.len() {
                } else if i < k.len() {
                    assert(k2[j] == u.last());
                } else {
                    assert(k2[i] == u.last());
                }
            }
        }
    }
}

/// A path down the parent links whose first record names the last as its
/// parent, every record in `u`, goes round a cycle: its first record never
/// expands.
proof fn lemma_chain_loop(u: Seq<ResModel>, ch: Seq<ResModel>, fuel: nat)
    requires
        is_chain(ch, u),
        u.contains(ch[0]),
        ch[0].parent_id == ch.last().id,
    ensures
        expand(ch[0], u, fuel) is None,
{
    let ps = Seq::new(ch.len(), |k: int| choose|p: int| 0 <= p < u.len() && u[p] == ch[k]);
    assert forall|k: int| 0 <= k < ps.len() implies 0 <= #[trigger] ps[k] < u.len() && u[ps[k]] == ch[k] by {
        assert(u.contains(ch[k]));
    }
    assert forall|k: int| 0 <= k < ps.len() - 1 implies u[#[trigger] ps[k + 1]].parent_id == u[ps[k]].id by {
        assert(u[ps[k + 1]] == ch[k + 1]);
        assert(u[ps[k]] == ch[k]);
    }
    assert(u[ps[ps.len() - 1]] == ch.last());
    assert(is_cycle(u, ps));
    lemma_cycle_never_expands(u, ps, 0, fuel);
}

/// Two paths down the parent links that end at one record, with unique ids:
/// the start of one lies on the other.
proof fn lemma_converge(u: Seq<ResModel>, ch1: Seq<ResModel>, ch2: Seq<ResModel>)
    requires
        unique_ids(u),
        is_chain(ch1, u),
        is_chain(ch2, u),
        u.contains(ch1[0]),
        u.contains(ch2[0]),
        ch1.last() == ch2.last(),
    ensures
        (exists|k: int| 0 <= k < ch2.len() && ch2[k] == ch1[0]) || (exists|k: int|
            0 <= k < ch1.len() && ch1[k] == ch2[0]),
    decreases ch1.len() + ch2.len(),
{
    if ch1.len() == 1 {
        assert(ch2[ch2.len() - 1] == ch1[0]);
    } else if ch2.len() == 1 {
        assert(ch1[ch1.len() - 1] == ch2[0]);
    } else {
        let a = ch1.len() - 2;
        let b = ch2.len() - 2;
        assert(ch1[a + 1] == ch1.last());
        assert(ch2[b + 1] == ch2.last());
        assert(u.contains(ch1[a])) by {
            if a >= 1 {
                assert(u.contains(ch1[a]));
            }
        }
        assert(u.contains(ch2[b])) by {
            if b >= 1 {
                assert(u.contains(ch2[b]));
            }
        }
        let p1 = choose|p: int| 0 <= p < u.len() && u[p] == ch1[a];
        let p2 = choose|p: int| 0 <= p < u.len() && u[p] == ch2[b];
        assert(u[p1].id == u[p2].id);
        assert(ch1[a] == ch2[b]);
        let d1 = ch1.drop_last();
        let d2 = ch2.drop_last();
        assert forall|k: int| 1 <= k < d1.len() implies u.contains(#[trigger] d1[k]) && d1[k].parent_id
            == d1[k - 1].id by {
            assert(d1[k] == ch1[k] && d1[k - 1] == ch1[k - 1]);
        }
        assert forall|k: int| 1 <= k < d2.len() implies u.contains(#[trigger] d2[k]) && d2[k].parent_id
            == d2[k - 1].id by {
            assert(d2[k] == ch2[k] && d2[k - 1] == ch2[k - 1]);
        }
        assert(d1.last() == ch1[a] && d2.last() == ch2[b]);
        lemma_converge(u, d1, d2);
        if exists|k: int| 0 <= k < d2.len() && d2[k] == d1[0] {
            let k = choose|k: int| 0 <= k < d2.len() && d2[k] == d1[0];
            assert(ch2[k] == ch1[0]);
        } else {
            let k = choose|k: int| 0 <= k < d1.len() && d1[k] == d2[0];
            assert(ch1[k] == ch2[0]);
        }
    }
}

/// With unique ids in the universe, a built hierarchy holds each record
/// reachable from its top exactly once, and no other record.
pub proof fn lemma_count_once(r: ResModel, u: Seq<ResModel>, fuel: nat, x: ResModel)
    requires
        expand(r, u, fuel) is Some,
        unique_ids(u),
    ensures
        count(expand(r, u, fuel)->Some_0, x) == if reachable(r, x, u) {
            1nat
        } else {
            0nat
        },
    decreases fuel,
{
    let t = expand(r, u, fuel)->Some_0;
    let ks = kids_of(r.id, u);
    lemma_occurs_iff_reachable(r, u, fuel, x);
    lemma_children_in_order(r, u, fuel);
    if ks.len() > 0 {
        let ts = t.children->Some_0;
        let g = (fuel - 1) as nat;
        assert forall|i: int| 0 <= i < ts.len() implies #[trigger] count(ts[i], x) == if occurs(ts[i], x) {
            1nat
        } else {
            0nat
        } by {
            assert(Some(ts[i]) == expand(ks[i], u, g));
            lemma_count_once(ks[i], u, g, x);
            lemma_occurs_iff_reachable(ks[i], u, g, x);
        }
        assert(u.no_duplicates()) by {
            assert forall|i: int, j: int| 0 <= i < u.len() && 0 <= j < u.len() && i != j implies u[i] != u[j] by {
                assert(u[i].id != u[j].id);
            }
        }
        lemma_kids_distinct(r.id, u);
        assert forall|i: int, j: int| 0 <= i < j < ts.len() implies !(#[trigger] occurs(ts[i], x)
            && #[trigger] occurs(ts[j], x)) by {
            if occurs(ts[i], x) && occurs(ts[j], x) {
                assert(Some(ts[i]) == expand(ks[i], u, g));
                assert(Some(ts[j]) == expand(ks[j], u, g));
                lemma_occurs_reachable(ks[i], u, g, x);
                lemma_occurs_reachable(ks[j], u, g, x);
                lemma_kids_members(r.id, u, i);
                lemma_kids_members(r.id, u, j);
                let ch1 = choose|ch: Seq<ResModel>| is_chain(ch, u) && ch[0] == ks[i] && ch.last() == x;
                let ch2 = choose|ch: Seq<ResModel>| is_chain(ch, u) && ch[0] == ks[j] && ch.last() == x;
                lemma_converge(u, ch1, ch2);
                if exists|k: int| 0 <= k < ch2.len() && ch2[k] == ch1[0] {
                    let k = choose|k: int| 0 <= k < ch2.len() && ch2[k] == ch1[0];
                    let pre = ch2.subrange(0, k);
                    assert forall|m: int| 1 <= m < pre.len() implies u.contains(#[trigger] pre[m])
                        && pre[m].parent_id == pre[m - 1].id by {
                        assert(pre[m] == ch2[m] && pre[m - 1] == ch2[m - 1]);
                    }
                    assert(pre.last() == ch2[k - 1]);
                    lemma_chain_loop(u, pre, g);
                } else {
                    let k = choose|k: int| 0 <= k < ch1.len() && ch1[k] == ch2[0];
                    let pre = ch1.subrange(0, k);
                    assert forall|m: int| 1 <= m < pre.len() implies u.contains(#[trigger] pre[m])
                        && pre[m].parent_id == pre[m - 1].id by {
                        assert(pre[m] == ch1[m] && pre[m - 1] == ch1[m - 1]);
                    }
                    assert(pre.last() == ch1[k - 1]);
                    lemma_chain_loop(u, pre, g);
                }
            }
        }
        lemma_count_in_sum(ts, x);
        lemma_occurs_in(ts, x);
        if r == x && occurs_in(ts, x) {
            let j = choose|j: int| 0 <= j < ts.len() && #[trigger] occurs(ts[j], x);
            assert(Some(ts[j]) == expand(ks[j], u, g));
            lemma_occurs_reachable(ks[j], u, g, x);
            lemma_kids_members(r.id, u, j);
            let ch = choose|ch: Seq<ResModel>| is_chain(ch, u) && ch[0] == ks[j] && ch.last() == x;
            lemma_chain_loop(u, ch, g);
        }
    }
}

/// Where the universe has unique ids and holds the roots, which have unique
/// ids too, a built forest holds each record reachable from a root exactly
/// once across all its trees, and no other record.
pub proof fn lemma_forest_once(c: Seq<ResModel>, u: Seq<ResModel>, x: ResModel)
    requires
        forest(c, u) is Ok,
        unique_ids(u),
        unique_ids(tops(c)),
        forall|j: int| 0 <= j < tops(c).len() ==> u.contains(#[trigger] tops(c)[j]),
    ensures
        count_in(forest(c, u)->Ok_0, x) == if exists|j: int|
            0 <= j < tops(c).len() && #[trigger] reachable(tops(c)[j], x, u) {
            1nat
        } else {
            0nat
        },
{
    let ts = forest(c, u)->Ok_0;
    let roots = tops(c);
    let n = u.len();
    lemma_expand_list(roots, u, n);
    assert forall|i: int| 0 <= i < ts.len() implies #[trigger] count(ts[i], x) == if occurs(ts[i], x) {
        1nat
    } else {
        0nat
    } by {
        assert(Some(ts[i]) == expand(roots[i], u, n));
        lemma_count_once(roots[i], u, n, x);
        lemma_occurs_iff_reachable(roots[i], u, n, x);
    }
    assert forall|i: int, j: int| 0 <= i < j < ts.len() implies !(#[trigger] occurs(ts[i], x)
        && #[trigger] occurs(ts[j], x)) by {
        if occurs(ts[i], x) && occurs(ts[j], x) {
            assert(Some(ts[i]) == expand(roots[i], u, n));
            assert(Some(ts[j]) == expand(roots[j], u, n));
            lemma_occurs_reachable(roots[i], u, n, x);
            lemma_occurs_reachable(roots[j], u, n, x);
            lemma_kids_members(None, c, i);
            lemma_kids_members(None, c, j);
            assert(roots[i].id != roots[j].id);
            let ch1 = choose|ch: Seq<ResModel>| is_chain(ch, u) && ch[0] == roots[i] && ch.last() == x;
            let ch2 = choose|ch: Seq<ResModel>| is_chain(ch, u) && ch[0] == roots[j] && ch.last() == x;
            lemma_converge(u, ch1, ch2);
            if exists|k: int| 0 <= k < ch2.len() && ch2[k] == ch1[0] {
                let k = choose|k: int| 0 <= k < ch2.len() && ch2[k] == ch1[0];
                let pre = ch2.subrange(0, k);
                assert forall|m: int| 1 <= m < pre.len() implies u.contains(#[trigger] pre[m])
                    && pre[m].parent_id == pre[m - 1].id by {
                    assert(pre[m] == ch2[m] && pre[m - 1] == ch2[m - 1]);
                }
                assert(pre.last() == ch2[k - 1]);
                lemma_chain_loop(u, pre, n);
            } else {
                let k = choose|k: int| 0 <= k < ch1.len() && ch1[k] == ch2[0];
                let pre = ch1.subrange(0, k);
                assert forall|m: int| 1 <= m < pre.len() implies u.contains(#[trigger] pre[m])
                    && pre[m].parent_id == pre[m - 1].id by {
                    assert(pre[m] == ch1[m] && pre[m - 1] == ch1[m - 1]);
                }
                assert(pre.last() == ch1[k - 1]);
                lemma_chain_loop(u, pre, n);
            }
        }
    }
    lemma_count_in_sum(ts, x);
    lemma_occurs_in(ts, x);
    lemma_forest_reachable(c, u, x);
}

/// Two builds from the same inputs give the same outcome, node for node.
pub proof fn lemma_build_forest_repeatable(
    res: Seq<SysRes>,
    all_res: Seq<SysRes>,
    r1: Result<Vec<SysResVO>, ResError>,
    r2: Result<Vec<SysResVO>, ResError>,
)
    requires
        outcome(r1) == forest(models(res), models(all_res)),
        outcome(r2) == forest(models(res), models(all_res)),
    ensures
        outcome(r1) == outcome(r2),
{
}

} // verus!
