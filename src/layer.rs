use vstd::prelude::*;

use crate::error::ResError;
use crate::model::{models, node_res, trees_of, ResModel, SysRes, SysResVO, TreeModel};

verus! {

/// The records of `u` whose parent is `key`, in the order of `u`.
pub open spec fn kids_of(key: Option<Seq<char>>, u: Seq<ResModel>) -> Seq<ResModel>
    decreases u.len(),
{
    if u.len() == 0 {
        Seq::empty()
    } else {
        let before = kids_of(key, u.drop_last());
        if u.last().parent_id == key {
            before.push(u.last())
        } else {
            before
        }
    }
}

/// The hierarchy under `r`, children taken from `u`, at most `fuel` levels
/// deep below `r`; `None` when some branch goes deeper than that.
pub open spec fn expand(r: ResModel, u: Seq<ResModel>, fuel: nat) -> Option<TreeModel>
    decreases fuel, 0nat, 0nat,
{
    let ks = kids_of(r.id, u);
    if ks.len() == 0 {
        Some(TreeModel { res: r, children: None })
    } else if fuel == 0 {
        None
    } else {
        match expand_list(ks, u, (fuel - 1) as nat) {
            Some(ts) => Some(TreeModel { res: r, children: Some(ts) }),
            None => None,
        }
    }
}

/// The hierarchies under each of `rs`, in order; `None` when one of them fails.
pub open spec fn expand_list(rs: Seq<ResModel>, u: Seq<ResModel>, fuel: nat) -> Option<
    Seq<TreeModel>,
>
    decreases fuel, 1nat, rs.len(),
{
    if rs.len() == 0 {
        Some(Seq::empty())
    } else {
        match (expand_list(rs.drop_last(), u, fuel), expand(rs.last(), u, fuel)) {
            (Some(ts), Some(t)) => Some(ts.push(t)),
            _ => None,
        }
    }
}

/// One more record at the end of the universe adds it to the children of
/// its parent and to no others.
pub proof fn lemma_kids_push(key: Option<Seq<char>>, s: Seq<ResModel>, x: ResModel)
    ensures
        kids_of(key, s.push(x)) == (if x.parent_id == key {
            kids_of(key, s).push(x)
        } else {
            kids_of(key, s)
        }),
{
    assert(s.push(x).drop_last() =~= s);
}

/// Every record of `u` under `key` is among `kids_of(key, u)`.
pub proof fn lemma_kids_contains(key: Option<Seq<char>>, u: Seq<ResModel>, j: int)
    requires
        0 <= j < u.len(),
        u[j].parent_id == key,
    ensures
        kids_of(key, u).contains(u[j]),
    decreases u.len(),
{
    let k = kids_of(key, u);
    if j == u.len() - 1 {
        assert(k.last() == u[j]);
    } else {
        lemma_kids_contains(key, u.drop_last(), j);
        let prev = kids_of(key, u.drop_last());
        let i = choose|i: int| 0 <= i < prev.len() && prev[i] == u[j];
        assert(k[i] == u[j]);
    }
}

/// Every element of `kids_of(key, u)` is a record of `u` under `key`.
pub proof fn lemma_kids_members(key: Option<Seq<char>>, u: Seq<ResModel>, i: int)
    requires
        0 <= i < kids_of(key, u).len(),
    ensures
        u.contains(kids_of(key, u)[i]),
        kids_of(key, u)[i].parent_id == key,
    decreases u.len(),
{
    let prev = kids_of(key, u.drop_last());
    if i < prev.len() {
        lemma_kids_members(key, u.drop_last(), i);
        let p = choose|p: int| 0 <= p < u.drop_last().len() && u.drop_last()[p] == prev[i];
        assert(u[p] == prev[i]);
    } else {
        assert(u[u.len() - 1] == u.last());
    }
}

/// A list expands exactly when each of its elements does, element by element.
pub proof fn lemma_expand_list(rs: Seq<ResModel>, u: Seq<ResModel>, fuel: nat)
    ensures
        expand_list(rs, u, fuel) is Some <==> forall|i: int|
            0 <= i < rs.len() ==> (#[trigger] expand(rs[i], u, fuel)) is Some,
        expand_list(rs, u, fuel) is Some ==> {
            let ts = expand_list(rs, u, fuel)->Some_0;
            &&& ts.len() == rs.len()
            &&& forall|i: int| 0 <= i < rs.len() ==> Some(#[trigger] ts[i]) == expand(rs[i], u, fuel)
        },
    decreases rs.len(),
{
    if rs.len() > 0 {
        let d = rs.drop_last();
        lemma_expand_list(d, u, fuel);
        assert forall|i: int| 0 <= i < d.len() implies rs[i] == d[i] by {}
        if expand_list(rs, u, fuel) is None {
            if expand_list(d, u, fuel) is None {
                let i = choose|i: int| 0 <= i < d.len() && (#[trigger] expand(d[i], u, fuel)) is None;
                assert(expand(rs[i], u, fuel) is None);
            } else {
                assert(expand(rs[rs.len() - 1], u, fuel) is None);
            }
        }
    }
}

/// Expanding a list with one more element at its end.
pub proof fn lemma_expand_list_push(rs: Seq<ResModel>, x: ResModel, u: Seq<ResModel>, fuel: nat)
    ensures
        expand_list(rs.push(x), u, fuel) == (match (expand_list(rs, u, fuel), expand(x, u, fuel)) {
            (Some(ts), Some(t)) => Some(ts.push(t)),
            _ => None,
        }),
{
    assert(rs.push(x).drop_last() =~= rs);
}

/// The forest roots among the candidates: those without a parent, in order.
pub open spec fn tops(c: Seq<ResModel>) -> Seq<ResModel> {
    kids_of(None, c)
}

/// No record of `u` has descendants in `u` deeper than `u` has other records.
/// This holds exactly when no parent links in `u` go round a cycle
/// (`lemma_refused_iff_cycle`).
pub open spec fn acyclic(u: Seq<ResModel>) -> bool {
    forall|i: int| 0 <= i < u.len() ==> (#[trigger] expand(u[i], u, (u.len() - 1) as nat)) is Some
}

/// The forest built from candidates `c` over the universe `u`.
pub open spec fn forest(c: Seq<ResModel>, u: Seq<ResModel>) -> Result<Seq<TreeModel>, ResError> {
    if !acyclic(u) {
        Err(ResError::CycleDetected)
    } else {
        match expand_list(tops(c), u, u.len()) {
            Some(ts) => Ok(ts),
            None => Err(ResError::CycleDetected),
        }
    }
}

/// The value of a forest outcome.
pub open spec fn outcome(r: Result<Vec<SysResVO>, ResError>) -> Result<Seq<TreeModel>, ResError> {
    match r {
        Ok(v) => Ok(trees_of(v@)),
        Err(e) => Err(e),
    }
}

/// Over a universe without cycles, every record expands within a budget of
/// as many levels as the universe has records.
pub proof fn lemma_acyclic_expands(r: ResModel, u: Seq<ResModel>)
    requires
        acyclic(u),
    ensures
        expand(r, u, u.len()) is Some,
{
    let ks = kids_of(r.id, u);
    if ks.len() > 0 {
        assert forall|i: int| 0 <= i < ks.len() implies (#[trigger] expand(
            ks[i],
            u,
            (u.len() - 1) as nat,
        )) is Some by {
            lemma_kids_members(r.id, u, i);
            let p = choose|p: int| 0 <= p < u.len() && u[p] == ks[i];
            assert(expand(u[p], u, (u.len() - 1) as nat) is Some);
        }
        lemma_expand_list(ks, u, (u.len() - 1) as nat);
    }
}

/// Building the forest is total over a universe without cycles.
pub proof fn lemma_forest_ok(c: Seq<ResModel>, u: Seq<ResModel>)
    ensures
        forest(c, u) is Ok <==> acyclic(u),
{
    if acyclic(u) {
        let ts = tops(c);
        assert forall|i: int| 0 <= i < ts.len() implies (#[trigger] expand(ts[i], u, u.len())) is Some by {
            lemma_acyclic_expands(ts[i], u);
        }
        lemma_expand_list(ts, u, u.len());
    }
}

/// Whether two optional strings hold the same value.
fn same_key(a: &Option<String>, b: &Option<String>) -> (r: bool)
    ensures
        r == (crate::model::opt_str(*a) == crate::model::opt_str(*b)),
{
    match (a, b) {
        (Some(x), Some(y)) => x.eq(y),
        (None, None) => true,
        _ => false,
    }
}

/// The service that assembles resource hierarchies.
pub struct SysResService {}

impl SysResService {
    /// Hangs under `arg` the hierarchy of its descendants found in `all_res`,
    /// children in the order of `all_res`. Fails with `CycleDetected` when
    /// some branch goes deeper than `all_res` has records, which only a
    /// cycle of parent links allows.
    pub fn loop_find_childs(&self, arg: &mut SysResVO, all_res: &Vec<SysRes>) -> (r: Result<
        (),
        ResError,
    >)
        ensures
            match expand(node_res(*old(arg)), models(all_res@), all_res.len() as nat) {
                Some(t) => r == Ok::<(), ResError>(()) && final(arg)@ == t,
                None => r == Err::<(), ResError>(ResError::CycleDetected),
            },
            r is Err ==> *final(arg) == *old(arg),
    {
        self.attach(arg, all_res, all_res.len())
    }

    /// Checks that no record of `all_res` leads, by parent links, back round
    /// to itself.
    pub fn check_acyclic(&self, all_res: &Vec<SysRes>) -> (r: Result<(), ResError>)
        ensures
            r is Ok <==> acyclic(models(all_res@)),
            r is Err ==> r == Err::<(), ResError>(ResError::CycleDetected),
    {
        let ghost u = models(all_res@);
        let n = all_res.len();
        let mut i: usize = 0;
        while i < n
            invariant
                n == all_res.len(),
                u == models(all_res@),
                i <= n,
                forall|j: int| 0 <= j < i ==> (#[trigger] expand(u[j], u, (n - 1) as nat)) is Some,
            decreases n - i,
        {
            let mut v = SysResVO::from_res(&all_res[i]);
            proof {
                assert(u[i as int] == all_res@[i as int]@);
            }
            let sub = self.attach(&mut v, all_res, n - 1);
            if sub.is_err() {
                return Err(ResError::CycleDetected);
            }
            i += 1;
        }
        Ok(())
    }

    /// The forest of the candidates `res` that have no parent, in their
    /// order, each with its descendants taken from `all_res`. Fails with
    /// `CycleDetected` when parent links in `all_res` form a cycle.
    pub fn build_forest(&self, res: &Vec<SysRes>, all_res: &Vec<SysRes>) -> (r: Result<
        Vec<SysResVO>,
        ResError,
    >)
        ensures
            outcome(r) == forest(models(res@), models(all_res@)),
    {
        let ghost c = models(res@);
        let ghost u = models(all_res@);
        let checked = self.check_acyclic(all_res);
        if checked.is_err() {
            return Err(ResError::CycleDetected);
        }
        let mut out: Vec<SysResVO> = Vec::new();
        let mut i: usize = 0;
        while i < res.len()
            invariant
                i <= res.len(),
                c == models(res@),
                u == models(all_res@),
                acyclic(u),
                expand_list(kids_of(None, c.take(i as int)), u, u.len()) == Some(trees_of(out@)),
            decreases res.len() - i,
        {
            let x = &res[i];
            proof {
                assert(c.take(i + 1) =~= c.take(i as int).push(c[i as int]));
                assert(c[i as int] == x@);
                lemma_kids_push(None, c.take(i as int), x@);
                lemma_expand_list_push(kids_of(None, c.take(i as int)), x@, u, u.len());
                lemma_acyclic_expands(x@, u);
            }
            if x.parent_id.is_none() {
                let mut v = SysResVO::from_res(x);
                let sub = self.loop_find_childs(&mut v, all_res);
                if sub.is_err() {
                    return Err(ResError::CycleDetected);
                }
                let ghost before = out@;
                out.push(v);
                proof {
                    assert(out@.drop_last() =~= before);
                }
            }
            i += 1;
        }
        proof {
            assert(c.take(i as int) =~= c);
        }
        Ok(out)
    }

    fn attach(&self, arg: &mut SysResVO, all_res: &Vec<SysRes>, fuel: usize) -> (r: Result<
        (),
        ResError,
    >)
        ensures
            match expand(node_res(*old(arg)), models(all_res@), fuel as nat) {
                Some(t) => r == Ok::<(), ResError>(()) && final(arg)@ == t,
                None => r == Err::<(), ResError>(ResError::CycleDetected),
            },
            r is Err ==> *final(arg) == *old(arg),
        decreases fuel,
    {
        let ghost u = models(all_res@);
        let ghost key = node_res(*arg).id;
        let mut childs: Vec<SysResVO> = Vec::new();
        let mut i: usize = 0;
        while i < all_res.len()
            invariant
                i <= all_res.len(),
                u == models(all_res@),
                *arg == *old(arg),
                key == node_res(*arg).id,
                childs@.len() == kids_of(key, u.take(i as int)).len(),
                fuel == 0 ==> kids_of(key, u.take(i as int)).len() == 0,
                fuel > 0 ==> expand_list(kids_of(key, u.take(i as int)), u, (fuel - 1) as nat)
                    == Some(trees_of(childs@)),
            decreases all_res.len() - i,
        {
            let x = &all_res[i];
            proof {
                assert(u.take(i + 1) =~= u.take(i as int).push(u[i as int]));
                assert(u[i as int] == x@);
                lemma_kids_push(key, u.take(i as int), x@);
            }
            if same_key(&x.parent_id, &arg.id) {
                if fuel == 0 {
                    proof {
                        assert(u.take(i + 1).len() == i + 1);
                        assert(u.take(i + 1)[i as int] == u[i as int]);
                        lemma_kids_contains(key, u, i as int);
                    }
                    return Err(ResError::CycleDetected);
                }
                let mut item = SysResVO::from_res(x);
                let sub = self.attach(&mut item, all_res, fuel - 1);
                proof {
                    lemma_expand_list_push(kids_of(key, u.take(i as int)), x@, u, (fuel - 1) as nat);
                }
                if sub.is_err() {
                    proof {
                        lemma_kids_contains(key, u, i as int);
                        let ks = kids_of(key, u);
                        let k = choose|k: int| 0 <= k < ks.len() && ks[k] == u[i as int];
                        lemma_expand_list(ks, u, (fuel - 1) as nat);
                        assert(expand(ks[k], u, (fuel - 1) as nat) is None);
                    }
                    return Err(ResError::CycleDetected);
                }
                let ghost before = childs@;
                childs.push(item);
                proof {
                    assert(childs@.drop_last() =~= before);
                }
            }
            i += 1;
        }
        proof {
            assert(u.take(i as int) =~= u);
        }
        if childs.len() == 0 {
            arg.childs = None;
        } else {
            arg.childs = Some(childs);
        }
        Ok(())
    }
}

} // verus!
