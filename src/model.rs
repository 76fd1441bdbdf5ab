use vstd::prelude::*;

verus! {

/// One stored resource: a permission-bearing node such as a menu entry.
#[derive(Debug, Clone)]
pub struct SysRes {
    pub id: Option<String>,
    pub parent_id: Option<String>,
    pub name: Option<String>,
    pub permission: Option<String>,
    pub path: Option<String>,
    pub del: Option<i32>,
    /// Creation time, as the store renders it.
    pub create_date: Option<String>,
}

/// A resource as shown in a hierarchy, with the nodes nested under it.
/// `childs` is `None`, never an empty vector, when nothing hangs under it.
#[derive(Debug)]
pub struct SysResVO {
    pub id: Option<String>,
    pub parent_id: Option<String>,
    pub name: Option<String>,
    pub permission: Option<String>,
    pub path: Option<String>,
    pub del: Option<i32>,
    pub create_date: Option<String>,
    pub childs: Option<Vec<SysResVO>>,
}

/// The fields of an edit request.
#[derive(Debug, Clone)]
pub struct ResEditDTO {
    pub id: Option<String>,
    pub parent_id: Option<String>,
    pub name: Option<String>,
    pub permission: Option<String>,
    pub path: Option<String>,
}

/// A page request as the caller sends it; missing values take defaults.
#[derive(Debug, Clone, Copy)]
pub struct ResPageDTO {
    pub page: Option<u64>,
    pub size: Option<u64>,
}

/// The mathematical value of a resource record.
pub struct ResModel {
    pub id: Option<Seq<char>>,
    pub parent_id: Option<Seq<char>>,
    pub name: Option<Seq<char>>,
    pub permission: Option<Seq<char>>,
    pub path: Option<Seq<char>>,
    pub del: Option<i32>,
    pub create_date: Option<Seq<char>>,
}

/// The mathematical value of a hierarchy node.
pub struct TreeModel {
    pub res: ResModel,
    pub children: Option<Seq<TreeModel>>,
}

/// Copies an optional string.
pub fn clone_opt(o: &Option<String>) -> (r: Option<String>)
    ensures
        r == *o,
{
    match o {
        Some(s) => Some(s.clone()),
        None => None,
    }
}

impl SysResVO {
    /// The node for one record, with nothing under it yet.
    pub fn from_res(x: &SysRes) -> (v: SysResVO)
        ensures
            node_res(v) == x@,
            v.childs is None,
    {
        SysResVO {
            id: clone_opt(&x.id),
            parent_id: clone_opt(&x.parent_id),
            name: clone_opt(&x.name),
            permission: clone_opt(&x.permission),
            path: clone_opt(&x.path),
            del: x.del,
            create_date: clone_opt(&x.create_date),
            childs: None,
        }
    }
}

/// The value of an optional string.
pub open spec fn opt_str(o: Option<String>) -> Option<Seq<char>> {
    match o {
        Some(s) => Some(s@),
        None => None,
    }
}

impl View for SysRes {
    type V = ResModel;

    open spec fn view(&self) -> ResModel {
        ResModel {
            id: opt_str(self.id),
            parent_id: opt_str(self.parent_id),
            name: opt_str(self.name),
            permission: opt_str(self.permission),
            path: opt_str(self.path),
            del: self.del,
            create_date: opt_str(self.create_date),
        }
    }
}

/// The record part of a hierarchy node.
pub open spec fn node_res(v: SysResVO) -> ResModel {
    ResModel {
        id: opt_str(v.id),
        parent_id: opt_str(v.parent_id),
        name: opt_str(v.name),
        permission: opt_str(v.permission),
        path: opt_str(v.path),
        del: v.del,
        create_date: opt_str(v.create_date),
    }
}

/// The values of a sequence of records.
pub open spec fn models(u: Seq<SysRes>) -> Seq<ResModel> {
    u.map_values(|r: SysRes| r@)
}

/// The value of a hierarchy node and of everything below it.
pub open spec fn tree_of(v: SysResVO) -> TreeModel
    decreases v, 1nat,
{
    TreeModel {
        res: node_res(v),
        children: match v.childs {
            Some(c) => {
                proof {
                    broadcast use vstd::std_specs::vec::axiom_vec_decreases_to_view;
                }
                Some(trees_of(c@))
            },
            None => None,
        },
    }
}

/// The values of a sequence of hierarchy nodes, in order.
pub open spec fn trees_of(s: Seq<SysResVO>) -> Seq<TreeModel>
    decreases s, 0nat,
{
    if s.len() == 0 {
        Seq::empty()
    } else {
        trees_of(s.drop_last()).push(tree_of(s.last()))
    }
}

impl View for SysResVO {
    type V = TreeModel;

    open spec fn view(&self) -> TreeModel {
        tree_of(*self)
    }
}

} // verus!
