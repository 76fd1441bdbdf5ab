use vstd::prelude::*;

use crate::error::ResError;
use crate::layer::SysResService;
use crate::model::{clone_opt, ResEditDTO, ResModel, ResPageDTO, SysRes};

verus! {

/// The page number used when a request names none.
pub const DEFAULT_PAGE: u64 = 1;

/// The page size used when a request names none.
pub const DEFAULT_PAGE_SIZE: u64 = 10;

/// `arg` carries a permission that one of the stored records `stored`
/// already carries. A record without a permission clashes with nothing.
pub open spec fn permission_taken(arg: ResModel, stored: Seq<ResModel>) -> bool {
    arg.permission is Some && exists|i: int|
        0 <= i < stored.len() && #[trigger] stored[i].permission == arg.permission
}

/// The key under which a record is filed in a lookup map: its id, or the
/// empty string when it has none.
pub open spec fn key_of(r: ResModel) -> Seq<char> {
    match r.id {
        Some(k) => k,
        None => Seq::empty(),
    }
}

/// Some position of `r` holds a record of `data` filed under the same key as
/// the one at position `a`.
pub open spec fn filed(data: Seq<SysRes>, r: Seq<usize>, a: int) -> bool {
    exists|i: int| 0 <= i < r.len() && key_of(data[a]@) == key_of(data[r[i] as int]@)
}

impl SysRes {
    /// The record that an edit request writes: its fields, with no deletion
    /// flag and no creation date, so that the store leaves those as they are.
    pub fn from_edit(arg: &ResEditDTO) -> (r: SysRes)
        ensures
            r.id == arg.id,
            r.parent_id == arg.parent_id,
            r.name == arg.name,
            r.permission == arg.permission,
            r.path == arg.path,
            r.del is None,
            r.create_date is None,
    {
        SysRes {
            id: clone_opt(&arg.id),
            parent_id: clone_opt(&arg.parent_id),
            name: clone_opt(&arg.name),
            permission: clone_opt(&arg.permission),
            path: clone_opt(&arg.path),
            del: None,
            create_date: None,
        }
    }

    /// The key under which this record is filed in a lookup map.
    pub fn map_key(&self) -> (k: String)
        ensures
            k@ == key_of(self@),
    {
        match &self.id {
            Some(s) => s.clone(),
            None => String::new(),
        }
    }
}

impl SysResService {
    /// The page number and page size of a page request, defaults filled in.
    pub fn page_request(&self, arg: &ResPageDTO) -> (r: (u64, u64))
        ensures
            r.0 == match arg.page {
                Some(p) => p,
                None => DEFAULT_PAGE,
            },
            r.1 == match arg.size {
                Some(s) => s,
                None => DEFAULT_PAGE_SIZE,
            },
    {
        let page = match arg.page {
            Some(p) => p,
            None => DEFAULT_PAGE,
        };
        let size = match arg.size {
            Some(s) => s,
            None => DEFAULT_PAGE_SIZE,
        };
        (page, size)
    }

    /// For each lookup key (`key_of`) of `data`, the position of the last
    /// record filed under it, in increasing order; no key repeats. A lookup
    /// map of `data` keeps exactly these records.
    pub fn map_winners(&self, data: &Vec<SysRes>) -> (r: Vec<usize>)
        ensures
            forall|i: int| 0 <= i < r@.len() ==> (r@[i] as int) < data@.len(),
            forall|i: int, j: int| 0 <= i < j < r@.len() ==> r@[i] < r@[j],
            forall|i: int, j: int|
                0 <= i < j < r@.len() ==> key_of(data@[r@[i] as int]@) != key_of(
                    data@[r@[j] as int]@,
                ),
            forall|i: int, q: int|
                0 <= i < r@.len() && r@[i] < q < data@.len() ==> key_of(#[trigger] data@[q]@) != key_of(
                    data@[#[trigger] r@[i] as int]@,
                ),
            forall|p: int| 0 <= p < data@.len() ==> #[trigger] filed(data@, r@, p),
    {
        let n = data.len();
        let mut r: Vec<usize> = Vec::new();
        let mut p: usize = 0;
        while p < n
            invariant
                n == data@.len(),
                p <= n,
                forall|i: int| 0 <= i < r@.len() ==> (r@[i] as int) < p,
                forall|i: int, j: int| 0 <= i < j < r@.len() ==> r@[i] < r@[j],
                forall|i: int, q: int|
                    0 <= i < r@.len() && r@[i] < q < n ==> key_of(#[trigger] data@[q]@) != key_of(
                        data@[#[trigger] r@[i] as int]@,
                    ),
                forall|a: int|
                    0 <= a < p ==> #[trigger] filed(data@, r@, a) || (exists|q: int|
                        p <= q < n && key_of(data@[q]@) == key_of(data@[a]@)),
            decreases n - p,
        {
            let kp = data[p].map_key();
            let mut later = false;
            let mut w: usize = p;
            let mut q: usize = p + 1;
            while q < n
                invariant
                    n == data@.len(),
                    p < n,
                    p + 1 <= q <= n,
                    kp@ == key_of(data@[p as int]@),
                    later ==> p < w < n && key_of(data@[w as int]@) == kp@,
                    !later ==> forall|b: int| p < b < q ==> key_of(data@[b]@) != kp@,
                decreases n - q,
            {
                let kq = data[q].map_key();
                if kq.eq(&kp) {
                    later = true;
                    w = q;
                }
                q += 1;
            }
            let ghost before = r@;
            let ghost a_later = later;
            if !later {
                r.push(p);
                proof {
                    assert forall|i: int| 0 <= i < before.len() implies r@[i] == before[i] by {}
                    assert(r@[before.len() as int] == p);
                }
            }
            proof {
                assert forall|a: int| 0 <= a < p + 1 implies #[trigger] filed(data@, r@, a) || (exists|q: int|
                    p + 1 <= q < n && key_of(data@[q]@) == key_of(data@[a]@)) by {
                    let ka = key_of(data@[a]@);
                    if a < p && filed(data@, before, a) {
                        let i = choose|i: int|
                            0 <= i < before.len() && key_of(#[trigger] data@[a]@) == key_of(
                                data@[before[i] as int]@,
                            );
                        assert(r@[i] == before[i]);
                    } else if a == p || ka == kp@ {
                        assert(a == p || ka == kp@);
                        if !a_later {
                            assert(r@[before.len() as int] == p);
                        } else {
                            assert(key_of(data@[w as int]@) == ka);
                        }
                    } else {
                        let q0 = choose|q: int| p <= q < n && key_of(data@[q]@) == ka;
                        assert(q0 != p);
                    }
                }
            }
            p += 1;
        }
        proof {
            assert forall|a: int| 0 <= a < n implies #[trigger] filed(data@, r@, a) by {}
        }
        r
    }

    /// Decides whether `arg` may be created next to the stored records
    /// `stored`: refused with `DuplicatePermission` exactly when its
    /// permission is already taken. Names and paths may repeat.
    pub fn check_add(&self, arg: &SysRes, stored: &Vec<SysRes>) -> (r: Result<(), ResError>)
        ensures
            r is Err <==> permission_taken(arg@, crate::model::models(stored@)),
            r is Err ==> r == Err::<(), ResError>(ResError::DuplicatePermission),
    {
        let ghost s = crate::model::models(stored@);
        match &arg.permission {
            None => Ok(()),
            Some(p) => {
                let mut i: usize = 0;
                while i < stored.len()
                    invariant
                        i <= stored.len(),
                        s == crate::model::models(stored@),
                        arg.permission == Some(*p),
                        forall|j: int| 0 <= j < i ==> (#[trigger] s[j]).permission != Some(p@),
                    decreases stored.len() - i,
                {
                    if let Some(q) = &stored[i].permission {
                        if q.eq(p) {
                            proof {
                                assert(s[i as int].permission == arg@.permission);
                            }
                            return Err(ResError::DuplicatePermission);
                        }
                    }
                    proof {
                        assert(s[i as int] == stored@[i as int]@);
                    }
                    i += 1;
                }
                Ok(())
            },
        }
    }
}

} // verus!
