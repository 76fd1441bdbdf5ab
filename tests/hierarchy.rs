use sys_res::{ResError, SysRes, SysResService, SysResVO};

fn rec(id: &str, parent: Option<&str>) -> SysRes {
    SysRes {
        id: Some(id.to_string()),
        parent_id: parent.map(|p| p.to_string()),
        name: Some(format!("name {}", id)),
        permission: Some(format!("perm:{}", id)),
        path: Some(format!("/{}", id)),
        del: Some(0),
        create_date: None,
    }
}

fn shape(v: &SysResVO) -> String {
    let id = v.id.clone().unwrap_or_default();
    match &v.childs {
        None => id,
        Some(cs) => {
            let inner: Vec<String> = cs.iter().map(shape).collect();
            format!("{}[{}]", id, inner.join(","))
        }
    }
}

fn shapes(vs: &[SysResVO]) -> Vec<String> {
    vs.iter().map(shape).collect()
}

fn pick(universe: &[SysRes], ids: &[&str]) -> Vec<SysRes> {
    universe
        .iter()
        .filter(|r| ids.iter().any(|i| r.id.as_deref() == Some(*i)))
        .cloned()
        .collect()
}

#[test]
fn chain_with_orphan() {
    let universe = vec![
        rec("1", None),
        rec("2", Some("1")),
        rec("3", Some("2")),
        rec("4", Some("99")),
    ];
    let svc = SysResService {};
    let out = svc.build_forest(&pick(&universe, &["1"]), &universe).unwrap();
    assert_eq!(shapes(&out), vec!["1[2[3]]".to_string()]);
    let leaf = &out[0].childs.as_ref().unwrap()[0].childs.as_ref().unwrap()[0];
    assert_eq!(leaf.id.as_deref(), Some("3"));
    assert!(leaf.childs.is_none());
    assert!(!format!("{:?}", out).contains("\"4\""));
}

#[test]
fn two_cycle_refused_without_targets() {
    let universe = vec![rec("a", Some("b")), rec("b", Some("a"))];
    let svc = SysResService {};
    let out = svc.build_forest(&vec![], &universe);
    assert_eq!(out.err(), Some(ResError::CycleDetected));
}

#[test]
fn self_parent_refused() {
    let universe = vec![rec("1", None), rec("x", Some("x"))];
    let svc = SysResService {};
    let out = svc.build_forest(&pick(&universe, &["1"]), &universe);
    assert_eq!(out.err(), Some(ResError::CycleDetected));
}

#[test]
fn cycle_below_root_refused_by_loop_find_childs() {
    let universe = vec![rec("1", None), rec("a", Some("b")), rec("b", Some("a")), rec("c", Some("1"))];
    let svc = SysResService {};
    let mut root = SysResVO::from_res(&universe[0]);
    assert_eq!(svc.loop_find_childs(&mut root, &universe), Ok(()));
    assert_eq!(shape(&root), "1[c]");
    let mut a = SysResVO::from_res(&universe[1]);
    assert_eq!(svc.loop_find_childs(&mut a, &universe), Err(ResError::CycleDetected));
}

#[test]
fn lone_root_has_no_children() {
    let universe = vec![rec("1", None)];
    let svc = SysResService {};
    let out = svc.build_forest(&universe.clone(), &universe).unwrap();
    assert_eq!(out.len(), 1);
    assert!(out[0].childs.is_none());
    assert_eq!(out[0].name.as_deref(), Some("name 1"));
    assert_eq!(out[0].permission.as_deref(), Some("perm:1"));
    assert_eq!(out[0].path.as_deref(), Some("/1"));
}

#[test]
fn children_keep_universe_order() {
    let universe = vec![
        rec("c", Some("r")),
        rec("r", None),
        rec("a", Some("r")),
        rec("b", Some("r")),
        rec("a1", Some("a")),
    ];
    let svc = SysResService {};
    let out = svc.build_forest(&pick(&universe, &["r"]), &universe).unwrap();
    assert_eq!(shapes(&out), vec!["r[c,a[a1],b]".to_string()]);
}

#[test]
fn roots_keep_candidate_order_and_skip_non_roots() {
    let universe = vec![rec("1", None), rec("2", None), rec("3", Some("1"))];
    let svc = SysResService {};
    let candidates = vec![universe[1].clone(), universe[2].clone(), universe[0].clone()];
    let out = svc.build_forest(&candidates, &universe).unwrap();
    assert_eq!(shapes(&out), vec!["2".to_string(), "1[3]".to_string()]);
}

#[test]
fn no_candidates_give_empty_forest() {
    let universe = vec![rec("1", None), rec("2", Some("1"))];
    let svc = SysResService {};
    assert_eq!(svc.build_forest(&vec![], &universe).unwrap().len(), 0);
    assert_eq!(svc.build_forest(&vec![], &vec![]).unwrap().len(), 0);
}

#[test]
fn repeated_builds_agree() {
    let universe = vec![
        rec("1", None),
        rec("2", Some("1")),
        rec("3", Some("1")),
        rec("4", Some("3")),
        rec("5", None),
    ];
    let svc = SysResService {};
    let c = pick(&universe, &["1", "5"]);
    let first = svc.build_forest(&c, &universe).unwrap();
    let second = svc.build_forest(&c, &universe).unwrap();
    assert_eq!(format!("{:?}", first), format!("{:?}", second));
    assert_eq!(shapes(&first), vec!["1[2,3[4]]".to_string(), "5".to_string()]);
}

#[test]
fn orphan_is_never_placed() {
    let universe = vec![rec("1", None), rec("o", Some("missing")), rec("k", Some("o"))];
    let svc = SysResService {};
    let out = svc.build_forest(&universe.clone(), &universe).unwrap();
    assert_eq!(shapes(&out), vec!["1".to_string()]);
}

#[test]
fn descendant_with_equal_ids_under_each() {
    let universe = vec![rec("1", None), rec("2", Some("1")), rec("2", Some("1")), rec("3", Some("2"))];
    let svc = SysResService {};
    let out = svc.build_forest(&pick(&universe, &["1"])[..1].to_vec(), &universe).unwrap();
    assert_eq!(shapes(&out), vec!["1[2[3],2[3]]".to_string()]);
}

#[test]
fn failed_attach_leaves_node_unchanged() {
    let universe = vec![rec("a", Some("b")), rec("b", Some("a"))];
    let svc = SysResService {};
    let mut a = SysResVO::from_res(&universe[0]);
    assert_eq!(svc.loop_find_childs(&mut a, &universe), Err(ResError::CycleDetected));
    assert_eq!(a.id.as_deref(), Some("a"));
    assert_eq!(a.name.as_deref(), Some("name a"));
    assert_eq!(a.permission.as_deref(), Some("perm:a"));
    assert!(a.childs.is_none());
}
