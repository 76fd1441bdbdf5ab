use sys_res::{ResEditDTO, ResError, ResPageDTO, SysRes, SysResService};

fn res(id: &str, permission: Option<&str>, name: &str, path: &str) -> SysRes {
    SysRes {
        id: Some(id.to_string()),
        parent_id: None,
        name: Some(name.to_string()),
        permission: permission.map(|p| p.to_string()),
        path: Some(path.to_string()),
        del: Some(0),
        create_date: Some("2021-01-01 00:00:00".to_string()),
    }
}

#[test]
fn duplicate_permission_refused() {
    let svc = SysResService {};
    let stored = vec![res("1", Some("user:add"), "add", "/user/add")];
    let new = res("2", Some("user:add"), "other", "/other");
    assert_eq!(svc.check_add(&new, &stored), Err(ResError::DuplicatePermission));
}

#[test]
fn distinct_permission_same_name_and_path_accepted() {
    let svc = SysResService {};
    let stored = vec![res("1", Some("user:add"), "add", "/user/add")];
    let new = res("2", Some("user:edit"), "add", "/user/add");
    assert_eq!(svc.check_add(&new, &stored), Ok(()));
}

#[test]
fn missing_permission_clashes_with_nothing() {
    let svc = SysResService {};
    let stored = vec![res("1", None, "a", "/a")];
    let new = res("2", None, "a", "/a");
    assert_eq!(svc.check_add(&new, &stored), Ok(()));
    assert_eq!(svc.check_add(&new, &vec![]), Ok(()));
}

#[test]
fn page_defaults() {
    let svc = SysResService {};
    assert_eq!(svc.page_request(&ResPageDTO { page: None, size: None }), (1, 10));
    assert_eq!(svc.page_request(&ResPageDTO { page: Some(3), size: Some(25) }), (3, 25));
    assert_eq!(svc.page_request(&ResPageDTO { page: Some(0), size: None }), (0, 10));
}

#[test]
fn edit_record_clears_lifecycle_fields() {
    let dto = ResEditDTO {
        id: Some("7".to_string()),
        parent_id: Some("1".to_string()),
        name: Some("n".to_string()),
        permission: Some("p".to_string()),
        path: Some("/p".to_string()),
    };
    let r = SysRes::from_edit(&dto);
    assert_eq!(r.id.as_deref(), Some("7"));
    assert_eq!(r.parent_id.as_deref(), Some("1"));
    assert_eq!(r.name.as_deref(), Some("n"));
    assert_eq!(r.permission.as_deref(), Some("p"));
    assert_eq!(r.path.as_deref(), Some("/p"));
    assert!(r.del.is_none());
    assert!(r.create_date.is_none());
}

#[test]
fn map_key_is_id_or_empty() {
    let mut r = res("abc", None, "a", "/a");
    assert_eq!(r.map_key(), "abc");
    r.id = None;
    assert_eq!(r.map_key(), "");
}

#[test]
fn error_messages() {
    assert_eq!(ResError::DuplicatePermission.message(), "permission already exists");
    assert_eq!(ResError::CycleDetected.message(), "resource parent links form a cycle");
}

#[test]
fn map_winners_keep_last_record_per_key() {
    let svc = SysResService {};
    let data = vec![
        res("a", Some("p1"), "first a", "/a"),
        res("b", Some("p2"), "b", "/b"),
        res("a", Some("p3"), "second a", "/a2"),
    ];
    assert_eq!(svc.map_winners(&data), vec![1, 2]);
}

#[test]
fn map_winners_file_missing_id_under_empty_key() {
    let svc = SysResService {};
    let mut none_id = res("x", None, "no id", "/n");
    none_id.id = None;
    let data = vec![none_id.clone(), res("", None, "empty id", "/e"), res("c", None, "c", "/c")];
    assert_eq!(svc.map_winners(&data), vec![1, 2]);
    assert_eq!(svc.map_winners(&vec![none_id]), vec![0]);
    assert_eq!(svc.map_winners(&vec![]), Vec::<usize>::new());
}

#[test]
fn map_winners_all_distinct_keep_all() {
    let svc = SysResService {};
    let data = vec![res("1", None, "a", "/a"), res("2", None, "b", "/b"), res("3", None, "c", "/c")];
    assert_eq!(svc.map_winners(&data), vec![0, 1, 2]);
}
