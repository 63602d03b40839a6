use lme_server::errors::{LMEAPIErrors, WorkspaceError};
use lme_server::registry::Registry;

#[test]
fn create_is_unique_until_removed() {
    let mut reg = Registry::new();
    assert!(reg.create("w1".to_string(), 4).is_ok());
    assert_eq!(
        reg.create("w1".to_string(), 2),
        Err(LMEAPIErrors::WorkspaceNameConfilict)
    );
    assert_eq!(
        reg.create("w1".to_string(), 4),
        Err(LMEAPIErrors::WorkspaceNameConfilict)
    );
    assert!(reg.remove(&"w1".to_string()).is_ok());
    assert!(reg.create("w1".to_string(), 4).is_ok());
}

#[test]
fn remove_missing_is_not_found() {
    let mut reg = Registry::new();
    assert_eq!(
        reg.remove(&"nope".to_string()),
        Err(LMEAPIErrors::WorkspaceNotFound)
    );
    assert!(reg.create("a".to_string(), 1).is_ok());
    assert_eq!(
        reg.remove(&"b".to_string()),
        Err(LMEAPIErrors::WorkspaceNotFound)
    );
    assert!(reg.remove(&"a".to_string()).is_ok());
    assert_eq!(
        reg.remove(&"a".to_string()),
        Err(LMEAPIErrors::WorkspaceNotFound)
    );
}

#[test]
fn resolve_finds_the_right_workspace() {
    let mut reg = Registry::new();
    assert!(reg.create("small".to_string(), 1).is_ok());
    assert!(reg.create("large".to_string(), 9).is_ok());
    assert_eq!(
        reg.resolve(&"absent".to_string()),
        Err(LMEAPIErrors::WorkspaceNotFound)
    );
    let j = reg.resolve(&"large".to_string()).unwrap();
    assert_eq!(reg.workspace_at(j).core_size(), 9);
    let k = reg.resolve(&"small".to_string()).unwrap();
    assert_eq!(reg.workspace_at(k).core_size(), 1);
}

#[test]
fn independent_workspaces_do_not_disturb_each_other() {
    let mut reg = Registry::new();
    assert!(reg.create("a".to_string(), 2).is_ok());
    assert!(reg.create("b".to_string(), 2).is_ok());
    let ja = reg.resolve(&"a".to_string()).unwrap();
    let ws_a = reg.workspace_at_mut(ja);
    assert!(ws_a.remove_stack(0).is_ok());
    let jb = reg.resolve(&"b".to_string()).unwrap();
    let ws_b = reg.workspace_at(jb);
    assert!(ws_b.read_stack(0).is_ok());
    let ja = reg.resolve(&"a".to_string()).unwrap();
    assert!(matches!(
        reg.workspace_at(ja).read_stack(0),
        Err(WorkspaceError::StackNotFound)
    ));
}

use lme_server::errors::status_code;

#[test]
fn status_codes_follow_the_taxonomy() {
    assert_eq!(status_code(&LMEAPIErrors::WorkspaceNameConfilict), 409);
    assert_eq!(status_code(&LMEAPIErrors::WorkspaceNotFound), 404);
    assert_eq!(
        status_code(&LMEAPIErrors::Workspace(WorkspaceError::IndexOutOfCoreSize)),
        400
    );
    assert_eq!(
        status_code(&LMEAPIErrors::Workspace(WorkspaceError::StackNotFound)),
        404
    );
    assert_eq!(
        status_code(&LMEAPIErrors::Workspace(WorkspaceError::NoSuchIdName)),
        404
    );
}
