use salvo_admin::error::AdminError;
use salvo_admin::model::{check_menu_delete, MenuNode, MenuStatus, MenuStore, MenuType, RoleMenu, UserRole};
use salvo_admin::resolver::resolve_user_permissions;

fn node(id: i64, parent_id: i64, menu_type: MenuType, api_url: &str, status: MenuStatus, sort: i32) -> MenuNode {
    MenuNode {
        id,
        parent_id,
        name: format!("node{}", id),
        icon: String::new(),
        api_url: api_url.to_string(),
        menu_type,
        path: format!("/path/{}", id),
        status,
        sort,
    }
}

fn sample_store() -> MenuStore {
    MenuStore {
        menus: vec![
            node(1, 0, MenuType::Directory, "", MenuStatus::Enabled, 5),
            node(10, 1, MenuType::Menu, "/a", MenuStatus::Enabled, 1),
            node(11, 1, MenuType::Menu, "/c", MenuStatus::Enabled, 3),
            node(20, 10, MenuType::Button, "/b", MenuStatus::Enabled, 2),
        ],
        user_roles: vec![UserRole { user_id: 5, role_id: 2 }, UserRole { user_id: 7, role_id: 1 }],
        role_menus: vec![RoleMenu { role_id: 2, menu_id: 10 }],
    }
}

fn ids(nodes: &[MenuNode]) -> Vec<i64> {
    nodes.iter().map(|m| m.id).collect()
}

fn sorted_urls(urls: &[String]) -> Vec<String> {
    let mut v = urls.to_vec();
    v.sort();
    v
}

#[test]
fn one_menu_role_pulls_in_parent() {
    let store = sample_store();
    let p = resolve_user_permissions(&store, 5);
    assert_eq!(p.button_urls, vec!["/a".to_string()]);
    assert_eq!(ids(&p.menu_tree), vec![10, 1]);
}

#[test]
fn privileged_user_gets_every_url() {
    let mut store = sample_store();
    store.role_menus.clear();
    let p = resolve_user_permissions(&store, 7);
    assert_eq!(sorted_urls(&p.button_urls), vec!["/a".to_string(), "/b".to_string(), "/c".to_string()]);
    assert_eq!(ids(&p.menu_tree), vec![10, 11, 1]);
}

#[test]
fn privileged_user_includes_disabled_node_urls() {
    let mut store = sample_store();
    store.menus.push(node(30, 1, MenuType::Menu, "/off", MenuStatus::Disabled, 9));
    let p = resolve_user_permissions(&store, 7);
    assert!(p.button_urls.contains(&"/off".to_string()));
    assert!(!ids(&p.menu_tree).contains(&30));
}

#[test]
fn user_without_grants_gets_nothing() {
    let store = sample_store();
    let p = resolve_user_permissions(&store, 99);
    assert!(p.button_urls.is_empty());
    assert!(p.menu_tree.is_empty());
}

#[test]
fn resolving_twice_gives_same_result() {
    let store = sample_store();
    let a = resolve_user_permissions(&store, 5);
    let b = resolve_user_permissions(&store, 5);
    assert_eq!(ids(&a.menu_tree), ids(&b.menu_tree));
    assert_eq!(a.button_urls, b.button_urls);
}

#[test]
fn menu_tree_is_ordered_by_sort() {
    let store = MenuStore {
        menus: vec![
            node(1, 0, MenuType::Directory, "", MenuStatus::Enabled, 9),
            node(2, 1, MenuType::Menu, "/x", MenuStatus::Enabled, 4),
            node(3, 1, MenuType::Menu, "/y", MenuStatus::Enabled, 4),
            node(4, 1, MenuType::Menu, "/z", MenuStatus::Enabled, -2),
        ],
        user_roles: vec![UserRole { user_id: 1, role_id: 1 }],
        role_menus: vec![],
    };
    let p = resolve_user_permissions(&store, 1);
    let sorts: Vec<i32> = p.menu_tree.iter().map(|m| m.sort).collect();
    assert_eq!(sorts, vec![-2, 4, 4, 9]);
    assert_eq!(ids(&p.menu_tree), vec![4, 2, 3, 1]);
}

#[test]
fn closure_is_one_level_only() {
    let store = MenuStore {
        menus: vec![
            node(1, 0, MenuType::Directory, "", MenuStatus::Enabled, 1),
            node(2, 1, MenuType::Directory, "", MenuStatus::Enabled, 2),
            node(3, 2, MenuType::Menu, "/deep", MenuStatus::Enabled, 3),
        ],
        user_roles: vec![UserRole { user_id: 4, role_id: 6 }],
        role_menus: vec![RoleMenu { role_id: 6, menu_id: 3 }],
    };
    let p = resolve_user_permissions(&store, 4);
    assert_eq!(ids(&p.menu_tree), vec![2, 3]);
}

#[test]
fn disabled_parent_is_left_out() {
    let mut store = sample_store();
    store.menus[0].status = MenuStatus::Disabled;
    let p = resolve_user_permissions(&store, 5);
    assert_eq!(ids(&p.menu_tree), vec![10]);
    assert_eq!(p.button_urls, vec!["/a".to_string()]);
}

#[test]
fn granted_button_adds_url_but_no_menu() {
    let mut store = sample_store();
    store.role_menus.push(RoleMenu { role_id: 2, menu_id: 20 });
    let p = resolve_user_permissions(&store, 5);
    assert_eq!(sorted_urls(&p.button_urls), vec!["/a".to_string(), "/b".to_string()]);
    assert_eq!(ids(&p.menu_tree), vec![10, 1]);
}

#[test]
fn duplicate_grants_give_each_url_once() {
    let mut store = sample_store();
    store.user_roles.push(UserRole { user_id: 5, role_id: 3 });
    store.role_menus.push(RoleMenu { role_id: 3, menu_id: 10 });
    let p = resolve_user_permissions(&store, 5);
    assert_eq!(p.button_urls, vec!["/a".to_string()]);
    assert_eq!(ids(&p.menu_tree), vec![10, 1]);
}

#[test]
fn delete_with_children_fails() {
    let mut store = sample_store();
    assert_eq!(store.children_count(1), 2);
    let before = ids(&store.menus);
    assert_eq!(store.delete_menu(1), Err(AdminError::IntegrityViolation));
    assert_eq!(ids(&store.menus), before);
}

#[test]
fn delete_disabled_node_with_children_fails() {
    let mut store = sample_store();
    store.menus[0].status = MenuStatus::Disabled;
    assert_eq!(store.delete_menu(1), Err(AdminError::IntegrityViolation));
    assert_eq!(store.menus.len(), 4);
}

#[test]
fn delete_leaf_succeeds() {
    let mut store = sample_store();
    assert_eq!(store.children_count(20), 0);
    assert_eq!(store.delete_menu(20), Ok(()));
    assert_eq!(ids(&store.menus), vec![1, 10, 11]);
}

#[test]
fn delete_decision_on_count() {
    assert_eq!(check_menu_delete(0), Ok(()));
    assert_eq!(check_menu_delete(3), Err(AdminError::IntegrityViolation));
}

#[test]
fn codes_round_trip() {
    assert_eq!(MenuType::from_code(1), Some(MenuType::Directory));
    assert_eq!(MenuType::from_code(2), Some(MenuType::Menu));
    assert_eq!(MenuType::from_code(3), Some(MenuType::Button));
    assert_eq!(MenuType::from_code(4), None);
    assert_eq!(MenuType::Button.code(), 3);
    assert_eq!(MenuStatus::from_code(1), MenuStatus::Enabled);
    assert_eq!(MenuStatus::from_code(0), MenuStatus::Disabled);
    assert_eq!(MenuStatus::Disabled.code(), 0);
}

#[test]
fn error_messages_are_not_empty() {
    for e in [
        AdminError::CredentialMismatch,
        AdminError::NoAssignedPermissions,
        AdminError::MissingToken,
        AdminError::InvalidToken,
        AdminError::TokenExpired,
        AdminError::SigningFailed,
        AdminError::RepositoryUnavailable,
        AdminError::ResolutionFailed,
        AdminError::IntegrityViolation,
    ] {
        assert!(!e.message().is_empty());
    }
    assert_eq!(AdminError::TokenExpired.message(), "token expired");
}
