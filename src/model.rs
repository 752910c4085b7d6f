use crate::error::AdminError;
use vstd::prelude::*;

verus! {

/// The role whose members see every menu and may call every route.
pub const PRIVILEGED_ROLE_ID: i64 = 1;

/// What a menu node stands for in the navigation.
#[derive(Debug, Clone, Copy, PartialEq, Eq, Structural)]
pub enum MenuType {
    Directory,
    Menu,
    Button,
}

/// Whether a menu node may be shown.
#[derive(Debug, Clone, Copy, PartialEq, Eq, Structural)]
pub enum MenuStatus {
    Enabled,
    Disabled,
}

/// The menu type that a stored code stands for: 1 directory, 2 menu, 3 button.
pub open spec fn menu_type_of_code(code: i32) -> Option<MenuType> {
    if code == 1 {
        Some(MenuType::Directory)
    } else if code == 2 {
        Some(MenuType::Menu)
    } else if code == 3 {
        Some(MenuType::Button)
    } else {
        None
    }
}

/// The status that a stored code stands for: 1 is enabled, anything else disabled.
pub open spec fn menu_status_of_code(code: i32) -> MenuStatus {
    if code == 1 {
        MenuStatus::Enabled
    } else {
        MenuStatus::Disabled
    }
}

impl MenuType {
    /// Reads the stored code of a menu type.
    pub fn from_code(code: i32) -> (r: Option<MenuType>)
        ensures
            r == menu_type_of_code(code),
    {
        if code == 1 {
            Some(MenuType::Directory)
        } else if code == 2 {
            Some(MenuType::Menu)
        } else if code == 3 {
            Some(MenuType::Button)
        } else {
            None
        }
    }

    /// The stored code of this type.
    pub fn code(&self) -> (r: i32)
        ensures
            menu_type_of_code(r) == Some(*self),
    {
        match self {
            MenuType::Directory => 1,
            MenuType::Menu => 2,
            MenuType::Button => 3,
        }
    }
}

impl MenuStatus {
    /// Reads the stored code of a status.
    pub fn from_code(code: i32) -> (r: MenuStatus)
        ensures
            r == menu_status_of_code(code),
    {
        if code == 1 {
            MenuStatus::Enabled
        } else {
            MenuStatus::Disabled
        }
    }

    /// The stored code of this status.
    pub fn code(&self) -> (r: i32)
        ensures
            menu_status_of_code(r) == *self,
    {
        match self {
            MenuStatus::Enabled => 1,
            MenuStatus::Disabled => 0,
        }
    }
}

/// One node of the menu forest; roots have a parent id that names no node.
#[derive(Debug, Clone)]
pub struct MenuNode {
    pub id: i64,
    pub parent_id: i64,
    pub name: String,
    pub icon: String,
    pub api_url: String,
    pub menu_type: MenuType,
    pub path: String,
    pub status: MenuStatus,
    pub sort: i32,
}

impl MenuNode {
    /// A field-by-field copy, equal to the original.
    pub fn duplicate(&self) -> (r: MenuNode)
        ensures
            r == *self,
    {
        MenuNode {
            id: self.id,
            parent_id: self.parent_id,
            name: self.name.clone(),
            icon: self.icon.clone(),
            api_url: self.api_url.clone(),
            menu_type: self.menu_type,
            path: self.path.clone(),
            status: self.status,
            sort: self.sort,
        }
    }
}

/// A user holds a role.
#[derive(Debug, Clone, Copy, PartialEq, Eq, Structural)]
pub struct UserRole {
    pub user_id: i64,
    pub role_id: i64,
}

/// A role grants a menu node.
#[derive(Debug, Clone, Copy, PartialEq, Eq, Structural)]
pub struct RoleMenu {
    pub role_id: i64,
    pub menu_id: i64,
}

/// A read snapshot of the store: menu nodes and the two association tables.
#[derive(Debug, Clone)]
pub struct MenuStore {
    pub menus: Vec<MenuNode>,
    pub user_roles: Vec<UserRole>,
    pub role_menus: Vec<RoleMenu>,
}

/// Whether the node hangs directly under the parent id.
pub open spec fn is_child_of(parent_id: i64) -> spec_fn(MenuNode) -> bool {
    |m: MenuNode| m.parent_id == parent_id
}

/// Whether the node has another id.
pub open spec fn has_other_id(id: i64) -> spec_fn(MenuNode) -> bool {
    |m: MenuNode| m.id != id
}

/// The number of nodes whose parent is the given id.
pub open spec fn count_children(menus: Seq<MenuNode>, parent_id: i64) -> nat {
    menus.filter(is_child_of(parent_id)).len()
}

/// Allows a deletion only when the node has no children.
pub fn check_menu_delete(children_count: u64) -> (r: Result<(), AdminError>)
    ensures
        r == (if children_count > 0 { Err(AdminError::IntegrityViolation) } else { Ok(()) }),
{
    if children_count > 0 {
        Err(AdminError::IntegrityViolation)
    } else {
        Ok(())
    }
}

impl MenuStore {
    /// The number of nodes directly under the parent id.
    pub fn children_count(&self, parent_id: i64) -> (r: usize)
        ensures
            r == count_children(self.menus@, parent_id),
    {
        let ghost pred = is_child_of(parent_id);
        let mut n: usize = 0;
        let mut k: usize = 0;
        while k < self.menus.len()
            invariant
                k <= self.menus@.len(),
                pred == is_child_of(parent_id),
                n == self.menus@.subrange(0, k as int).filter(pred).len(),
            decreases self.menus@.len() - k,
        {
            proof {
                reveal(Seq::filter);
                let next = self.menus@.subrange(0, k + 1);
                assert(next.drop_last() == self.menus@.subrange(0, k as int));
                self.menus@.subrange(0, k as int).lemma_filter_len(pred);
            }
            if self.menus[k].parent_id == parent_id {
                n = n + 1;
            }
            k = k + 1;
        }
        assert(self.menus@.subrange(0, self.menus@.len() as int) == self.menus@);
        n
    }

    /// Deletes the nodes with the id, unless some node hangs under it: then
    /// fails with an integrity violation and changes nothing, whatever the
    /// node's status. The association tables are left as they are.
    pub fn delete_menu(&mut self, id: i64) -> (r: Result<(), AdminError>)
        ensures
            count_children(old(self).menus@, id) > 0 ==> r == Err::<(), AdminError>(AdminError::IntegrityViolation)
                && *final(self) == *old(self),
            count_children(old(self).menus@, id) == 0 ==> r == Ok::<(), AdminError>(())
                && final(self).menus@ == old(self).menus@.filter(has_other_id(id))
                && final(self).user_roles == old(self).user_roles
                && final(self).role_menus == old(self).role_menus,
    {
        let count = self.children_count(id);
        if count > 0 {
            return Err(AdminError::IntegrityViolation);
        }
        let ghost pred = has_other_id(id);
        let ghost before = self.menus@;
        let mut kept: Vec<MenuNode> = Vec::new();
        let mut k: usize = 0;
        while k < self.menus.len()
            invariant
                k <= before.len(),
                self.menus@ == before,
                pred == has_other_id(id),
                kept@ == before.subrange(0, k as int).filter(pred),
            decreases before.len() - k,
        {
            proof {
                reveal(Seq::filter);
                let next = before.subrange(0, k + 1);
                assert(next.drop_last() == before.subrange(0, k as int));
            }
            if self.menus[k].id != id {
                kept.push(self.menus[k].duplicate());
            }
            k = k + 1;
        }
        assert(before.subrange(0, before.len() as int) == before);
        self.menus = kept;
        Ok(())
    }
}

} // verus!
