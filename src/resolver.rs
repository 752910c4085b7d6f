use crate::model::{MenuNode, MenuStatus, MenuStore, MenuType, PRIVILEGED_ROLE_ID, RoleMenu, UserRole};
use vstd::prelude::*;

verus! {

broadcast use vstd::seq_lib::group_to_multiset_ensures;

/// The user holds the role.
pub open spec fn holds_role(roles: Seq<UserRole>, user_id: i64, role_id: i64) -> bool {
    exists|i: int| 0 <= i < roles.len() && roles[i].user_id == user_id && roles[i].role_id == role_id
}

/// The user holds the privileged role.
pub open spec fn is_privileged(store: MenuStore, user_id: i64) -> bool {
    holds_role(store.user_roles@, user_id, PRIVILEGED_ROLE_ID)
}

/// One of the user's roles grants the menu id.
pub open spec fn grants(roles: Seq<UserRole>, grants: Seq<RoleMenu>, user_id: i64, menu_id: i64) -> bool {
    exists|i: int, j: int|
        0 <= i < roles.len() && 0 <= j < grants.len() && roles[i].user_id == user_id
            && grants[j].role_id == roles[i].role_id && grants[j].menu_id == menu_id
}

/// The node is a candidate for the user: every node for a privileged user,
/// else the nodes that the user's roles grant.
pub open spec fn is_candidate(store: MenuStore, user_id: i64, m: MenuNode) -> bool {
    is_privileged(store, user_id) || grants(store.user_roles@, store.role_menus@, user_id, m.id)
}

/// A directory or menu node (not a button) pulls in its own id and its
/// immediate parent's id, and no other.
pub open spec fn pulls_in(m: MenuNode, id: i64) -> bool {
    m.menu_type != MenuType::Button && (m.id == id || m.parent_id == id)
}

/// The id is pulled in by a candidate node of the user.
pub open spec fn is_included(store: MenuStore, user_id: i64, id: i64) -> bool {
    exists|k: int|
        0 <= k < store.menus@.len() && is_candidate(store, user_id, #[trigger] store.menus@[k])
            && pulls_in(store.menus@[k], id)
}

/// The node appears in the user's menu tree: its id is included and it is enabled.
pub open spec fn is_visible(store: MenuStore, user_id: i64, m: MenuNode) -> bool {
    is_included(store, user_id, m.id) && m.status == MenuStatus::Enabled
}

/// The nodes of the user's menu tree, in store order.
pub open spec fn visible_menus(store: MenuStore, user_id: i64) -> Seq<MenuNode> {
    store.menus@.filter(visible_to(store, user_id))
}

/// Visibility to the user, as a predicate on nodes.
pub open spec fn visible_to(store: MenuStore, user_id: i64) -> spec_fn(MenuNode) -> bool {
    |m: MenuNode| is_visible(store, user_id, m)
}

/// The entries are in non-decreasing order of `sort`.
pub open spec fn sorted_by_sort(s: Seq<MenuNode>) -> bool {
    forall|i: int, j: int| 0 <= i <= j < s.len() ==> s[i].sort <= s[j].sort
}

/// The node comes no later than the other: by `sort`, then by id.
pub open spec fn precedes(a: MenuNode, b: MenuNode) -> bool {
    a.sort < b.sort || (a.sort == b.sort && a.id <= b.id)
}

/// The entries are ordered by `sort`, and by id where `sort` ties.
pub open spec fn ordered_by_sort_then_id(s: Seq<MenuNode>) -> bool {
    forall|i: int, j: int| 0 <= i <= j < s.len() ==> precedes(s[i], s[j])
}

/// Each id names one node: two nodes with one id are the same node.
pub open spec fn ids_unique(s: Seq<MenuNode>) -> bool {
    forall|i: int, j: int| 0 <= i < s.len() && 0 <= j < s.len() && s[i].id == s[j].id ==> s[i] == s[j]
}

/// The route is a button permission of the user: a non-empty api url of a
/// candidate node or of a node in the menu tree.
pub open spec fn is_button_url(store: MenuStore, user_id: i64, u: Seq<char>) -> bool {
    u.len() > 0 && exists|k: int|
        0 <= k < store.menus@.len() && (is_candidate(store, user_id, #[trigger] store.menus@[k])
            || is_visible(store, user_id, store.menus@[k])) && store.menus@[k].api_url@ == u
}

/// The views of a list of strings.
pub open spec fn string_views(v: Seq<String>) -> Seq<Seq<char>> {
    v.map_values(|s: String| s@)
}

/// What the resolver hands back for one user.
#[derive(Debug, Clone)]
pub struct Permissions {
    /// The visible nodes, flat, ordered by `sort`; nesting follows `parent_id`.
    pub menu_tree: Vec<MenuNode>,
    /// The callable routes, each once.
    pub button_urls: Vec<String>,
}

/// The result for the user: the menu tree is the visible nodes ordered by
/// `sort` (ties by id), and the button urls are exactly the user's routes,
/// each once.
pub open spec fn resolves_to(store: MenuStore, user_id: i64, p: Permissions) -> bool {
    &&& p.menu_tree@.to_multiset() == visible_menus(store, user_id).to_multiset()
    &&& sorted_by_sort(p.menu_tree@)
    &&& ordered_by_sort_then_id(p.menu_tree@)
    &&& string_views(p.button_urls@).no_duplicates()
    &&& forall|u: Seq<char>|
        string_views(p.button_urls@).contains(u) <==> #[trigger] is_button_url(store, user_id, u)
}

/// Whether the user holds the privileged role: a membership test on role ids.
pub fn user_is_privileged(store: &MenuStore, user_id: i64) -> (r: bool)
    ensures
        r == is_privileged(*store, user_id),
{
    let mut i: usize = 0;
    while i < store.user_roles.len()
        invariant
            i <= store.user_roles@.len(),
            forall|k: int|
                0 <= k < i ==> !(store.user_roles@[k].user_id == user_id
                    && store.user_roles@[k].role_id == PRIVILEGED_ROLE_ID),
        decreases store.user_roles@.len() - i,
    {
        let ur = store.user_roles[i];
        if ur.user_id == user_id && ur.role_id == PRIVILEGED_ROLE_ID {
            return true;
        }
        i = i + 1;
    }
    false
}

proof fn lemma_push_contains<A>(s: Seq<A>, x: A)
    ensures
        forall|y: A| #[trigger] s.push(x).contains(y) <==> s.contains(y) || y == x,
{
    assert forall|y: A| #[trigger] s.push(x).contains(y) <==> s.contains(y) || y == x by {
        if s.contains(y) {
            let k = choose|k: int| 0 <= k < s.len() && s[k] == y;
            assert(s.push(x)[k] == y);
        }
        if y == x {
            assert(s.push(x)[s.len() as int] == y);
        }
        if s.push(x).contains(y) && y != x {
            let k = choose|k: int| 0 <= k < s.len() + 1 && s.push(x)[k] == y;
            assert(s[k] == y);
        }
    }
}

fn contains_id(v: &Vec<i64>, x: i64) -> (r: bool)
    ensures
        r == v@.contains(x),
{
    let mut i: usize = 0;
    while i < v.len()
        invariant
            i <= v@.len(),
            forall|k: int| 0 <= k < i ==> v@[k] != x,
        decreases v@.len() - i,
    {
        if v[i] == x {
            return true;
        }
        i = i + 1;
    }
    false
}

fn contains_string(v: &Vec<String>, x: &String) -> (r: bool)
    ensures
        r == string_views(v@).contains(x@),
{
    let mut i: usize = 0;
    while i < v.len()
        invariant
            i <= v@.len(),
            forall|k: int| 0 <= k < i ==> v@[k]@ != x@,
        decreases v@.len() - i,
    {
        if v[i] == *x {
            assert(string_views(v@)[i as int] == x@);
            return true;
        }
        i = i + 1;
    }
    assert(!string_views(v@).contains(x@)) by {
        if string_views(v@).contains(x@) {
            let k = choose|k: int| 0 <= k < string_views(v@).len() && string_views(v@)[k] == x@;
            assert(v@[k]@ == x@);
        }
    }
    false
}

/// The menu ids that the user's roles grant.
fn granted_menu_ids(store: &MenuStore, user_id: i64) -> (r: Vec<i64>)
    ensures
        forall|id: i64| r@.contains(id) <==> grants(store.user_roles@, store.role_menus@, user_id, id),
{
    let roles = &store.user_roles;
    let rms = &store.role_menus;
    let mut out: Vec<i64> = Vec::new();
    let mut i: usize = 0;
    while i < roles.len()
        invariant
            i <= roles@.len(),
            forall|id: i64|
                out@.contains(id) <==> exists|a: int, b: int|
                    0 <= a < i && 0 <= b < rms@.len() && roles@[a].user_id == user_id
                        && rms@[b].role_id == roles@[a].role_id && rms@[b].menu_id == id,
        decreases roles@.len() - i,
    {
        let ur = roles[i];
        if ur.user_id == user_id {
            let mut j: usize = 0;
            while j < rms.len()
                invariant
                    i < roles@.len(),
                    ur == roles@[i as int],
                    ur.user_id == user_id,
                    j <= rms@.len(),
                    forall|id: i64|
                        out@.contains(id) <==> (exists|a: int, b: int|
                            0 <= a < i && 0 <= b < rms@.len() && roles@[a].user_id == user_id
                                && rms@[b].role_id == roles@[a].role_id && rms@[b].menu_id == id)
                            || (exists|b: int|
                            0 <= b < j && rms@[b].role_id == ur.role_id && rms@[b].menu_id == id),
                decreases rms@.len() - j,
            {
                let rm = rms[j];
                let ghost prev = out@;
                if rm.role_id == ur.role_id {
                    out.push(rm.menu_id);
                }
                proof {
                    assert forall|id: i64|
                        out@.contains(id) <==> (exists|a: int, b: int|
                            0 <= a < i && 0 <= b < rms@.len() && roles@[a].user_id == user_id
                                && rms@[b].role_id == roles@[a].role_id && rms@[b].menu_id == id)
                            || (exists|b: int|
                            0 <= b < j + 1 && rms@[b].role_id == ur.role_id && rms@[b].menu_id
                                == id) by {
                        if prev.contains(id) {
                            let k = choose|k: int| 0 <= k < prev.len() && prev[k] == id;
                            assert(out@[k] == id);
                        }
                        if out@.contains(id) && !prev.contains(id) {
                            let k = choose|k: int| 0 <= k < out@.len() && out@[k] == id;
                            if k < prev.len() {
                                assert(prev[k] == id);
                            }
                        }
                        if exists|b: int|
                            0 <= b < j + 1 && rms@[b].role_id == ur.role_id && rms@[b].menu_id
                                == id {
                            let b = choose|b: int|
                                0 <= b < j + 1 && rms@[b].role_id == ur.role_id && rms@[b].menu_id
                                    == id;
                            if b == j {
                                assert(out@[out@.len() - 1] == id);
                            }
                        }
                    }
                }
                j = j + 1;
            }
            proof {
                assert forall|id: i64|
                    out@.contains(id) <==> exists|a: int, b: int|
                        0 <= a < i + 1 && 0 <= b < rms@.len() && roles@[a].user_id == user_id
                            && rms@[b].role_id == roles@[a].role_id && rms@[b].menu_id == id by {
                    if exists|a: int, b: int|
                        0 <= a < i + 1 && 0 <= b < rms@.len() && roles@[a].user_id == user_id
                            && rms@[b].role_id == roles@[a].role_id && rms@[b].menu_id == id {
                        let (a, b) = choose|a: int, b: int|
                            0 <= a < i + 1 && 0 <= b < rms@.len() && roles@[a].user_id == user_id
                                && rms@[b].role_id == roles@[a].role_id && rms@[b].menu_id == id;
                        if a == i {
                            assert(rms@[b].role_id == ur.role_id);
                        }
                    }
                }
            }
        }
        i = i + 1;
    }
    out
}


/// For each node of the store, whether it is a candidate for the user.
fn candidate_flags(store: &MenuStore, user_id: i64) -> (r: Vec<bool>)
    ensures
        r@.len() == store.menus@.len(),
        forall|k: int| 0 <= k < r@.len() ==> r@[k] == is_candidate(*store, user_id, store.menus@[k]),
{
    let privileged = user_is_privileged(store, user_id);
    let granted = granted_menu_ids(store, user_id);
    let mut flags: Vec<bool> = Vec::new();
    let mut k: usize = 0;
    while k < store.menus.len()
        invariant
            k <= store.menus@.len(),
            flags@.len() == k,
            privileged == is_privileged(*store, user_id),
            forall|id: i64|
                granted@.contains(id) <==> grants(store.user_roles@, store.role_menus@, user_id, id),
            forall|q: int| 0 <= q < k ==> flags@[q] == is_candidate(*store, user_id, store.menus@[q]),
        decreases store.menus@.len() - k,
    {
        let c = privileged || contains_id(&granted, store.menus[k].id);
        flags.push(c);
        k = k + 1;
    }
    flags
}

/// The ids that the candidate nodes pull in.
fn included_ids(store: &MenuStore, user_id: i64, candidates: &Vec<bool>) -> (r: Vec<i64>)
    requires
        candidates@.len() == store.menus@.len(),
        forall|k: int|
            0 <= k < candidates@.len() ==> candidates@[k] == is_candidate(*store, user_id, store.menus@[k]),
    ensures
        forall|id: i64| r@.contains(id) <==> is_included(*store, user_id, id),
{
    let menus = &store.menus;
    let mut ids: Vec<i64> = Vec::new();
    let mut k: usize = 0;
    while k < menus.len()
        invariant
            k <= menus@.len(),
            candidates@.len() == menus@.len(),
            forall|q: int|
                0 <= q < candidates@.len() ==> candidates@[q] == is_candidate(*store, user_id, menus@[q]),
            forall|id: i64|
                ids@.contains(id) <==> exists|q: int|
                    0 <= q < k && is_candidate(*store, user_id, #[trigger] menus@[q]) && pulls_in(menus@[q], id),
        decreases menus@.len() - k,
    {
        let m = &menus[k];
        let ghost prev = ids@;
        if candidates[k] && m.menu_type != MenuType::Button {
            ids.push(m.id);
            proof { lemma_push_contains(prev, m.id); }
            let ghost mid = ids@;
            ids.push(m.parent_id);
            proof { lemma_push_contains(mid, m.parent_id); }
        }
        proof {
            assert forall|id: i64|
                ids@.contains(id) <==> exists|q: int|
                    0 <= q < k + 1 && is_candidate(*store, user_id, #[trigger] menus@[q]) && pulls_in(menus@[q], id) by {
                if exists|q: int|
                    0 <= q < k + 1 && is_candidate(*store, user_id, #[trigger] menus@[q]) && pulls_in(menus@[q], id) {
                    let q = choose|q: int|
                        0 <= q < k + 1 && is_candidate(*store, user_id, #[trigger] menus@[q]) && pulls_in(menus@[q], id);
                    if q < k {
                        assert(prev.contains(id));
                    }
                }
            }
        }
        k = k + 1;
    }
    ids
}


/// For each node, whether it is visible, and the visible nodes in store order.
fn visible_nodes(store: &MenuStore, user_id: i64, included: &Vec<i64>) -> (r: (Vec<bool>, Vec<MenuNode>))
    requires
        forall|id: i64| included@.contains(id) <==> is_included(*store, user_id, id),
    ensures
        r.0@.len() == store.menus@.len(),
        forall|k: int| 0 <= k < r.0@.len() ==> r.0@[k] == is_visible(*store, user_id, store.menus@[k]),
        r.1@ == visible_menus(*store, user_id),
{
    let menus = &store.menus;
    let ghost pred = visible_to(*store, user_id);
    let mut flags: Vec<bool> = Vec::new();
    let mut nodes: Vec<MenuNode> = Vec::new();
    let mut k: usize = 0;
    while k < menus.len()
        invariant
            k <= menus@.len(),
            flags@.len() == k,
            forall|id: i64| included@.contains(id) <==> is_included(*store, user_id, id),
            forall|q: int| 0 <= q < k ==> flags@[q] == is_visible(*store, user_id, menus@[q]),
            pred == visible_to(*store, user_id),
            nodes@ == menus@.subrange(0, k as int).filter(pred),
        decreases menus@.len() - k,
    {
        let m = &menus[k];
        let v = m.status == MenuStatus::Enabled && contains_id(included, m.id);
        flags.push(v);
        if v {
            nodes.push(m.duplicate());
        }
        proof {
            let next = menus@.subrange(0, k + 1);
            assert(next.drop_last() == menus@.subrange(0, k as int));
            assert(next.last() == menus@[k as int]);
            assert(pred(menus@[k as int]) == is_visible(*store, user_id, menus@[k as int]));
            reveal(Seq::filter);
            assert(next.filter(pred) == if v {
                menus@.subrange(0, k as int).filter(pred).push(menus@[k as int])
            } else {
                menus@.subrange(0, k as int).filter(pred)
            });
        }
        k = k + 1;
    }
    assert(menus@.subrange(0, menus@.len() as int) == menus@);
    proof {
        reveal(Seq::filter);
    }
    (flags, nodes)
}

/// Orders the nodes by `sort`, then id, keeping every one of them.
fn sort_by_sort(v: Vec<MenuNode>) -> (r: Vec<MenuNode>)
    ensures
        r@.to_multiset() == v@.to_multiset(),
        sorted_by_sort(r@),
        ordered_by_sort_then_id(r@),
{
    let mut out: Vec<MenuNode> = Vec::new();
    let mut i: usize = 0;
    while i < v.len()
        invariant
            i <= v@.len(),
            out@.to_multiset() == v@.subrange(0, i as int).to_multiset(),
            ordered_by_sort_then_id(out@),
        decreases v@.len() - i,
    {
        let x = v[i].duplicate();
        let mut p: usize = 0;
        while p < out.len() && (out[p].sort < x.sort || (out[p].sort == x.sort && out[p].id <= x.id))
            invariant
                p <= out@.len(),
                forall|q: int| 0 <= q < p ==> precedes(out@[q], x),
            decreases out@.len() - p,
        {
            p = p + 1;
        }
        let ghost prev = out@;
        out.insert(p, x);
        proof {
            assert(v@.subrange(0, i + 1) == v@.subrange(0, i as int).push(v@[i as int]));
            assert forall|a: int, b: int| 0 <= a <= b < out@.len() implies precedes(out@[a], out@[b]) by {
                if b > p as int && a < p as int {
                    assert(precedes(prev[a], x));
                    assert(!precedes(prev[p as int], x));
                    assert(precedes(prev[p as int], prev[b - 1]));
                } else if b > p as int && a == p as int {
                    assert(!precedes(prev[p as int], x));
                    assert(precedes(prev[p as int], prev[b - 1]));
                } else if b > p as int {
                    assert(precedes(prev[a - 1], prev[b - 1]));
                }
            }
        }
        i = i + 1;
    }
    assert(v@.subrange(0, v@.len() as int) == v@);
    assert(sorted_by_sort(out@)) by {
        assert forall|a: int, b: int| 0 <= a <= b < out@.len() implies out@[a].sort <= out@[b].sort by {
            assert(precedes(out@[a], out@[b]));
        }
    }
    out
}

/// The non-empty api urls of the nodes that are candidates or visible, each once.
fn collect_button_urls(store: &MenuStore, user_id: i64, candidates: &Vec<bool>, visible: &Vec<bool>) -> (r: Vec<String>)
    requires
        candidates@.len() == store.menus@.len(),
        visible@.len() == store.menus@.len(),
        forall|k: int|
            0 <= k < candidates@.len() ==> candidates@[k] == is_candidate(*store, user_id, store.menus@[k]),
        forall|k: int|
            0 <= k < visible@.len() ==> visible@[k] == is_visible(*store, user_id, store.menus@[k]),
    ensures
        string_views(r@).no_duplicates(),
        forall|u: Seq<char>| string_views(r@).contains(u) <==> #[trigger] is_button_url(*store, user_id, u),
{
    let menus = &store.menus;
    let mut urls: Vec<String> = Vec::new();
    let mut k: usize = 0;
    while k < menus.len()
        invariant
            k <= menus@.len(),
            candidates@.len() == menus@.len(),
            visible@.len() == menus@.len(),
            forall|q: int|
                0 <= q < candidates@.len() ==> candidates@[q] == is_candidate(*store, user_id, menus@[q]),
            forall|q: int|
                0 <= q < visible@.len() ==> visible@[q] == is_visible(*store, user_id, menus@[q]),
            string_views(urls@).no_duplicates(),
            forall|u: Seq<char>|
                string_views(urls@).contains(u) <==> u.len() > 0 && exists|q: int|
                    0 <= q < k && (is_candidate(*store, user_id, #[trigger] menus@[q])
                        || is_visible(*store, user_id, menus@[q])) && menus@[q].api_url@ == u,
        decreases menus@.len() - k,
    {
        let m = &menus[k];
        let ghost prev = string_views(urls@);
        if (candidates[k] || visible[k]) && !m.api_url.as_str().is_empty() && !contains_string(&urls, &m.api_url) {
            urls.push(m.api_url.clone());
            proof {
                assert(string_views(urls@) == prev.push(m.api_url@));
                lemma_push_contains(prev, m.api_url@);
            }
        }
        proof {
            assert forall|u: Seq<char>|
                string_views(urls@).contains(u) <==> u.len() > 0 && exists|q: int|
                    0 <= q < k + 1 && (is_candidate(*store, user_id, #[trigger] menus@[q])
                        || is_visible(*store, user_id, menus@[q])) && menus@[q].api_url@ == u by {
                if u.len() > 0 && exists|q: int|
                    0 <= q < k + 1 && (is_candidate(*store, user_id, #[trigger] menus@[q])
                        || is_visible(*store, user_id, menus@[q])) && menus@[q].api_url@ == u {
                    let q = choose|q: int|
                        0 <= q < k + 1 && (is_candidate(*store, user_id, #[trigger] menus@[q])
                            || is_visible(*store, user_id, menus@[q])) && menus@[q].api_url@ == u;
                    if q < k {
                        assert(prev.contains(u));
                    }
                }
            }
        }
        k = k + 1;
    }
    urls
}

/// Resolves what the user may see and call: the menu tree and the button urls.
pub fn resolve_user_permissions(store: &MenuStore, user_id: i64) -> (r: Permissions)
    ensures
        resolves_to(*store, user_id, r),
{
    let candidates = candidate_flags(store, user_id);
    let included = included_ids(store, user_id, &candidates);
    let (visible, nodes) = visible_nodes(store, user_id, &included);
    let menu_tree = sort_by_sort(nodes);
    let button_urls = collect_button_urls(store, user_id, &candidates, &visible);
    Permissions { menu_tree, button_urls }
}


/// A member of the privileged role gets every non-empty api url of the store
/// as a button url, whatever the role grants say.
pub proof fn lemma_privileged_gets_all_urls(store: MenuStore, user_id: i64, p: Permissions)
    requires
        is_privileged(store, user_id),
        resolves_to(store, user_id, p),
    ensures
        forall|u: Seq<char>|
            #[trigger] string_views(p.button_urls@).contains(u) <==> u.len() > 0 && exists|k: int|
                0 <= k < store.menus@.len() && store.menus@[k].api_url@ == u,
{
    assert forall|u: Seq<char>|
        #[trigger] string_views(p.button_urls@).contains(u) <==> u.len() > 0 && exists|k: int|
            0 <= k < store.menus@.len() && store.menus@[k].api_url@ == u by {
        assert(string_views(p.button_urls@).contains(u) <==> is_button_url(store, user_id, u));
        if u.len() > 0 && exists|k: int| 0 <= k < store.menus@.len() && store.menus@[k].api_url@ == u {
            let k = choose|k: int| 0 <= k < store.menus@.len() && store.menus@[k].api_url@ == u;
            assert(is_candidate(store, user_id, store.menus@[k]));
        }
    }
}

/// A user who is not privileged and whose roles grant no node gets no
/// button url and an empty menu tree.
pub proof fn lemma_no_grants_no_permissions(store: MenuStore, user_id: i64, p: Permissions)
    requires
        !is_privileged(store, user_id),
        forall|id: i64| !grants(store.user_roles@, store.role_menus@, user_id, id),
        resolves_to(store, user_id, p),
    ensures
        p.button_urls@.len() == 0,
        p.menu_tree@.len() == 0,
{
    assert forall|id: i64| !is_included(store, user_id, id) by {}
    let pred = visible_to(store, user_id);
    assert forall|k: int| 0 <= k < store.menus@.len() implies !pred(store.menus@[k]) by {}
    store.menus@.lemma_all_neg_filter_empty(pred);
    if p.button_urls@.len() > 0 {
        let u = string_views(p.button_urls@)[0];
        assert(string_views(p.button_urls@).contains(u));
        assert(is_button_url(store, user_id, u));
    }
    if p.menu_tree@.len() > 0 {
        assert(p.menu_tree@.to_multiset().count(p.menu_tree@[0]) > 0);
    }
}

proof fn lemma_filter_within(s: Seq<MenuNode>, pred: spec_fn(MenuNode) -> bool, a: MenuNode)
    requires
        s.filter(pred).contains(a),
    ensures
        s.contains(a),
    decreases s.len(),
{
    reveal(Seq::filter);
    if s.len() > 0 {
        let d = s.drop_last();
        if d.filter(pred).contains(a) {
            lemma_filter_within(d, pred, a);
            let k = choose|k: int| 0 <= k < d.len() && d[k] == a;
            assert(s[k] == a);
        } else {
            assert(a == s.last());
        }
    }
}

proof fn lemma_ordered_unique(x: Seq<MenuNode>, y: Seq<MenuNode>)
    requires
        ordered_by_sort_then_id(x),
        ordered_by_sort_then_id(y),
        x.to_multiset() == y.to_multiset(),
        forall|a: MenuNode, b: MenuNode|
            x.to_multiset().contains(a) && x.to_multiset().contains(b) && a.id == b.id ==> a == b,
    ensures
        x == y,
    decreases x.len(),
{
    broadcast use vstd::multiset::group_multiset_axioms;

    if x.len() == 0 || y.len() == 0 {
        assert(x.to_multiset().len() == 0 && y.to_multiset().len() == 0);
        assert(x =~= y);
    } else {
        assert(x.to_multiset().contains(x[0]));
        assert(y.to_multiset().contains(y[0]));
        let i = choose|i: int| 0 <= i < x.len() && x[i] == y[0];
        let j = choose|j: int| 0 <= j < y.len() && y[j] == x[0];
        assert(precedes(x[0], x[i]));
        assert(precedes(y[0], y[j]));
        assert(x[0] == y[0]);
        vstd::seq_lib::to_multiset_remove(x, 0);
        vstd::seq_lib::to_multiset_remove(y, 0);
        assert(x.remove(0) =~= x.drop_first());
        assert(y.remove(0) =~= y.drop_first());
        assert forall|a: MenuNode, b: MenuNode|
            x.drop_first().to_multiset().contains(a) && x.drop_first().to_multiset().contains(b) && a.id == b.id implies a == b by {
            assert(x.to_multiset().contains(a));
            assert(x.to_multiset().contains(b));
        }
        assert(ordered_by_sort_then_id(x.drop_first()));
        assert(ordered_by_sort_then_id(y.drop_first()));
        lemma_ordered_unique(x.drop_first(), y.drop_first());
        assert(x =~= seq![x[0]] + x.drop_first());
        assert(y =~= seq![y[0]] + y.drop_first());
    }
}

/// Over a store whose ids are unique, resolving twice for one user gives the
/// same menu tree and the same set of button urls.
pub proof fn lemma_resolution_idempotent(store: MenuStore, user_id: i64, p1: Permissions, p2: Permissions)
    requires
        ids_unique(store.menus@),
        resolves_to(store, user_id, p1),
        resolves_to(store, user_id, p2),
    ensures
        p1.menu_tree@ == p2.menu_tree@,
        string_views(p1.button_urls@).to_set() == string_views(p2.button_urls@).to_set(),
{
    let v = visible_menus(store, user_id);
    assert forall|a: MenuNode, b: MenuNode|
        p1.menu_tree@.to_multiset().contains(a) && p1.menu_tree@.to_multiset().contains(b) && a.id == b.id implies a == b by {
        assert(v.contains(a));
        assert(v.contains(b));
        lemma_filter_within(store.menus@, visible_to(store, user_id), a);
        lemma_filter_within(store.menus@, visible_to(store, user_id), b);
        let i = choose|i: int| 0 <= i < store.menus@.len() && store.menus@[i] == a;
        let j = choose|j: int| 0 <= j < store.menus@.len() && store.menus@[j] == b;
    }
    lemma_ordered_unique(p1.menu_tree@, p2.menu_tree@);
    assert forall|u: Seq<char>|
        string_views(p1.button_urls@).to_set().contains(u) <==> string_views(p2.button_urls@).to_set().contains(u) by {
        assert(string_views(p1.button_urls@).contains(u) <==> is_button_url(store, user_id, u));
        assert(string_views(p2.button_urls@).contains(u) <==> is_button_url(store, user_id, u));
    }
    assert(string_views(p1.button_urls@).to_set() =~= string_views(p2.button_urls@).to_set());
}

} // verus!
