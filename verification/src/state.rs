//! The navigation state: a scanned root tree plus a cursor into it.
//!
//! The cursor is a stack of child indices leading from the root to the
//! currently open directory; an empty stack means the root itself is open.
//! Stepping into a directory child pushes its index; stepping out pops one
//! and reports where the left directory sits among its siblings, so a
//! selection cursor can be restored. An invalid step index snaps the cursor
//! back to the root as recovery.
use crate::node::{children_of, name_of, real_of, wf_node, Node};
use crate::rows::{
    items_view, node_ref_to_size_items, node_rows, subnodes_to_size_items, SizeItem,
};
use vstd::prelude::*;

verus! {

/// The index path `p[i..]` only steps through directories, within bounds.
pub open spec fn path_ok(n: Node, p: Seq<usize>, i: int) -> bool
    decreases p.len() - i,
{
    if i >= p.len() {
        true
    } else {
        &&& n is Dir
        &&& (p[i] as int) < children_of(n).len()
        &&& children_of(n)[p[i] as int] is Dir
        &&& path_ok(children_of(n)[p[i] as int], p, i + 1)
    }
}

/// The node reached from `n` along the index path `p[i..]`.
pub open spec fn node_at(n: Node, p: Seq<usize>, i: int) -> Node
    decreases p.len() - i,
{
    if i >= p.len() {
        n
    } else {
        node_at(children_of(n)[p[i] as int], p, i + 1)
    }
}

/// Whether two nodes count as the same entry when a left directory is looked
/// up among its siblings: same name and same logical size.
pub open spec fn match_of(a: Node, b: Node) -> bool {
    name_of(a) == name_of(b) && real_of(a) == real_of(b)
}

/// The first index at or after `i` whose node matches `sub`; 0 when none does.
pub open spec fn first_match(sub: Node, s: Seq<Node>, i: int) -> int
    decreases s.len() - i,
{
    if i < 0 || i >= s.len() {
        0
    } else if match_of(sub, s[i]) {
        i
    } else {
        first_match(sub, s, i + 1)
    }
}

/// Where `sub` is found among the children of `node` by (name, logical size)
/// matching; 0 when `node` is a file or nothing matches.
pub open spec fn index_of_subnode(sub: Node, node: Node) -> int {
    if node is Dir {
        first_match(sub, children_of(node), 0)
    } else {
        0
    }
}

proof fn lemma_path_push(n: Node, p: Seq<usize>, i: int, j: usize)
    requires
        0 <= i <= p.len(),
        path_ok(n, p, i),
        node_at(n, p, i) is Dir,
        (j as int) < children_of(node_at(n, p, i)).len(),
        children_of(node_at(n, p, i))[j as int] is Dir,
    ensures
        path_ok(n, p.push(j), i),
        node_at(n, p.push(j), i) == children_of(node_at(n, p, i))[j as int],
    decreases p.len() - i,
{
    if i >= p.len() {
        assert(p.push(j)[i] == j);
        assert(path_ok(children_of(n)[j as int], p.push(j), i + 1));
        assert(node_at(children_of(n)[j as int], p.push(j), i + 1) == children_of(n)[j as int]);
    } else {
        assert(p.push(j)[i] == p[i]);
        lemma_path_push(children_of(n)[p[i] as int], p, i + 1, j);
    }
}

proof fn lemma_path_pop(n: Node, p: Seq<usize>, i: int)
    requires
        0 <= i < p.len(),
        path_ok(n, p, i),
    ensures
        path_ok(n, p.drop_last(), i),
        node_at(n, p.drop_last(), i) is Dir,
        (p.last() as int) < children_of(node_at(n, p.drop_last(), i)).len(),
        node_at(n, p, i) == children_of(node_at(n, p.drop_last(), i))[p.last() as int],
    decreases p.len() - i,
{
    if i == p.len() - 1 {
        assert(p.drop_last().len() == i);
        assert(p[i] == p.last());
        assert(node_at(children_of(n)[p[i] as int], p, i + 1) == children_of(n)[p[i] as int]);
    } else {
        assert(p.drop_last()[i] == p[i]);
        lemma_path_pop(children_of(n)[p[i] as int], p, i + 1);
    }
}

proof fn lemma_first_match_prefix(sub: Node, s: Seq<Node>, a: int, b: int)
    requires
        0 <= a <= b <= s.len(),
        forall|j: int| a <= j < b ==> !match_of(sub, #[trigger] s[j]),
    ensures
        first_match(sub, s, a) == first_match(sub, s, b),
    decreases b - a,
{
    if a < b {
        lemma_first_match_prefix(sub, s, a + 1, b);
    }
}

/// Resolves the node an index path leads to.
fn node_at_ref<'a>(n: &'a Node, p: &Vec<usize>, i: usize) -> (r: &'a Node)
    requires
        i <= p@.len(),
        path_ok(*n, p@, i as int),
    ensures
        *r == node_at(*n, p@, i as int),
    decreases p@.len() - i,
{
    if i >= p.len() {
        n
    } else {
        match n {
            Node::Dir { nodes, .. } => node_at_ref(&nodes[p[i]], p, i + 1),
            Node::File { .. } => {
                proof {
                    assert(false);
                }
                n
            },
        }
    }
}

/// The scanned tree and the cursor of the currently open directory.
pub struct AppState {
    root: Node,
    navigation: Vec<usize>,
}

impl AppState {
    /// The installed root tree.
    pub closed spec fn root_node(&self) -> Node {
        self.root
    }

    /// The cursor: child indices from the root to the open directory.
    pub closed spec fn nav(&self) -> Seq<usize> {
        self.navigation@
    }

    /// A valid state: a well-formed tree, and a cursor that only steps
    /// through directories, within bounds.
    pub open spec fn wf(&self) -> bool {
        &&& wf_node(self.root_node())
        &&& path_ok(self.root_node(), self.nav(), 0)
    }

    /// The currently open node: the root when the cursor is empty.
    pub open spec fn current(&self) -> Node {
        node_at(self.root_node(), self.nav(), 0)
    }

    /// A fresh state: an empty placeholder root and a cursor at the root.
    pub fn new() -> (r: AppState)
        ensures
            r.wf(),
            r.nav().len() == 0,
            r.root_node() is Dir,
            name_of(r.root_node()) == "{root node}"@,
            children_of(r.root_node()).len() == 0,
    {
        AppState {
            root: Node::Dir {
                name: String::from_str("{root node}"),
                nodes: Vec::new(),
                size_on_disk: 0,
                size_real: 0,
            },
            navigation: Vec::new(),
        }
    }

    /// Installs a freshly scanned tree as the root, resets the cursor to the
    /// root, and returns the root's view rows.
    pub fn scan_root_from(&mut self, root: Node) -> (items: Vec<SizeItem>)
        requires
            wf_node(root),
        ensures
            final(self).wf(),
            final(self).root_node() == root,
            final(self).nav().len() == 0,
            items_view(items@) == node_rows(root),
    {
        self.root = root;
        self.navigation.clear();
        self.root_size_items()
    }

    /// The view rows of the root node.
    pub fn root_size_items(&self) -> (items: Vec<SizeItem>)
        ensures
            items_view(items@) == node_rows(self.root_node()),
    {
        node_ref_to_size_items(&self.root)
    }

    /// Resets the cursor to the root and returns the root's view rows: the
    /// recovery action after an invalid step.
    pub fn clear_navigation_and_return_to_root(&mut self) -> (items: Vec<SizeItem>)
        ensures
            final(self).root_node() == old(self).root_node(),
            final(self).nav().len() == 0,
            wf_node(old(self).root_node()) ==> final(self).wf(),
            items_view(items@) == node_rows(old(self).root_node()),
    {
        self.navigation.clear();
        self.root_size_items()
    }

    /// The currently open node, the root when the cursor is empty.
    pub fn current_node(&self) -> (r: &Node)
        requires
            self.wf(),
        ensures
            *r == self.current(),
    {
        node_at_ref(&self.root, &self.navigation, 0)
    }

    /// The child of the open directory at `index`, or an error for an index
    /// that is negative or out of range.
    ///
    /// The open node being a file would mean the cursor was corrupted by an
    /// earlier bug; callers must never reach this function in such a state,
    /// which the precondition rules out.
    pub fn subnode_with_index(&self, index: i32) -> (r: Result<&Node, &'static str>)
        requires
            self.wf(),
            index >= 0 ==> self.current() is Dir,
        ensures
            r is Ok <==> 0 <= index && (index as int) < children_of(self.current()).len(),
            r matches Ok(node) ==> *node == children_of(self.current())[index as int],
    {
        if index < 0 {
            return Result::Err(
                "On step into operation, attempting to step into element outside of elements size, ignoring.",
            );
        }
        let current_node = self.current_node();
        match current_node {
            Node::File { .. } => {
                proof {
                    assert(false);
                }
                Result::Err("On step into operation, current node appears to be a file rather than a dir.")
            },
            Node::Dir { nodes, .. } => {
                if index as usize >= nodes.len() {
                    Result::Err(
                        "On step into operation, attempting to step into element outside of elements size, ignoring.",
                    )
                } else {
                    Result::Ok(&nodes[index as usize])
                }
            },
        }
    }

    /// Opens the child directory at `index` and returns its view rows.
    ///
    /// An index that is negative or out of range resets the cursor to the
    /// root and returns the root's rows as recovery. A child that is a file
    /// is refused: the state is left unchanged and `None` signals the no-op.
    ///
    /// The open node being a file would mean the cursor was corrupted by an
    /// earlier bug; callers must never call with a non-negative index in such
    /// a state, which the precondition rules out.
    pub fn step_into(&mut self, index: i32) -> (r: Option<Vec<SizeItem>>)
        requires
            old(self).wf(),
            index >= 0 ==> old(self).current() is Dir,
        ensures
            final(self).wf(),
            final(self).root_node() == old(self).root_node(),
            ({
                let cur = old(self).current();
                if index < 0 || index as int >= children_of(cur).len() {
                    &&& final(self).nav().len() == 0
                    &&& r matches Some(items) && items_view(items@) == node_rows(
                        old(self).root_node(),
                    )
                } else if children_of(cur)[index as int] is File {
                    &&& *final(self) == *old(self)
                    &&& r is None
                } else {
                    &&& final(self).nav() == old(self).nav().push(index as usize)
                    &&& final(self).current() == children_of(cur)[index as int]
                    &&& r matches Some(items) && items_view(items@) == node_rows(
                        children_of(cur)[index as int],
                    )
                }
            }),
    {
        let target_found: bool;
        let target_is_file: bool;
        match self.subnode_with_index(index) {
            Result::Err(_) => {
                target_found = false;
                target_is_file = false;
            },
            Result::Ok(target) => {
                target_found = true;
                target_is_file = target.is_file();
            },
        }
        if !target_found {
            return Some(self.clear_navigation_and_return_to_root());
        }
        if target_is_file {
            return None;
        }
        proof {
            lemma_path_push(self.root, self.navigation@, 0, index as usize);
        }
        self.navigation.push(index as usize);
        let child = node_at_ref(&self.root, &self.navigation, 0);
        match child {
            Node::Dir { nodes, .. } => Some(subnodes_to_size_items(nodes)),
            Node::File { .. } => {
                proof {
                    assert(false);
                }
                None
            },
        }
    }

    /// Closes the currently open directory and returns to its parent,
    /// reporting where the left directory sits among the parent's children —
    /// matched by (name, logical size) — together with the parent's view
    /// rows. At the root there is nothing to leave: `None` signals the no-op.
    pub fn step_out(&mut self) -> (r: Option<(usize, Vec<SizeItem>)>)
        requires
            old(self).wf(),
        ensures
            final(self).wf(),
            final(self).root_node() == old(self).root_node(),
            old(self).nav().len() == 0 ==> *final(self) == *old(self) && r is None,
            old(self).nav().len() > 0 ==> {
                &&& final(self).nav() == old(self).nav().drop_last()
                &&& r matches Some((restore_index, items)) && {
                    &&& restore_index as int == index_of_subnode(
                        old(self).current(),
                        final(self).current(),
                    )
                    &&& items_view(items@) == node_rows(final(self).current())
                }
            },
    {
        if self.navigation.len() == 0 {
            return None;
        }
        proof {
            lemma_path_pop(self.root, self.navigation@, 0);
        }
        let ghost old_nav = self.navigation@;
        let popped_index = self.navigation[self.navigation.len() - 1];
        self.navigation.pop();
        proof {
            assert(self.navigation@ =~= old_nav.drop_last());
        }
        let one_up = node_at_ref(&self.root, &self.navigation, 0);
        match one_up {
            Node::Dir { nodes, .. } => {
                let index = index_of_subnode_in_node(&nodes[popped_index], nodes);
                let items = subnodes_to_size_items(nodes);
                Some((index, items))
            },
            Node::File { .. } => {
                proof {
                    assert(false);
                }
                None
            },
        }
    }
}

/// The first position of `subnode` among `nodes`, matched by (name, logical
/// size) equality; 0 when nothing matches.
fn index_of_subnode_in_node(subnode: &Node, nodes: &Vec<Node>) -> (r: usize)
    ensures
        r as int == first_match(*subnode, nodes@, 0),
{
    let sub_name = subnode.name();
    let sub_size = subnode.size_real();
    let mut index: usize = 0;
    while index < nodes.len()
        invariant
            index <= nodes@.len(),
            sub_name@ == name_of(*subnode),
            sub_size == real_of(*subnode),
            forall|j: int| 0 <= j < index ==> !match_of(*subnode, #[trigger] nodes@[j]),
        decreases nodes@.len() - index,
    {
        let node_name = nodes[index].name();
        if sub_name.eq(&node_name) && sub_size == nodes[index].size_real() {
            proof {
                lemma_first_match_prefix(*subnode, nodes@, 0, index as int);
            }
            return index;
        }
        index = index + 1;
    }
    proof {
        lemma_first_match_prefix(*subnode, nodes@, 0, nodes@.len() as int);
    }
    0
}

/// Navigation round-trip: stepping into the directory child at `i` and
/// immediately out returns to the starting cursor, and the reported restore
/// index equals `i` whenever no two siblings of the open directory share the
/// same (name, logical size) pair.
pub proof fn lemma_navigation_round_trip(root: Node, nav: Seq<usize>, i: usize)
    requires
        wf_node(root),
        path_ok(root, nav, 0),
        node_at(root, nav, 0) is Dir,
        (i as int) < children_of(node_at(root, nav, 0)).len(),
        children_of(node_at(root, nav, 0))[i as int] is Dir,
        forall|j: int, k: int|
            0 <= j < children_of(node_at(root, nav, 0)).len() && 0 <= k < children_of(
                node_at(root, nav, 0),
            ).len() && j != k ==> !match_of(
                #[trigger] children_of(node_at(root, nav, 0))[j],
                #[trigger] children_of(node_at(root, nav, 0))[k],
            ),
    ensures
        path_ok(root, nav.push(i), 0),
        node_at(root, nav.push(i), 0) == children_of(node_at(root, nav, 0))[i as int],
        nav.push(i).drop_last() == nav,
        index_of_subnode(
            children_of(node_at(root, nav, 0))[i as int],
            node_at(root, nav, 0),
        ) == i as int,
        node_rows(node_at(root, nav.push(i).drop_last(), 0)) == node_rows(
            node_at(root, nav, 0),
        ),
{
    let cur = node_at(root, nav, 0);
    let child = children_of(cur)[i as int];
    lemma_path_push(root, nav, 0, i);
    assert(nav.push(i).drop_last() =~= nav);
    assert(match_of(child, child));
    assert(forall|j: int| 0 <= j < i ==> !match_of(child, #[trigger] children_of(cur)[j]));
    lemma_first_match_prefix(child, children_of(cur), 0, i as int);
    assert(first_match(child, children_of(cur), i as int) == i as int);
}

} // verus!
