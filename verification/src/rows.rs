//! View projection: one node's children (or a lone file) flattened into
//! display rows.
//!
//! A row carries the child's name, a combined human-readable size string, and
//! its two sizes normalized against the largest sibling size. The normalized
//! values are kept as exact numerator/denominator pairs whose denominator is
//! at least 1, so every fraction denotes a value between zero and one;
//! turning them into floating-point fractions is left to the presentation
//! shell.
use crate::node::{children_of, disk_of, name_of, real_of, Node};
use crate::readable::{readable_size, readable_view};
use vstd::prelude::*;
use vstd::string::StringExecFns;

verus! {

/// An exact fraction `numerator / denominator`, normalizing one size against
/// the largest sibling size.
#[derive(Debug, PartialEq, Eq)]
pub struct Ratio {
    pub numerator: u64,
    pub denominator: u64,
}

/// The mathematical value of a [`Ratio`].
pub struct RatioView {
    pub numerator: int,
    pub denominator: int,
}

impl View for Ratio {
    type V = RatioView;

    open spec fn view(&self) -> RatioView {
        RatioView { numerator: self.numerator as int, denominator: self.denominator as int }
    }
}

/// One display row of the projected view.
#[derive(Debug, PartialEq, Eq)]
pub struct SizeItem {
    pub name: String,
    pub size_string: String,
    pub relative_real_size: Ratio,
    pub relative_disk_size: Ratio,
    pub is_file: bool,
}

/// The mathematical value of a [`SizeItem`].
pub struct SizeItemView {
    pub name: Seq<char>,
    pub size_string: Seq<char>,
    pub relative_real_size: RatioView,
    pub relative_disk_size: RatioView,
    pub is_file: bool,
}

impl View for SizeItem {
    type V = SizeItemView;

    open spec fn view(&self) -> SizeItemView {
        SizeItemView {
            name: self.name@,
            size_string: self.size_string@,
            relative_real_size: self.relative_real_size@,
            relative_disk_size: self.relative_disk_size@,
            is_file: self.is_file,
        }
    }
}

/// The views of a row vector.
pub open spec fn items_view(v: Seq<SizeItem>) -> Seq<SizeItemView> {
    v.map_values(|it: SizeItem| it@)
}

/// The denominator rows normalize their logical sizes by: the largest
/// logical size among the nodes, and at least 1 — an empty list and an
/// all-zero list both normalize against 1, so a ratio never divides by zero.
pub open spec fn max_real_of(s: Seq<Node>) -> int
    decreases s.len(),
{
    if s.len() == 0 {
        1
    } else if s.len() == 1 {
        if real_of(s[0]) >= 1 {
            real_of(s[0]) as int
        } else {
            1
        }
    } else if real_of(s.last()) as int >= max_real_of(s.drop_last()) {
        real_of(s.last()) as int
    } else {
        max_real_of(s.drop_last())
    }
}

/// The denominator rows normalize their on-disk sizes by: the largest
/// on-disk size among the nodes, and at least 1.
pub open spec fn max_disk_of(s: Seq<Node>) -> int
    decreases s.len(),
{
    if s.len() == 0 {
        1
    } else if s.len() == 1 {
        if disk_of(s[0]) >= 1 {
            disk_of(s[0]) as int
        } else {
            1
        }
    } else if disk_of(s.last()) as int >= max_disk_of(s.drop_last()) {
        disk_of(s.last()) as int
    } else {
        max_disk_of(s.drop_last())
    }
}

/// The combined size string of a row: logical size, then on-disk size.
pub open spec fn combined_size_string(size_real: u64, size_on_disk: u64) -> Seq<char> {
    readable_view(size_real as nat) + " ("@ + readable_view(size_on_disk as nat) + " on disk)"@
}

/// The row of one child among siblings whose largest sizes are `max_real` and
/// `max_disk`.
pub open spec fn sibling_row(n: Node, max_real: int, max_disk: int) -> SizeItemView {
    SizeItemView {
        name: name_of(n),
        size_string: combined_size_string(real_of(n), disk_of(n)),
        relative_real_size: RatioView { numerator: real_of(n) as int, denominator: max_real },
        relative_disk_size: RatioView { numerator: disk_of(n) as int, denominator: max_disk },
        is_file: n is File,
    }
}

/// The rows of a child list, in order, normalized against the largest sizes.
pub open spec fn children_rows(s: Seq<Node>) -> Seq<SizeItemView> {
    Seq::new(s.len(), |i: int| sibling_row(s[i], max_real_of(s), max_disk_of(s)))
}

/// The single row of a file viewed on its own: only the logical size is
/// shown, and the relative sizes are fixed at one.
pub open spec fn lone_file_row(n: Node) -> SizeItemView {
    SizeItemView {
        name: name_of(n),
        size_string: readable_view(real_of(n) as nat),
        relative_real_size: RatioView { numerator: 1, denominator: 1 },
        relative_disk_size: RatioView { numerator: 1, denominator: 1 },
        is_file: true,
    }
}

/// The rows a node presents: its children's rows for a directory, one
/// degenerate row for a file.
pub open spec fn node_rows(n: Node) -> Seq<SizeItemView> {
    match n {
        Node::File { .. } => seq![lone_file_row(n)],
        Node::Dir { nodes, .. } => children_rows(nodes@),
    }
}

/// The normalization denominators for a child list: the largest logical and
/// on-disk sizes among the nodes, each at least 1.
fn max_sizes(subnodes: &Vec<Node>) -> (r: (u64, u64))
    ensures
        r.0 as int == max_real_of(subnodes@),
        r.1 as int == max_disk_of(subnodes@),
{
    if subnodes.len() == 0 {
        return (1, 1);
    }
    let mut max_real: u64 = subnodes[0].size_real();
    if max_real == 0 {
        max_real = 1;
    }
    let mut max_disk: u64 = subnodes[0].size_on_disk();
    if max_disk == 0 {
        max_disk = 1;
    }
    let mut i: usize = 1;
    proof {
        assert(subnodes@.take(1).len() == 1);
        assert(subnodes@.take(1)[0] == subnodes@[0]);
    }
    while i < subnodes.len()
        invariant
            1 <= i <= subnodes@.len(),
            max_real as int == max_real_of(subnodes@.take(i as int)),
            max_disk as int == max_disk_of(subnodes@.take(i as int)),
        decreases subnodes@.len() - i,
    {
        proof {
            assert(subnodes@.take(i as int + 1).drop_last() =~= subnodes@.take(i as int));
            assert(subnodes@.take(i as int + 1).last() == subnodes@[i as int]);
        }
        let r = subnodes[i].size_real();
        let d = subnodes[i].size_on_disk();
        if r >= max_real {
            max_real = r;
        }
        if d >= max_disk {
            max_disk = d;
        }
        i = i + 1;
    }
    proof {
        assert(subnodes@.take(subnodes@.len() as int) =~= subnodes@);
    }
    (max_real, max_disk)
}

/// The row of one node among siblings with the given largest sizes.
pub fn node_to_size_item(node: &Node, max_real_size: &u64, max_disk_size: &u64) -> (r: SizeItem)
    ensures
        r@ == sibling_row(*node, *max_real_size as int, *max_disk_size as int),
{
    proof {
        reveal_strlit(" (");
        reveal_strlit(" on disk)");
    }
    let size_real = node.size_real();
    let size_on_disk = node.size_on_disk();
    let mut size_string = readable_size(&size_real);
    size_string.append(" (");
    let disk_string = readable_size(&size_on_disk);
    size_string.append(disk_string.as_str());
    size_string.append(" on disk)");
    proof {
        assert(size_string@ =~= combined_size_string(size_real, size_on_disk));
    }
    SizeItem {
        name: node.name(),
        size_string,
        relative_real_size: Ratio { numerator: size_real, denominator: *max_real_size },
        relative_disk_size: Ratio { numerator: size_on_disk, denominator: *max_disk_size },
        is_file: node.is_file(),
    }
}

/// Projects a child list into its display rows, in order.
pub fn subnodes_to_size_items(subnodes: &Vec<Node>) -> (r: Vec<SizeItem>)
    ensures
        items_view(r@) == children_rows(subnodes@),
{
    let (max_real, max_disk) = max_sizes(subnodes);
    let mut items: Vec<SizeItem> = Vec::new();
    let mut i: usize = 0;
    while i < subnodes.len()
        invariant
            i <= subnodes@.len(),
            items@.len() == i,
            max_real as int == max_real_of(subnodes@),
            max_disk as int == max_disk_of(subnodes@),
            forall|j: int|
                0 <= j < i ==> #[trigger] items@[j]@ == sibling_row(
                    subnodes@[j],
                    max_real_of(subnodes@),
                    max_disk_of(subnodes@),
                ),
        decreases subnodes@.len() - i,
    {
        let item = node_to_size_item(&subnodes[i], &max_real, &max_disk);
        items.push(item);
        i = i + 1;
    }
    proof {
        assert(items_view(items@) =~= children_rows(subnodes@));
    }
    items
}

/// Projects one node into its display rows: the children's rows for a
/// directory, one degenerate row for a file viewed on its own.
pub fn node_ref_to_size_items(node: &Node) -> (r: Vec<SizeItem>)
    ensures
        items_view(r@) == node_rows(*node),
{
    match node {
        Node::File { name, size_real, .. } => {
            let item = SizeItem {
                name: name.clone(),
                size_string: readable_size(size_real),
                relative_real_size: Ratio { numerator: 1, denominator: 1 },
                relative_disk_size: Ratio { numerator: 1, denominator: 1 },
                is_file: true,
            };
            let items = vec![item];
            proof {
                assert(items_view(items@) =~= node_rows(*node));
            }
            items
        },
        Node::Dir { nodes, .. } => {
            let items = subnodes_to_size_items(nodes);
            proof {
                assert(items_view(items@) =~= node_rows(*node));
            }
            items
        },
    }
}

proof fn lemma_max_bounds(s: Seq<Node>)
    requires
        s.len() > 0,
    ensures
        max_real_of(s) >= 1,
        max_disk_of(s) >= 1,
        forall|i: int| 0 <= i < s.len() ==> real_of(#[trigger] s[i]) as int <= max_real_of(s),
        forall|i: int| 0 <= i < s.len() ==> disk_of(#[trigger] s[i]) as int <= max_disk_of(s),
        max_real_of(s) == 1 || exists|i: int|
            0 <= i < s.len() && real_of(#[trigger] s[i]) as int == max_real_of(s),
        max_disk_of(s) == 1 || exists|i: int|
            0 <= i < s.len() && disk_of(#[trigger] s[i]) as int == max_disk_of(s),
    decreases s.len(),
{
    if s.len() == 1 {
        if real_of(s[0]) >= 1 {
            assert(real_of(s[0]) as int == max_real_of(s));
        }
        if disk_of(s[0]) >= 1 {
            assert(disk_of(s[0]) as int == max_disk_of(s));
        }
    } else {
        let s1 = s.drop_last();
        lemma_max_bounds(s1);
        assert(forall|i: int| 0 <= i < s1.len() ==> s1[i] == #[trigger] s[i]);
        if real_of(s.last()) as int >= max_real_of(s1) {
            assert(real_of(s[s.len() - 1]) as int == max_real_of(s));
        } else if max_real_of(s1) != 1 {
            let j = choose|j: int| 0 <= j < s1.len() && real_of(#[trigger] s1[j]) as int
                == max_real_of(s1);
            assert(real_of(s[j]) as int == max_real_of(s));
        }
        if disk_of(s.last()) as int >= max_disk_of(s1) {
            assert(disk_of(s[s.len() - 1]) as int == max_disk_of(s));
        } else if max_disk_of(s1) != 1 {
            let j = choose|j: int| 0 <= j < s1.len() && disk_of(#[trigger] s1[j]) as int
                == max_disk_of(s1);
            assert(disk_of(s[j]) as int == max_disk_of(s));
        }
    }
}

/// Every relative size of a projected view lies between zero and one: its
/// denominator is at least 1 and its numerator never exceeds it. In each
/// dimension, whenever some child has a nonzero size, the row of the largest
/// child attains the denominator exactly.
pub proof fn lemma_relative_size_bounds(s: Seq<Node>)
    requires
        s.len() > 0,
    ensures
        forall|i: int|
            0 <= i < children_rows(s).len() ==> {
                &&& 0 <= #[trigger] children_rows(s)[i].relative_real_size.numerator
                    <= children_rows(s)[i].relative_real_size.denominator
                &&& 0 <= children_rows(s)[i].relative_disk_size.numerator <= children_rows(
                    s,
                )[i].relative_disk_size.denominator
                &&& children_rows(s)[i].relative_real_size.denominator >= 1
                &&& children_rows(s)[i].relative_disk_size.denominator >= 1
            },
        (exists|i: int| 0 <= i < s.len() && real_of(#[trigger] s[i]) >= 1) ==> exists|i: int|
            0 <= i < children_rows(s).len() && #[trigger] children_rows(
                s,
            )[i].relative_real_size.numerator == children_rows(s)[i].relative_real_size.denominator,
        (exists|i: int| 0 <= i < s.len() && disk_of(#[trigger] s[i]) >= 1) ==> exists|i: int|
            0 <= i < children_rows(s).len() && #[trigger] children_rows(
                s,
            )[i].relative_disk_size.numerator == children_rows(s)[i].relative_disk_size.denominator,
{
    lemma_max_bounds(s);
    if exists|i: int| 0 <= i < s.len() && real_of(#[trigger] s[i]) >= 1 {
        let wr = if max_real_of(s) == 1 {
            // the largest size is 1 exactly: a nonzero child attains it
            choose|i: int| 0 <= i < s.len() && real_of(#[trigger] s[i]) >= 1
        } else {
            choose|i: int| 0 <= i < s.len() && real_of(#[trigger] s[i]) as int == max_real_of(s)
        };
        assert(real_of(s[wr]) as int == max_real_of(s));
        assert(children_rows(s)[wr].relative_real_size.numerator == children_rows(
            s,
        )[wr].relative_real_size.denominator);
    }
    if exists|i: int| 0 <= i < s.len() && disk_of(#[trigger] s[i]) >= 1 {
        let wd = if max_disk_of(s) == 1 {
            choose|i: int| 0 <= i < s.len() && disk_of(#[trigger] s[i]) >= 1
        } else {
            choose|i: int| 0 <= i < s.len() && disk_of(#[trigger] s[i]) as int == max_disk_of(s)
        };
        assert(disk_of(s[wd]) as int == max_disk_of(s));
        assert(children_rows(s)[wd].relative_disk_size.numerator == children_rows(
            s,
        )[wd].relative_disk_size.denominator);
    }
}

/// Two nodes that present the same data: same name, same sizes, same kind.
pub open spec fn same_surface(a: Node, b: Node) -> bool {
    &&& name_of(a) == name_of(b)
    &&& real_of(a) == real_of(b)
    &&& disk_of(a) == disk_of(b)
    &&& (a is File <==> b is File)
}

proof fn lemma_max_same(s: Seq<Node>, t: Seq<Node>)
    requires
        s.len() == t.len(),
        forall|i: int| 0 <= i < s.len() ==> same_surface(#[trigger] s[i], t[i]),
    ensures
        max_real_of(s) == max_real_of(t),
        max_disk_of(s) == max_disk_of(t),
    decreases s.len(),
{
    if s.len() <= 1 {
    } else {
        lemma_max_same(s.drop_last(), t.drop_last());
        assert(forall|i: int| 0 <= i < s.len() - 1 ==> s.drop_last()[i] == #[trigger] s[i]);
        assert(forall|i: int| 0 <= i < t.len() - 1 ==> t.drop_last()[i] == #[trigger] t[i]);
    }
}

/// Idempotent rescan: two scans of an unchanged directory tree build nodes
/// that present the same data in the same order — the builders are functions
/// of what was read — and two such nodes project element-wise equal views.
pub proof fn lemma_rescan_idempotent(a: Node, b: Node)
    requires
        same_surface(a, b),
        children_of(a).len() == children_of(b).len(),
        forall|i: int|
            0 <= i < children_of(a).len() ==> same_surface(
                #[trigger] children_of(a)[i],
                children_of(b)[i],
            ),
    ensures
        node_rows(a) =~= node_rows(b),
{
    if a is File {
        assert(lone_file_row(a) == lone_file_row(b));
    } else {
        lemma_max_same(children_of(a), children_of(b));
        assert forall|i: int|
            0 <= i < children_of(a).len() implies #[trigger] children_rows(children_of(a))[i]
            == children_rows(children_of(b))[i] by {
            assert(same_surface(children_of(a)[i], children_of(b)[i]));
        }
        assert(children_rows(children_of(a)) =~= children_rows(children_of(b)));
    }
}

} // verus!
