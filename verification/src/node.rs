//! The size tree: a node is a file leaf or a directory with children.
//!
//! A directory stores its aggregate sizes alongside its children; the
//! well-formedness predicate `wf_node` ties each stored aggregate to the sum
//! over the children and keeps every child list sorted by on-disk size,
//! largest first, at every depth.
use vstd::prelude::*;

verus! {

/// One entry of the scanned tree: a file leaf carrying its two sizes, or a
/// directory whose aggregate sizes are fixed at construction time.
pub enum Node {
    File { name: String, size_on_disk: u64, size_real: u64 },
    Dir { name: String, nodes: Vec<Node>, size_on_disk: u64, size_real: u64 },
}

/// The display name of a node.
pub open spec fn name_of(n: Node) -> Seq<char> {
    match n {
        Node::File { name, .. } => name@,
        Node::Dir { name, .. } => name@,
    }
}

/// The logical size of a node: the stored byte count of a file, or a
/// directory's stored aggregate.
pub open spec fn real_of(n: Node) -> u64 {
    match n {
        Node::File { size_real, .. } => size_real,
        Node::Dir { size_real, .. } => size_real,
    }
}

/// The on-disk size of a node: bytes allocated on storage for a file, or a
/// directory's stored aggregate.
pub open spec fn disk_of(n: Node) -> u64 {
    match n {
        Node::File { size_on_disk, .. } => size_on_disk,
        Node::Dir { size_on_disk, .. } => size_on_disk,
    }
}

/// Sum of the logical sizes over a sequence of nodes.
pub open spec fn sum_real(s: Seq<Node>) -> int
    decreases s.len(),
{
    if s.len() == 0 {
        0
    } else {
        sum_real(s.drop_last()) + real_of(s.last())
    }
}

/// Sum of the on-disk sizes over a sequence of nodes.
pub open spec fn sum_disk(s: Seq<Node>) -> int
    decreases s.len(),
{
    if s.len() == 0 {
        0
    } else {
        sum_disk(s.drop_last()) + disk_of(s.last())
    }
}

/// Children sorted by on-disk size, descending; ties keep their order.
pub open spec fn sorted_by_disk_desc(s: Seq<Node>) -> bool {
    forall|i: int| 0 <= i < s.len() - 1 ==> disk_of(#[trigger] s[i]) >= disk_of(s[i + 1])
}

/// Well-formedness of a tree: at every directory, the stored aggregates equal
/// the sums over the children, and the children are sorted by on-disk size,
/// largest first.
pub open spec fn wf_node(n: Node) -> bool
    decreases n,
{
    match n {
        Node::File { .. } => true,
        Node::Dir { nodes, size_on_disk, size_real, .. } => {
            &&& size_real == sum_real(nodes@)
            &&& size_on_disk == sum_disk(nodes@)
            &&& sorted_by_disk_desc(nodes@)
            &&& forall|i: int| 0 <= i < nodes@.len() ==> wf_node(#[trigger] nodes@[i])
        },
    }
}

impl Node {
    /// The display name, as a fresh string.
    pub fn name(&self) -> (r: String)
        ensures
            r@ == name_of(*self),
    {
        match self {
            Node::File { name, .. } => name.clone(),
            Node::Dir { name, .. } => name.clone(),
        }
    }

    /// The logical size in bytes.
    pub fn size_real(&self) -> (r: u64)
        ensures
            r == real_of(*self),
    {
        match self {
            Node::File { size_real, .. } => *size_real,
            Node::Dir { size_real, .. } => *size_real,
        }
    }

    /// The on-disk size in bytes.
    pub fn size_on_disk(&self) -> (r: u64)
        ensures
            r == disk_of(*self),
    {
        match self {
            Node::File { size_on_disk, .. } => *size_on_disk,
            Node::Dir { size_on_disk, .. } => *size_on_disk,
        }
    }

    /// Whether this node is a file leaf.
    pub fn is_file(&self) -> (r: bool)
        ensures
            r == (*self is File),
    {
        match self {
            Node::File { .. } => true,
            Node::Dir { .. } => false,
        }
    }
}

/// Builds a file leaf from its name and its two sizes.
pub fn file_node(name: String, size_real: u64, size_on_disk: u64) -> (r: Node)
    ensures
        r == (Node::File { name, size_on_disk, size_real }),
        wf_node(r),
{
    Node::File { name, size_on_disk, size_real }
}

/// The display name of a scanned entry: the decoded name where decoding
/// succeeded, the literal placeholder where it failed — a bad name never
/// fails a scan.
pub fn name_or_placeholder(decoded: Option<String>) -> (r: String)
    ensures
        match decoded {
            Some(name) => r@ == name@,
            None => r@ == "<invalid name>"@,
        },
{
    match decoded {
        Some(name) => name,
        None => String::from_str("<invalid name>"),
    }
}

/// The children of a directory node; a file has none.
pub open spec fn children_of(n: Node) -> Seq<Node> {
    match n {
        Node::File { .. } => Seq::empty(),
        Node::Dir { nodes, .. } => nodes@,
    }
}

/// Stable insertion of `n` into a descending-sorted sequence: `n` is placed
/// after every element whose on-disk size is at least its own.
pub open spec fn insert_desc(s: Seq<Node>, n: Node) -> Seq<Node>
    decreases s.len(),
{
    if s.len() == 0 {
        seq![n]
    } else if disk_of(s.last()) >= disk_of(n) {
        s.push(n)
    } else {
        insert_desc(s.drop_last(), n).push(s.last())
    }
}

/// Stable sort by on-disk size, descending: elements of equal size keep the
/// order in which they were listed.
pub open spec fn sort_desc(s: Seq<Node>) -> Seq<Node>
    decreases s.len(),
{
    if s.len() == 0 {
        Seq::empty()
    } else {
        insert_desc(sort_desc(s.drop_last()), s.last())
    }
}

proof fn lemma_sum_push(s: Seq<Node>, n: Node)
    ensures
        sum_real(s.push(n)) == sum_real(s) + real_of(n),
        sum_disk(s.push(n)) == sum_disk(s) + disk_of(n),
{
    assert(s.push(n).drop_last() =~= s);
    assert(s.push(n).last() == n);
}

proof fn lemma_insert_desc_props(s: Seq<Node>, n: Node)
    ensures
        insert_desc(s, n).len() == s.len() + 1,
        insert_desc(s, n).to_multiset() =~= s.to_multiset().insert(n),
        sum_real(insert_desc(s, n)) == sum_real(s) + real_of(n),
        sum_disk(insert_desc(s, n)) == sum_disk(s) + disk_of(n),
        sorted_by_disk_desc(s) ==> sorted_by_disk_desc(insert_desc(s, n)),
        insert_desc(s, n).last() == n || (s.len() > 0 && insert_desc(s, n).last() == s.last()),
    decreases s.len(),
{
    broadcast use vstd::seq_lib::group_to_multiset_ensures;
    broadcast use vstd::multiset::group_multiset_axioms;

    if s.len() == 0 {
        assert(seq![n] =~= Seq::<Node>::empty().push(n));
        assert(Seq::<Node>::empty().push(n).to_multiset() =~= Seq::<Node>::empty().to_multiset().insert(n));
        lemma_sum_push(Seq::<Node>::empty(), n);
    } else if disk_of(s.last()) >= disk_of(n) {
        lemma_sum_push(s, n);
    } else {
        let s1 = s.drop_last();
        lemma_insert_desc_props(s1, n);
        let t = insert_desc(s1, n);
        assert(s =~= s1.push(s.last()));
        lemma_sum_push(t, s.last());
        lemma_sum_push(s1, s.last());
        assert(t.push(s.last()).to_multiset() =~= t.to_multiset().insert(s.last()));
        assert(s1.push(s.last()).to_multiset() =~= s1.to_multiset().insert(s.last()));
        assert(s1.to_multiset().insert(n).insert(s.last()) =~= s1.to_multiset().insert(s.last()).insert(n));
        if sorted_by_disk_desc(s) {
            assert(sorted_by_disk_desc(s1)) by {
                assert(forall|i: int|
                    0 <= i < s1.len() - 1 ==> disk_of(#[trigger] s1[i]) >= disk_of(s1[i + 1]));
            }
            assert(disk_of(t.last()) >= disk_of(s.last()));
            assert(sorted_by_disk_desc(t.push(s.last()))) by {
                assert(forall|i: int|
                    0 <= i < t.len() - 1 ==> disk_of(#[trigger] t.push(s.last())[i])
                        >= disk_of(t.push(s.last())[i + 1]));
            }
        }
    }
}

/// Sorting keeps exactly the given nodes: the result is a permutation (same
/// multiset, same length), its size sums are unchanged, and it is sorted by
/// on-disk size, descending.
pub proof fn lemma_sort_desc_props(s: Seq<Node>)
    ensures
        sort_desc(s).len() == s.len(),
        sort_desc(s).to_multiset() =~= s.to_multiset(),
        sum_real(sort_desc(s)) == sum_real(s),
        sum_disk(sort_desc(s)) == sum_disk(s),
        sorted_by_disk_desc(sort_desc(s)),
    decreases s.len(),
{
    broadcast use vstd::seq_lib::group_to_multiset_ensures;

    if s.len() == 0 {
    } else {
        let s1 = s.drop_last();
        lemma_sort_desc_props(s1);
        lemma_insert_desc_props(sort_desc(s1), s.last());
        assert(s =~= s1.push(s.last()));
        assert(s1.push(s.last()).to_multiset() =~= s1.to_multiset().insert(s.last()));
        lemma_sum_push(s1, s.last());
    }
}

proof fn lemma_sort_desc_wf(s: Seq<Node>)
    requires
        forall|i: int| 0 <= i < s.len() ==> wf_node(#[trigger] s[i]),
    ensures
        forall|i: int| 0 <= i < sort_desc(s).len() ==> wf_node(#[trigger] sort_desc(s)[i]),
{
    broadcast use vstd::seq_lib::group_to_multiset_ensures;

    lemma_sort_desc_props(s);
    assert forall|i: int| 0 <= i < sort_desc(s).len() implies wf_node(#[trigger] sort_desc(s)[i]) by {
        let x = sort_desc(s)[i];
        assert(sort_desc(s).contains(x));
        assert(sort_desc(s).to_multiset().count(x) > 0);
        assert(s.to_multiset().count(x) > 0);
        assert(s.contains(x));
        let j = choose|j: int| 0 <= j < s.len() && s[j] == x;
        assert(wf_node(s[j]));
    }
}

proof fn lemma_insert_desc_at(s: Seq<Node>, n: Node, j: int)
    requires
        sorted_by_disk_desc(s),
        0 <= j <= s.len(),
        forall|k: int| j <= k < s.len() ==> disk_of(#[trigger] s[k]) < disk_of(n),
        j > 0 ==> disk_of(s[j - 1]) >= disk_of(n),
    ensures
        insert_desc(s, n) == s.insert(j, n),
    decreases s.len(),
{
    if s.len() == 0 {
        assert(seq![n] =~= s.insert(0, n));
    } else if disk_of(s.last()) >= disk_of(n) {
        assert(j == s.len());
        assert(s.push(n) =~= s.insert(s.len() as int, n));
    } else {
        assert(j < s.len());
        let s1 = s.drop_last();
        assert(sorted_by_disk_desc(s1)) by {
            assert(forall|i: int|
                0 <= i < s1.len() - 1 ==> disk_of(#[trigger] s1[i]) >= disk_of(s1[i + 1]));
        }
        lemma_insert_desc_at(s1, n, j);
        assert(s1.insert(j, n).push(s.last()) =~= s.insert(j, n));
    }
}

/// Sorts nodes by on-disk size, descending; equal sizes keep their order.
fn sort_nodes_by_disk_desc(nodes: Vec<Node>) -> (r: Vec<Node>)
    ensures
        r@ == sort_desc(nodes@),
{
    let ghost orig: Seq<Node> = nodes@;
    let mut rest = nodes;
    let mut out: Vec<Node> = Vec::new();
    while rest.len() > 0
        invariant
            rest@.len() <= orig.len(),
            rest@ == orig.skip(orig.len() - rest@.len()),
            out@ == sort_desc(orig.take(orig.len() - rest@.len())),
        decreases rest@.len(),
    {
        let ghost i = orig.len() - rest@.len();
        let n = rest.remove(0);
        proof {
            assert(n == orig[i as int]);
            assert(rest@ =~= orig.skip(i as int + 1));
            lemma_sort_desc_props(orig.take(i as int));
        }
        let mut j: usize = out.len();
        while j > 0 && out[j - 1].size_on_disk() < n.size_on_disk()
            invariant
                j <= out@.len(),
                forall|k: int| j <= k < out@.len() ==> disk_of(#[trigger] out@[k]) < disk_of(n),
            decreases j,
        {
            j = j - 1;
        }
        proof {
            lemma_insert_desc_at(out@, n, j as int);
        }
        out.insert(j, n);
        proof {
            assert(orig.take(i as int + 1).drop_last() =~= orig.take(i as int));
            assert(orig.take(i as int + 1).last() == orig[i as int]);
        }
    }
    proof {
        assert(orig.take(orig.len() as int) =~= orig);
    }
    out
}

/// Builds a directory node: sorts the children by on-disk size, largest
/// first, and fixes the aggregate sizes as the sums over the children.
/// Returns `None` exactly when one of the two sums does not fit in `u64`.
#[verifier::rlimit(30)]
pub fn try_dir_node(name: String, children: Vec<Node>) -> (r: Option<Node>)
    requires
        forall|i: int| 0 <= i < children@.len() ==> wf_node(#[trigger] children@[i]),
    ensures
        r is Some <==> (sum_real(children@) <= u64::MAX && sum_disk(children@) <= u64::MAX),
        match r {
            Some(d) => {
                &&& d is Dir
                &&& wf_node(d)
                &&& name_of(d) == name@
                &&& children_of(d) == sort_desc(children@)
                &&& real_of(d) == sum_real(children@)
                &&& disk_of(d) == sum_disk(children@)
            },
            None => true,
        },
{
    proof {
        lemma_sort_desc_props(children@);
        lemma_sort_desc_wf(children@);
    }
    let ghost input = children@;
    let sorted = sort_nodes_by_disk_desc(children);
    let mut total_real: u64 = 0;
    let mut total_disk: u64 = 0;
    let mut i: usize = 0;
    #[verifier::loop_isolation(false)]
    while i < sorted.len()
        invariant
            i <= sorted@.len(),
            sorted@ == sort_desc(input),
            sum_real(sorted@) == sum_real(input),
            sum_disk(sorted@) == sum_disk(input),
            total_real == sum_real(sorted@.take(i as int)),
            total_disk == sum_disk(sorted@.take(i as int)),
        decreases sorted@.len() - i,
    {
        proof {
            lemma_sum_take_step(sorted@, i as int);
            lemma_sum_take_le(sorted@, i as int + 1);
        }
        let r = match total_real.checked_add(sorted[i].size_real()) {
            Some(v) => v,
            None => {
                proof {
                    assert(sum_real(sorted@.take(i as int + 1)) > u64::MAX);
                    assert(sum_real(input) > u64::MAX);
                }
                return None;
            },
        };
        let d = match total_disk.checked_add(sorted[i].size_on_disk()) {
            Some(v) => v,
            None => {
                proof {
                    assert(sum_disk(sorted@.take(i as int + 1)) > u64::MAX);
                    assert(sum_disk(input) > u64::MAX);
                }
                return None;
            },
        };
        total_real = r;
        total_disk = d;
        i = i + 1;
    }
    proof {
        assert(sorted@.take(sorted@.len() as int) =~= sorted@);
        lemma_sort_desc_props(input);
    }
    Some(Node::Dir { name, nodes: sorted, size_on_disk: total_disk, size_real: total_real })
}

/// Aggregation invariant: at any well-formed directory the stored aggregates
/// equal the sums over its children — and each child is itself well-formed,
/// so the same holds at every depth.
pub proof fn lemma_aggregation_invariant(n: Node)
    requires
        wf_node(n),
        n is Dir,
    ensures
        real_of(n) as int == sum_real(children_of(n)),
        disk_of(n) as int == sum_disk(children_of(n)),
        forall|i: int| 0 <= i < children_of(n).len() ==> wf_node(#[trigger] children_of(n)[i]),
{
}

/// Sort invariant: at any well-formed directory the children's on-disk sizes
/// are non-increasing — and each child is itself well-formed, so the same
/// holds at every depth.
pub proof fn lemma_sort_invariant(n: Node)
    requires
        wf_node(n),
        n is Dir,
    ensures
        forall|i: int|
            0 <= i < children_of(n).len() - 1 ==> disk_of(#[trigger] children_of(n)[i]) >= disk_of(
                children_of(n)[i + 1],
            ),
        forall|i: int| 0 <= i < children_of(n).len() ==> wf_node(#[trigger] children_of(n)[i]),
{
}

proof fn lemma_sum_take_step(s: Seq<Node>, i: int)
    requires
        0 <= i < s.len(),
    ensures
        sum_real(s.take(i + 1)) == sum_real(s.take(i)) + real_of(s[i]),
        sum_disk(s.take(i + 1)) == sum_disk(s.take(i)) + disk_of(s[i]),
{
    assert(s.take(i + 1).drop_last() =~= s.take(i));
    assert(s.take(i + 1).last() == s[i]);
}

proof fn lemma_sum_take_le(s: Seq<Node>, i: int)
    requires
        0 <= i <= s.len(),
    ensures
        sum_real(s.take(i)) <= sum_real(s),
        sum_disk(s.take(i)) <= sum_disk(s),
    decreases s.len(),
{
    if i == s.len() {
        assert(s.take(i) =~= s);
    } else {
        let s1 = s.drop_last();
        lemma_sum_take_le(s1, i);
        assert(s1.take(i) =~= s.take(i));
    }
}

} // verus!
