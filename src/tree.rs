use vstd::prelude::*;

verus! {

/// One entry of a directory snapshot.
#[derive(Debug, PartialEq, Eq)]
pub enum Node {
    /// A regular file, with its modification time in nanoseconds since the
    /// Unix epoch (negative before it).
    File { name: String, mtime: i128 },
    /// A directory and the entries it holds.
    Dir { name: String, children: Vec<Node> },
}

impl Node {
    pub open spec fn name_view(&self) -> Seq<char> {
        match self {
            Node::File { name, .. } => name@,
            Node::Dir { name, .. } => name@,
        }
    }

    pub fn name(&self) -> (r: &String)
        ensures
            r@ == self.name_view(),
    {
        match self {
            Node::File { name, .. } => name,
            Node::Dir { name, .. } => name,
        }
    }
}

/// A relative path, as the names of its components, outermost first.
pub open spec fn path_view(p: Seq<String>) -> Seq<Seq<char>> {
    p.map_values(|s: String| s@)
}

/// Some entry of `nodes` is called `name`.
pub open spec fn has_name(nodes: Seq<Node>, name: Seq<char>) -> bool {
    exists|i: int| 0 <= i < nodes.len() && #[trigger] nodes[i].name_view() == name
}

/// The entry of `nodes` called `name`.
pub open spec fn find(nodes: Seq<Node>, name: Seq<char>) -> Node
    recommends
        has_name(nodes, name),
{
    nodes[choose|i: int| 0 <= i < nodes.len() && #[trigger] nodes[i].name_view() == name]
}

/// The entry found by following path `p` down from a directory whose entries
/// are `nodes`; `None` for the empty path and for a path that leads nowhere.
pub open spec fn entry_at(nodes: Seq<Node>, p: Seq<Seq<char>>) -> Option<Node>
    decreases p.len(),
{
    if p.len() == 0 || !has_name(nodes, p[0]) {
        None
    } else if p.len() == 1 {
        Some(find(nodes, p[0]))
    } else {
        match find(nodes, p[0]) {
            Node::Dir { children, .. } => entry_at(children@, p.drop_first()),
            Node::File { .. } => None,
        }
    }
}

/// The modification time of the file at `p`, if a file is there.
pub open spec fn mtime_at(nodes: Seq<Node>, p: Seq<Seq<char>>) -> Option<i128> {
    match entry_at(nodes, p) {
        Some(Node::File { mtime, .. }) => Some(mtime),
        _ => None,
    }
}

/// A directory is at `p`.
pub open spec fn dir_at(nodes: Seq<Node>, p: Seq<Seq<char>>) -> bool {
    entry_at(nodes, p) matches Some(Node::Dir { .. })
}

/// No two entries of one directory level share a name.
pub open spec fn names_unique(nodes: Seq<Node>) -> bool {
    forall|i: int, j: int|
        0 <= i < j < nodes.len() ==> #[trigger] nodes[i].name_view() != #[trigger] nodes[j].name_view()
}

/// The snapshot could be one of a real directory: names are unique at every level.
pub open spec fn tree_wf(nodes: Seq<Node>) -> bool
    decreases nodes,
{
    &&& names_unique(nodes)
    &&& forall|i: int|
        0 <= i < nodes.len() ==> match #[trigger] nodes[i] {
            Node::Dir { children, .. } => tree_wf(children@),
            Node::File { .. } => true,
        }
}

/// Tells whether `nodes` is well formed: no directory level holds two
/// entries with the same name.
pub fn is_well_formed(nodes: &Vec<Node>) -> (r: bool)
    ensures
        r == tree_wf(nodes@),
    decreases nodes,
{
    let n = nodes.len();
    let mut i: usize = 0;
    while i < n
        invariant
            n == nodes@.len(),
            i <= n,
            forall|a: int, b: int|
                0 <= a < b < nodes@.len() && a < i ==> #[trigger] nodes@[a].name_view()
                    != #[trigger] nodes@[b].name_view(),
        decreases n - i,
    {
        let mut j: usize = i + 1;
        while j < n
            invariant
                n == nodes@.len(),
                i < n,
                i < j <= n,
                forall|a: int, b: int|
                    0 <= a < b < nodes@.len() && a < i ==> #[trigger] nodes@[a].name_view()
                        != #[trigger] nodes@[b].name_view(),
                forall|b: int| i < b < j ==> nodes@[i as int].name_view() != #[trigger] nodes@[b].name_view(),
            decreases n - j,
        {
            if *nodes[i].name() == *nodes[j].name() {
                return false;
            }
            j += 1;
        }
        i += 1;
    }
    let mut k: usize = 0;
    while k < n
        invariant
            n == nodes@.len(),
            k <= n,
            names_unique(nodes@),
            forall|a: int|
                0 <= a < k ==> match #[trigger] nodes@[a] {
                    Node::Dir { children, .. } => tree_wf(children@),
                    Node::File { .. } => true,
                },
        decreases n - k,
    {
        match &nodes[k] {
            Node::Dir { children, .. } => {
                proof {
                    assert(decreases_to!(nodes => nodes@[k as int]));
                }
                if !is_well_formed(children) {
                    return false;
                }
            },
            Node::File { .. } => {},
        }
        k += 1;
    }
    true
}

/// In a level with unique names, the entry called `q[0]` is the one at `i`,
/// and what lies below it is looked up among its children.
pub proof fn lemma_entry_step(nodes: Seq<Node>, i: int, q: Seq<Seq<char>>)
    requires
        names_unique(nodes),
        0 <= i < nodes.len(),
        q.len() > 0,
        q[0] == nodes[i].name_view(),
    ensures
        has_name(nodes, q[0]),
        find(nodes, q[0]) == nodes[i],
        entry_at(nodes, q) == if q.len() == 1 {
            Some(nodes[i])
        } else {
            match nodes[i] {
                Node::Dir { children, .. } => entry_at(children@, q.drop_first()),
                Node::File { .. } => None,
            }
        },
{
    assert(nodes[i].name_view() == q[0]);
    let j = choose|j: int| 0 <= j < nodes.len() && #[trigger] nodes[j].name_view() == q[0];
    if j != i {
        if j < i {
            assert(nodes[j].name_view() != nodes[i].name_view());
        } else {
            assert(nodes[i].name_view() != nodes[j].name_view());
        }
    }
}

/// Whatever lies strictly above a file or directory is a directory.
pub proof fn lemma_ancestor_is_dir(nodes: Seq<Node>, p: Seq<Seq<char>>, k: int)
    requires
        entry_at(nodes, p) is Some,
        0 < k < p.len(),
    ensures
        dir_at(nodes, p.subrange(0, k)),
    decreases p.len(),
{
    let n = find(nodes, p[0]);
    let q = p.subrange(0, k);
    assert(q[0] == p[0]);
    if k == 1 {
        match n {
            Node::Dir { .. } => {},
            Node::File { .. } => {},
        }
    } else {
        match n {
            Node::Dir { children, .. } => {
                lemma_ancestor_is_dir(children@, p.drop_first(), k - 1);
                assert(p.drop_first().subrange(0, k - 1) =~= q.drop_first());
            },
            Node::File { .. } => {},
        }
    }
}

} // verus!
