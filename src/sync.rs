use vstd::prelude::*;
use crate::tree::{
    Node, path_view, entry_at, mtime_at, dir_at, has_name, names_unique, tree_wf, lemma_entry_step,
};

verus! {

/// One step of filling the destination tree.
#[derive(Clone, Debug, PartialEq, Eq, PartialOrd, Ord, Hash)]
pub enum Action {
    /// Create the directory at `path` in the destination, with any missing ancestors.
    CreateDir { path: Vec<String> },
    /// Copy the bytes of the file at `path` in the current tree to `path` in
    /// the destination, creating any missing ancestors first.
    CopyFile { path: Vec<String> },
}

impl Action {
    /// The relative path that the step writes in the destination.
    pub open spec fn target(&self) -> Seq<Seq<char>> {
        match self {
            Action::CreateDir { path } => path_view(path@),
            Action::CopyFile { path } => path_view(path@),
        }
    }

    pub open spec fn is_copy(&self) -> bool {
        self is CopyFile
    }
}

/// The file at `p` of the current tree `c` belongs in the destination: it is
/// a file, and the reference tree `r` holds no file at `p` as new as it is.
pub open spec fn copy_wanted(c: Seq<Node>, r: Seq<Node>, p: Seq<Seq<char>>) -> bool {
    match mtime_at(c, p) {
        Some(t) => match mtime_at(r, p) {
            Some(u) => t > u,
            None => true,
        },
        None => false,
    }
}

/// The directory at `p` of `c` is to be created in the destination: the
/// reference tree `r` has no directory there, so the whole subtree is new.
pub open spec fn dir_wanted(c: Seq<Node>, r: Seq<Node>, p: Seq<Seq<char>>) -> bool {
    dir_at(c, p) && !dir_at(r, p)
}

/// A file copy (`copy`) or directory creation (`!copy`) at `p` is wanted.
pub open spec fn wanted(c: Seq<Node>, r: Seq<Node>, p: Seq<Seq<char>>, copy: bool) -> bool {
    if copy {
        copy_wanted(c, r, p)
    } else {
        dir_wanted(c, r, p)
    }
}

/// Some step of `plan` from index `lo` on copies a file to (`copy`), or
/// creates a directory at (`!copy`), the path `p`.
pub open spec fn present(plan: Seq<Action>, lo: int, p: Seq<Seq<char>>, copy: bool) -> bool {
    exists|k: int| lo <= k < plan.len() && (#[trigger] plan[k]).is_copy() == copy && plan[k].target() == p
}

/// `plan` brings the destination exactly what synchronizing `c` against `r`
/// calls for: every wanted copy and directory, and nothing else.
pub open spec fn is_plan_for(plan: Seq<Action>, c: Seq<Node>, r: Seq<Node>) -> bool {
    forall|p: Seq<Seq<char>>, copy: bool|
        #![trigger present(plan, 0, p, copy)]
        #![trigger wanted(c, r, p, copy)]
        present(plan, 0, p, copy) <==> wanted(c, r, p, copy)
}

/// The step `a` writes at `base` or below it.
spec fn under(a: Action, base: Seq<Seq<char>>) -> bool {
    base.len() <= a.target().len() && a.target().subrange(0, base.len() as int) == base
}

/// The path that `a` writes, taken relative to `base`.
spec fn rel(a: Action, base: Seq<Seq<char>>) -> Seq<Seq<char>> {
    a.target().skip(base.len() as int)
}

/// Every step of `plan` from `lo` on lies below `base` and is wanted there.
spec fn sound_from(plan: Seq<Action>, lo: int, base: Seq<Seq<char>>, c: Seq<Node>, r: Seq<Node>) -> bool {
    forall|k: int|
        lo <= k < plan.len() ==> under(#[trigger] plan[k], base) && wanted(
            c,
            r,
            rel(plan[k], base),
            plan[k].is_copy(),
        )
}

/// Every wanted step below one of the first `i` entries of `c` is in `plan` from `lo` on.
spec fn complete_upto(
    plan: Seq<Action>,
    lo: int,
    base: Seq<Seq<char>>,
    c: Seq<Node>,
    r: Seq<Node>,
    i: int,
) -> bool {
    forall|q: Seq<Seq<char>>, copy: bool, m: int|
        #![trigger wanted(c, r, q, copy), c[m]]
        0 <= m < i && m < c.len() && q.len() > 0 && q[0] == c[m].name_view() && wanted(c, r, q, copy)
            ==> present(plan, lo, base + q, copy)
}

/// Every wanted step lies below some entry of `c`, so a walk over all of
/// them plans every wanted step.
proof fn lemma_complete(plan: Seq<Action>, lo: int, base: Seq<Seq<char>>, c: Seq<Node>, r: Seq<Node>)
    requires
        complete_upto(plan, lo, base, c, r, c.len() as int),
    ensures
        forall|q: Seq<Seq<char>>, copy: bool|
            #[trigger] wanted(c, r, q, copy) ==> present(plan, lo, base + q, copy),
{
    assert forall|q: Seq<Seq<char>>, copy: bool| #[trigger] wanted(c, r, q, copy) implies present(
        plan,
        lo,
        base + q,
        copy,
    ) by {
        assert(entry_at(c, q) is Some);
        assert(q.len() > 0 && has_name(c, q[0]));
        let m = choose|m: int| 0 <= m < c.len() && #[trigger] c[m].name_view() == q[0];
        assert(c[m].name_view() == q[0]);
    }
}

/// Appending steps to a plan keeps the steps it had.
proof fn lemma_present_kept(p1: Seq<Action>, p2: Seq<Action>, lo: int, x: Seq<Seq<char>>, copy: bool)
    requires
        0 <= lo,
        p1.len() <= p2.len(),
        p2.subrange(0, p1.len() as int) == p1,
        present(p1, lo, x, copy),
    ensures
        present(p2, lo, x, copy),
{
    let k = choose|k: int| lo <= k < p1.len() && (#[trigger] p1[k]).is_copy() == copy && p1[k].target() == x;
    assert(p2[k] == p2.subrange(0, p1.len() as int)[k]);
}

/// Tells whether a file stamped `current` is newer than one stamped `reference`.
pub fn is_newer(current: i128, reference: i128) -> (r: bool)
    ensures
        r == (current > reference),
{
    current > reference
}

/// The path `at` extended by the component `name`.
fn child_path(at: &Vec<String>, name: &String) -> (r: Vec<String>)
    ensures
        path_view(r@) == path_view(at@).push(name@),
{
    let mut r: Vec<String> = Vec::new();
    let mut i: usize = 0;
    while i < at.len()
        invariant
            i <= at@.len(),
            r@ == at@.subrange(0, i as int),
        decreases at@.len() - i,
    {
        r.push(at[i].clone());
        proof {
            assert(at@.subrange(0, i + 1) =~= at@.subrange(0, i as int).push(at@[i as int]));
        }
        i += 1;
    }
    proof {
        assert(at@.subrange(0, i as int) =~= at@);
    }
    r.push(name.clone());
    proof {
        assert(r@ == at@.push(*name));
        assert(path_view(r@) =~= path_view(at@).push(name@));
    }
    r
}

/// A copy of the path `at`.
fn copy_path(at: &Vec<String>) -> (r: Vec<String>)
    ensures
        path_view(r@) == path_view(at@),
{
    let mut r: Vec<String> = Vec::new();
    let mut i: usize = 0;
    while i < at.len()
        invariant
            i <= at@.len(),
            r@ == at@.subrange(0, i as int),
        decreases at@.len() - i,
    {
        r.push(at[i].clone());
        proof {
            assert(at@.subrange(0, i + 1) =~= at@.subrange(0, i as int).push(at@[i as int]));
        }
        i += 1;
    }
    proof {
        assert(at@.subrange(0, i as int) =~= at@);
    }
    r
}

/// The index of the entry of `nodes` called `name`, if there is one.
fn lookup(nodes: &Vec<Node>, name: &String) -> (r: Option<usize>)
    ensures
        match r {
            Some(j) => j < nodes@.len() && nodes@[j as int].name_view() == name@,
            None => !has_name(nodes@, name@),
        },
{
    let mut j: usize = 0;
    while j < nodes.len()
        invariant
            j <= nodes@.len(),
            forall|a: int| 0 <= a < j ==> #[trigger] nodes@[a].name_view() != name@,
        decreases nodes@.len() - j,
    {
        if *nodes[j].name() == *name {
            return Some(j);
        }
        j += 1;
    }
    None
}


/// Below `name`, the level `r` looks like the level `rch`.
spec fn descends(r: Seq<Node>, name: Seq<char>, rch: Seq<Node>) -> bool {
    forall|q: Seq<Seq<char>>|
        q.len() > 1 && q[0] == name ==> #[trigger] entry_at(r, q) == entry_at(rch, q.drop_first())
}

/// Steps that are wanted below the directory entry `i` of `c`, seen from
/// inside it, are wanted seen from `c`.
proof fn lemma_lift_sound(
    plan: Seq<Action>,
    a: int,
    base: Seq<Seq<char>>,
    c: Seq<Node>,
    r: Seq<Node>,
    i: int,
    ch: Seq<Node>,
    rch: Seq<Node>,
)
    requires
        tree_wf(c),
        0 <= i < c.len(),
        c[i] matches Node::Dir { children, .. } && children@ == ch,
        descends(r, c[i].name_view(), rch),
        sound_from(plan, a, base.push(c[i].name_view()), ch, rch),
    ensures
        sound_from(plan, a, base, c, r),
{
    let n = c[i].name_view();
    let base2 = base.push(n);
    assert forall|k: int| a <= k < plan.len() implies under(#[trigger] plan[k], base) && wanted(
        c,
        r,
        rel(plan[k], base),
        plan[k].is_copy(),
    ) by {
        let t = plan[k].target();
        assert(under(plan[k], base2));
        assert(t.subrange(0, base.len() as int) =~= base2.subrange(0, base.len() as int));
        assert(base2.subrange(0, base.len() as int) =~= base);
        let q = rel(plan[k], base);
        let q2 = rel(plan[k], base2);
        assert(q2 =~= q.drop_first());
        assert(t[base.len() as int] == t.subrange(0, base2.len() as int)[base.len() as int]);
        assert(q[0] == n);
        lemma_entry_step(c, i, q);
        if q.len() == 1 {
            assert(entry_at(ch, q2) is None);
        } else {
            assert(entry_at(r, q) == entry_at(rch, q2));
        }
    }
}

/// A walk that plans every step wanted inside the directory entry `i` of
/// `c` plans every step that `c` wants strictly below that entry.
proof fn lemma_lift_complete(
    plan: Seq<Action>,
    a: int,
    base: Seq<Seq<char>>,
    c: Seq<Node>,
    r: Seq<Node>,
    i: int,
    ch: Seq<Node>,
    rch: Seq<Node>,
)
    requires
        tree_wf(c),
        0 <= i < c.len(),
        c[i] matches Node::Dir { children, .. } && children@ == ch,
        descends(r, c[i].name_view(), rch),
        complete_upto(plan, a, base.push(c[i].name_view()), ch, rch, ch.len() as int),
    ensures
        forall|q: Seq<Seq<char>>, copy: bool|
            q.len() > 1 && q[0] == c[i].name_view() && #[trigger] wanted(c, r, q, copy)
                ==> present(plan, a, base + q, copy),
{
    let n = c[i].name_view();
    let base2 = base.push(n);
    lemma_complete(plan, a, base2, ch, rch);
    assert forall|q: Seq<Seq<char>>, copy: bool|
        q.len() > 1 && q[0] == n && #[trigger] wanted(c, r, q, copy) implies present(
        plan,
        a,
        base + q,
        copy,
    ) by {
        lemma_entry_step(c, i, q);
        let q2 = q.drop_first();
        assert(entry_at(r, q) == entry_at(rch, q2));
        assert(wanted(ch, rch, q2, copy));
        assert(base2 + q2 =~= base + q);
    }
}

/// Joins the steps planned for entry `i` of `c` (from `mid` on) to those
/// planned for the entries before it.
proof fn lemma_join(
    before: Seq<Action>,
    after: Seq<Action>,
    ls: int,
    lc: int,
    mid: int,
    base: Seq<Seq<char>>,
    c: Seq<Node>,
    r: Seq<Node>,
    i: int,
)
    requires
        0 <= ls <= mid,
        0 <= lc <= mid,
        mid == before.len() <= after.len(),
        after.subrange(0, mid) == before,
        0 <= i < c.len(),
        sound_from(before, ls, base, c, r),
        complete_upto(before, lc, base, c, r, i),
        sound_from(after, mid, base, c, r),
        forall|q: Seq<Seq<char>>, copy: bool|
            q.len() > 0 && q[0] == c[i].name_view() && #[trigger] wanted(c, r, q, copy)
                ==> present(after, mid, base + q, copy),
    ensures
        sound_from(after, ls, base, c, r),
        complete_upto(after, lc, base, c, r, i + 1),
{
    assert forall|k: int| ls <= k < after.len() implies under(#[trigger] after[k], base) && wanted(
        c,
        r,
        rel(after[k], base),
        after[k].is_copy(),
    ) by {
        if k < mid {
            assert(after[k] == after.subrange(0, mid)[k]);
            assert(before[k] == after[k]);
        }
    }
    assert forall|q: Seq<Seq<char>>, copy: bool, m: int|
        #![trigger wanted(c, r, q, copy), c[m]]
        0 <= m < i + 1 && m < c.len() && q.len() > 0 && q[0] == c[m].name_view() && wanted(
            c,
            r,
            q,
            copy,
        ) implies present(after, lc, base + q, copy) by {
        if m < i {
            assert(present(before, lc, base + q, copy));
            lemma_present_kept(before, after, lc, base + q, copy);
        } else {
            assert(present(after, mid, base + q, copy));
            let k = choose|k: int|
                mid <= k < after.len() && (#[trigger] after[k]).is_copy() == copy && after[k].target()
                    == base + q;
            assert(lc <= k);
        }
    }
}

/// The modification time of the file called `name` in `nodes`, if a file has that name.
fn find_file(nodes: &Vec<Node>, name: &String) -> (r: Option<i128>)
    requires
        tree_wf(nodes@),
    ensures
        r == mtime_at(nodes@, seq![name@]),
{
    match lookup(nodes, name) {
        Some(j) => {
            proof {
                lemma_entry_step(nodes@, j as int, seq![name@]);
            }
            match &nodes[j] {
                Node::File { mtime, .. } => Some(*mtime),
                Node::Dir { .. } => None,
            }
        },
        None => None,
    }
}

/// The entries of the directory called `name` in `nodes`, if a directory has that name.
fn find_dir<'a>(nodes: &'a Vec<Node>, name: &String) -> (r: Option<&'a Vec<Node>>)
    requires
        tree_wf(nodes@),
    ensures
        r matches Some(ch) ==> tree_wf(ch@) && dir_at(nodes@, seq![name@]) && descends(nodes@, name@, ch@),
        r is None ==> !dir_at(nodes@, seq![name@]) && descends(nodes@, name@, Seq::empty()),
{
    match lookup(nodes, name) {
        Some(j) => {
            proof {
                lemma_entry_step(nodes@, j as int, seq![name@]);
                assert forall|q: Seq<Seq<char>>| q.len() > 1 && q[0] == name@ implies #[trigger] entry_at(
                    nodes@,
                    q,
                ) == match nodes@[j as int] {
                    Node::Dir { children, .. } => entry_at(children@, q.drop_first()),
                    Node::File { .. } => None,
                } by {
                    lemma_entry_step(nodes@, j as int, q);
                }
            }
            match &nodes[j] {
                Node::Dir { children, .. } => {
                    proof {
                        assert(tree_wf(children@));
                    }
                    Some(children)
                },
                Node::File { .. } => None,
            }
        },
        None => None,
    }
}


/// No two steps of `plan` from index `lo` on write the same path.
pub open spec fn distinct_from(plan: Seq<Action>, lo: int) -> bool {
    forall|k1: int, k2: int|
        lo <= k1 < k2 < plan.len() ==> #[trigger] plan[k1].target() != #[trigger] plan[k2].target()
}

/// Every step of `plan` from `lo` on lies strictly below `base`, inside one
/// of the first `i` entries of `c`.
spec fn heads_before(plan: Seq<Action>, lo: int, base: Seq<Seq<char>>, c: Seq<Node>, i: int) -> bool {
    forall|k: int|
        lo <= k < plan.len() ==> under(#[trigger] plan[k], base) && rel(plan[k], base).len() > 0
            && has_name(c.subrange(0, i), rel(plan[k], base)[0])
}

/// The steps planned for entry `i` of `c` (from `mid` on) write other paths
/// than those planned for the entries before it.
proof fn lemma_join_distinct(
    before: Seq<Action>,
    after: Seq<Action>,
    l: int,
    mid: int,
    base: Seq<Seq<char>>,
    c: Seq<Node>,
    i: int,
)
    requires
        0 <= l <= mid,
        mid == before.len() <= after.len(),
        after.subrange(0, mid) == before,
        names_unique(c),
        0 <= i < c.len(),
        distinct_from(before, l),
        heads_before(before, l, base, c, i),
        distinct_from(after, mid),
        forall|k: int| mid <= k < after.len() ==> under(#[trigger] after[k], base.push(c[i].name_view())),
    ensures
        distinct_from(after, l),
        heads_before(after, l, base, c, i + 1),
{
    let n = c[i].name_view();
    let base2 = base.push(n);
    assert forall|k: int| l <= k < after.len() implies under(#[trigger] after[k], base) && rel(
        after[k],
        base,
    ).len() > 0 && has_name(c.subrange(0, i + 1), rel(after[k], base)[0]) by {
        if k < mid {
            assert(after[k] == after.subrange(0, mid)[k]);
            assert(before[k] == after[k]);
            let x = rel(after[k], base)[0];
            let m = choose|m: int| 0 <= m < i && #[trigger] c.subrange(0, i)[m].name_view() == x;
            assert(c.subrange(0, i + 1)[m] == c.subrange(0, i)[m]);
        } else {
            let t = after[k].target();
            assert(under(after[k], base2));
            assert(t.subrange(0, base.len() as int) =~= base2.subrange(0, base.len() as int));
            assert(base2.subrange(0, base.len() as int) =~= base);
            assert(t[base.len() as int] == t.subrange(0, base2.len() as int)[base.len() as int]);
            assert(rel(after[k], base)[0] == n);
            assert(c.subrange(0, i + 1)[i] == c[i]);
        }
    }
    assert forall|k1: int, k2: int| l <= k1 < k2 < after.len() implies #[trigger] after[k1].target()
        != #[trigger] after[k2].target() by {
        if k2 < mid {
            assert(after[k1] == after.subrange(0, mid)[k1]);
            assert(after[k2] == after.subrange(0, mid)[k2]);
            assert(before[k1] == after[k1]);
            assert(before[k2] == after[k2]);
        } else if k1 < mid {
            assert(after[k1] == after.subrange(0, mid)[k1]);
            assert(before[k1] == after[k1]);
            let x = rel(after[k1], base)[0];
            let m = choose|m: int| 0 <= m < i && #[trigger] c.subrange(0, i)[m].name_view() == x;
            assert(c.subrange(0, i)[m] == c[m]);
            let t2 = after[k2].target();
            assert(under(after[k2], base2));
            assert(t2[base.len() as int] == t2.subrange(0, base2.len() as int)[base.len() as int]);
            if after[k1].target() == t2 {
                assert(rel(after[k1], base)[0] == t2[base.len() as int]);
                assert(c[m].name_view() != c[i].name_view());
            }
        }
    }
}

/// Full copy: plans the whole subtree whose entries are `nodes` at `at` of
/// the destination, the directory itself first, without any comparison.
fn copy_tree(nodes: &Vec<Node>, at: &Vec<String>, plan: &mut Vec<Action>)
    requires
        tree_wf(nodes@),
    ensures
        final(plan)@.len() > old(plan)@.len(),
        final(plan)@.subrange(0, old(plan)@.len() as int) == old(plan)@,
        !final(plan)@[old(plan)@.len() as int].is_copy(),
        final(plan)@[old(plan)@.len() as int].target() == path_view(at@),
        sound_from(final(plan)@, old(plan)@.len() + 1int, path_view(at@), nodes@, Seq::empty()),
        distinct_from(final(plan)@, old(plan)@.len() as int),
        complete_upto(
            final(plan)@,
            old(plan)@.len() as int,
            path_view(at@),
            nodes@,
            Seq::empty(),
            nodes@.len() as int,
        ),
    decreases nodes,
{
    let ghost orig = plan@;
    let ghost lo = plan@.len() as int;
    let ghost base = path_view(at@);
    let ghost none = Seq::<Node>::empty();
    plan.push(Action::CreateDir { path: copy_path(at) });
    proof {
        assert(plan@.subrange(0, lo) =~= orig);
    }
    let n = nodes.len();
    let mut i: usize = 0;
    while i < n
        invariant
            n == nodes@.len(),
            i <= n,
            tree_wf(nodes@),
            base == path_view(at@),
            lo == orig.len(),
            none == Seq::<Node>::empty(),
            plan@.len() > lo,
            plan@.subrange(0, lo) == orig,
            !plan@[lo].is_copy(),
            plan@[lo].target() == base,
            sound_from(plan@, lo + 1, base, nodes@, none),
            complete_upto(plan@, lo, base, nodes@, none, i as int),
            distinct_from(plan@, lo + 1),
            heads_before(plan@, lo + 1, base, nodes@, i as int),
        decreases n - i,
    {
        let ghost before = plan@;
        let ghost mid = plan@.len() as int;
        let ghost name_i = nodes@[i as int].name_view();
        match &nodes[i] {
            Node::File { name, .. } => {
                plan.push(Action::CopyFile { path: child_path(at, name) });
                proof {
                    let t = plan@[mid].target();
                    assert(t.subrange(0, base.len() as int) =~= base);
                    assert(rel(plan@[mid], base) =~= seq![name_i]);
                    lemma_entry_step(nodes@, i as int, seq![name_i]);
                    assert forall|q: Seq<Seq<char>>, copy: bool|
                        q.len() > 0 && q[0] == name_i && #[trigger] wanted(nodes@, none, q, copy)
                            implies present(plan@, mid, base + q, copy) by {
                        lemma_entry_step(nodes@, i as int, q);
                        assert(q =~= seq![name_i]);
                        assert(base + q =~= t);
                    }
                }
            },
            Node::Dir { name, children } => {
                proof {
                    assert(decreases_to!(nodes => nodes@[i as int]));
                    assert(tree_wf(children@));
                }
                let sub = child_path(at, name);
                copy_tree(children, &sub, plan);
                proof {
                    let base2 = base.push(name_i);
                    assert(descends(none, name_i, none));
                    lemma_lift_sound(plan@, mid + 1, base, nodes@, none, i as int, children@, none);
                    lemma_lift_complete(plan@, mid, base, nodes@, none, i as int, children@, none);
                    let t = plan@[mid].target();
                    assert(t.subrange(0, base.len() as int) =~= base);
                    assert(rel(plan@[mid], base) =~= seq![name_i]);
                    lemma_entry_step(nodes@, i as int, seq![name_i]);
                    assert(sound_from(plan@, mid, base, nodes@, none));
                    assert forall|q: Seq<Seq<char>>, copy: bool|
                        q.len() > 0 && q[0] == name_i && #[trigger] wanted(nodes@, none, q, copy)
                            implies present(plan@, mid, base + q, copy) by {
                        if q.len() == 1 {
                            lemma_entry_step(nodes@, i as int, q);
                            assert(q =~= seq![name_i]);
                            assert(base + q =~= t);
                        }
                    }
                }
            },
        }
        proof {
            assert(plan@.subrange(0, mid) =~= before) by {
                assert(plan@.subrange(0, mid) == before);
            }
            lemma_join(before, plan@, lo + 1, lo, mid, base, nodes@, none, i as int);
            assert forall|k: int| mid <= k < plan@.len() implies under(
                #[trigger] plan@[k],
                base.push(name_i),
            ) by {
                let t = plan@[k].target();
                if t == base.push(name_i) {
                    assert(t.subrange(0, t.len() as int) =~= t);
                }
            }
            lemma_join_distinct(before, plan@, lo + 1, mid, base, nodes@, i as int);
            assert(plan@[lo] == before[lo]);
            assert(plan@.subrange(0, lo) =~= before.subrange(0, lo));
        }
        i += 1;
    }
}


/// The tree walk: plans, below `at` of the destination, what the level
/// `cur` of the current tree needs given the matching level `refr` of the
/// reference tree.
fn explore(cur: &Vec<Node>, refr: &Vec<Node>, at: &Vec<String>, plan: &mut Vec<Action>)
    requires
        tree_wf(cur@),
        tree_wf(refr@),
    ensures
        final(plan)@.len() >= old(plan)@.len(),
        final(plan)@.subrange(0, old(plan)@.len() as int) == old(plan)@,
        sound_from(final(plan)@, old(plan)@.len() as int, path_view(at@), cur@, refr@),
        distinct_from(final(plan)@, old(plan)@.len() as int),
        complete_upto(
            final(plan)@,
            old(plan)@.len() as int,
            path_view(at@),
            cur@,
            refr@,
            cur@.len() as int,
        ),
    decreases cur,
{
    let ghost orig = plan@;
    let ghost lo = plan@.len() as int;
    let ghost base = path_view(at@);
    let ghost none = Seq::<Node>::empty();
    let n = cur.len();
    let mut i: usize = 0;
    proof {
        assert(plan@.subrange(0, lo) =~= orig);
    }
    while i < n
        invariant
            n == cur@.len(),
            i <= n,
            tree_wf(cur@),
            tree_wf(refr@),
            base == path_view(at@),
            lo == orig.len(),
            none == Seq::<Node>::empty(),
            plan@.len() >= lo,
            plan@.subrange(0, lo) == orig,
            sound_from(plan@, lo, base, cur@, refr@),
            complete_upto(plan@, lo, base, cur@, refr@, i as int),
            distinct_from(plan@, lo),
            heads_before(plan@, lo, base, cur@, i as int),
        decreases n - i,
    {
        let ghost before = plan@;
        let ghost mid = plan@.len() as int;
        let ghost name_i = cur@[i as int].name_view();
        match &cur[i] {
            Node::File { name, mtime } => {
                let need = match find_file(refr, name) {
                    Some(u) => is_newer(*mtime, u),
                    None => true,
                };
                proof {
                    lemma_entry_step(cur@, i as int, seq![name_i]);
                    assert(need == copy_wanted(cur@, refr@, seq![name_i]));
                }
                if need {
                    plan.push(Action::CopyFile { path: child_path(at, name) });
                    proof {
                        let t = plan@[mid].target();
                        assert(t.subrange(0, base.len() as int) =~= base);
                        assert(rel(plan@[mid], base) =~= seq![name_i]);
                    }
                }
                proof {
                    assert forall|q: Seq<Seq<char>>, copy: bool|
                        q.len() > 0 && q[0] == name_i && #[trigger] wanted(cur@, refr@, q, copy)
                            implies present(plan@, mid, base + q, copy) by {
                        lemma_entry_step(cur@, i as int, q);
                        assert(q =~= seq![name_i]);
                        assert(base + q =~= plan@[mid].target());
                    }
                }
            },
            Node::Dir { name, children } => {
                proof {
                    assert(decreases_to!(cur => cur@[i as int]));
                    assert(tree_wf(children@));
                    lemma_entry_step(cur@, i as int, seq![name_i]);
                }
                let sub = child_path(at, name);
                match find_dir(refr, name) {
                    Some(rch) => {
                        explore(children, rch, &sub, plan);
                        proof {
                            lemma_lift_sound(plan@, mid, base, cur@, refr@, i as int, children@, rch@);
                            lemma_lift_complete(plan@, mid, base, cur@, refr@, i as int, children@, rch@);
                            assert forall|q: Seq<Seq<char>>, copy: bool|
                                q.len() > 0 && q[0] == name_i && #[trigger] wanted(cur@, refr@, q, copy)
                                    implies present(plan@, mid, base + q, copy) by {
                                if q.len() == 1 {
                                    assert(q =~= seq![name_i]);
                                }
                            }
                        }
                    },
                    None => {
                        copy_tree(children, &sub, plan);
                        proof {
                            lemma_lift_sound(plan@, mid + 1, base, cur@, refr@, i as int, children@, none);
                            lemma_lift_complete(plan@, mid, base, cur@, refr@, i as int, children@, none);
                            let t = plan@[mid].target();
                            assert(t.subrange(0, base.len() as int) =~= base);
                            assert(rel(plan@[mid], base) =~= seq![name_i]);
                            assert(sound_from(plan@, mid, base, cur@, refr@));
                            assert forall|q: Seq<Seq<char>>, copy: bool|
                                q.len() > 0 && q[0] == name_i && #[trigger] wanted(cur@, refr@, q, copy)
                                    implies present(plan@, mid, base + q, copy) by {
                                if q.len() == 1 {
                                    assert(q =~= seq![name_i]);
                                    assert(base + q =~= t);
                                }
                            }
                        }
                    },
                }
            },
        }
        proof {
            assert(plan@.subrange(0, mid) =~= before) by {
                assert(plan@.subrange(0, mid) == before);
            }
            lemma_join(before, plan@, lo, lo, mid, base, cur@, refr@, i as int);
            assert forall|k: int| mid <= k < plan@.len() implies under(
                #[trigger] plan@[k],
                base.push(name_i),
            ) by {
                let t = plan@[k].target();
                if t == base.push(name_i) {
                    assert(t.subrange(0, t.len() as int) =~= t);
                }
            }
            lemma_join_distinct(before, plan@, lo, mid, base, cur@, i as int);
            assert(plan@.subrange(0, lo) =~= before.subrange(0, lo));
        }
        i += 1;
    }
}

/// Plans an incremental backup: the directories to create and the files to
/// copy into an empty destination, so that it receives every file of
/// `current` that `reference` lacks or holds in an older version, and every
/// directory of `current` that `reference` lacks, with all it contains.
pub fn synchronize(current: &Vec<Node>, reference: &Vec<Node>) -> (plan: Vec<Action>)
    requires
        tree_wf(current@),
        tree_wf(reference@),
    ensures
        is_plan_for(plan@, current@, reference@),
        distinct_from(plan@, 0),
{
    let mut plan: Vec<Action> = Vec::new();
    let at: Vec<String> = Vec::new();
    explore(current, reference, &at, &mut plan);
    proof {
        let base = path_view(at@);
        assert(base =~= Seq::<Seq<char>>::empty());
        lemma_complete(plan@, 0, base, current@, reference@);
        assert forall|p: Seq<Seq<char>>, copy: bool|
            present(plan@, 0, p, copy) <==> #[trigger] wanted(current@, reference@, p, copy) by {
            assert(base + p =~= p);
            if present(plan@, 0, p, copy) {
                let k = choose|k: int|
                    0 <= k < plan@.len() && (#[trigger] plan@[k]).is_copy() == copy && plan@[k].target() == p;
                assert(rel(plan@[k], base) =~= p);
            }
        }
    }
    plan
}

} // verus!
