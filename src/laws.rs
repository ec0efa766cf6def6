use vstd::prelude::*;
use crate::sync::{Action, present, wanted, is_plan_for};
use crate::tree::{Node, entry_at, mtime_at, dir_at, lemma_ancestor_is_dir};

verus! {

/// `q` is a directory strictly above `p`.
pub open spec fn is_ancestor(q: Seq<Seq<char>>, p: Seq<Seq<char>>) -> bool {
    0 < q.len() < p.len() && p.subrange(0, q.len() as int) == q
}

/// The files that carrying out `plan` writes into an empty destination; each
/// holds the bytes of the file at the same path of the current tree.
pub open spec fn dest_files(plan: Seq<Action>) -> Set<Seq<Seq<char>>> {
    Set::new(|p: Seq<Seq<char>>| present(plan, 0, p, true))
}

/// The directories that carrying out `plan` leaves in an empty destination:
/// those it creates, and every ancestor of a path that it writes.
pub open spec fn dest_dirs(plan: Seq<Action>) -> Set<Seq<Seq<char>>> {
    Set::new(
        |q: Seq<Seq<char>>|
            present(plan, 0, q, false) || exists|p: Seq<Seq<char>>, copy: bool|
                #[trigger] present(plan, 0, p, copy) && is_ancestor(q, p),
    )
}

/// Nothing lands in the destination that does not stand for an entry of the
/// current tree: every file written is a file of `c` at the same path, and
/// every directory left is a directory of `c` at the same path.
pub proof fn lemma_no_pollution(plan: Seq<Action>, c: Seq<Node>, r: Seq<Node>)
    requires
        is_plan_for(plan, c, r),
    ensures
        forall|p: Seq<Seq<char>>| #[trigger] dest_files(plan).contains(p) ==> mtime_at(c, p) is Some,
        forall|q: Seq<Seq<char>>| #[trigger] dest_dirs(plan).contains(q) ==> dir_at(c, q),
{
    assert forall|p: Seq<Seq<char>>| #[trigger] dest_files(plan).contains(p) implies mtime_at(c, p) is Some by {
        assert(wanted(c, r, p, true));
    }
    assert forall|q: Seq<Seq<char>>| #[trigger] dest_dirs(plan).contains(q) implies dir_at(c, q) by {
        if present(plan, 0, q, false) {
            assert(wanted(c, r, q, false));
        } else {
            let (p, copy) = choose|p: Seq<Seq<char>>, copy: bool|
                #[trigger] present(plan, 0, p, copy) && is_ancestor(q, p);
            assert(wanted(c, r, p, copy));
            assert(entry_at(c, p) is Some);
            lemma_ancestor_is_dir(c, p, q.len() as int);
        }
    }
}

/// A file of the current tree with no file at the same path of the
/// reference tree is copied.
pub proof fn lemma_new_file_copied(plan: Seq<Action>, c: Seq<Node>, r: Seq<Node>, p: Seq<Seq<char>>)
    requires
        is_plan_for(plan, c, r),
        mtime_at(c, p) is Some,
        mtime_at(r, p) is None,
    ensures
        dest_files(plan).contains(p),
{
    assert(wanted(c, r, p, true));
}

/// A file present in both trees is copied exactly when the current one is
/// strictly newer; equal times do not copy.
pub proof fn lemma_newer_wins(plan: Seq<Action>, c: Seq<Node>, r: Seq<Node>, p: Seq<Seq<char>>)
    requires
        is_plan_for(plan, c, r),
        mtime_at(c, p) is Some,
        mtime_at(r, p) is Some,
    ensures
        dest_files(plan).contains(p) <==> mtime_at(c, p)->0 > mtime_at(r, p)->0,
{
    assert(present(plan, 0, p, true) <==> wanted(c, r, p, true));
}

/// A file present in both trees that is not newer than the reference one
/// leaves nothing at its path in the destination, neither file nor directory.
pub proof fn lemma_untouched(plan: Seq<Action>, c: Seq<Node>, r: Seq<Node>, p: Seq<Seq<char>>)
    requires
        is_plan_for(plan, c, r),
        mtime_at(c, p) is Some,
        mtime_at(r, p) is Some,
        mtime_at(c, p)->0 <= mtime_at(r, p)->0,
    ensures
        !dest_files(plan).contains(p),
        !dest_dirs(plan).contains(p),
{
    assert(present(plan, 0, p, true) <==> wanted(c, r, p, true));
    lemma_no_pollution(plan, c, r);
    if dest_dirs(plan).contains(p) {
        assert(dir_at(c, p));
    }
}

/// A directory of the current tree with no directory at the same path of
/// the reference tree is created, and every file below it is copied,
/// whatever its time.
pub proof fn lemma_missing_subtree(
    plan: Seq<Action>,
    c: Seq<Node>,
    r: Seq<Node>,
    d: Seq<Seq<char>>,
    s: Seq<Seq<char>>,
)
    requires
        is_plan_for(plan, c, r),
        dir_at(c, d),
        !dir_at(r, d),
        mtime_at(c, d + s) is Some,
    ensures
        dest_dirs(plan).contains(d),
        dest_files(plan).contains(d + s),
{
    assert(wanted(c, r, d, false));
    if s.len() == 0 {
        assert(d + s =~= d);
    }
    if mtime_at(r, d + s) is Some {
        lemma_ancestor_is_dir(r, d + s, d.len() as int);
        assert((d + s).subrange(0, d.len() as int) =~= d);
    }
    assert(wanted(c, r, d + s, true));
}

/// Two plans for the same pair of trees leave the same destination: the
/// same files, each copied from the same source, and the same directories.
pub proof fn lemma_same_destination(p1: Seq<Action>, p2: Seq<Action>, c: Seq<Node>, r: Seq<Node>)
    requires
        is_plan_for(p1, c, r),
        is_plan_for(p2, c, r),
    ensures
        dest_files(p1) == dest_files(p2),
        dest_dirs(p1) == dest_dirs(p2),
{
    assert forall|p: Seq<Seq<char>>, copy: bool| #[trigger] present(p1, 0, p, copy) <==> present(p2, 0, p, copy) by {
        assert(present(p1, 0, p, copy) <==> wanted(c, r, p, copy));
        assert(present(p2, 0, p, copy) <==> wanted(c, r, p, copy));
    }
    assert(dest_files(p1) =~= dest_files(p2));
    assert forall|q: Seq<Seq<char>>| dest_dirs(p1).contains(q) implies dest_dirs(p2).contains(q) by {
        if !present(p1, 0, q, false) {
            let (p, copy) = choose|p: Seq<Seq<char>>, copy: bool|
                #[trigger] present(p1, 0, p, copy) && is_ancestor(q, p);
            assert(present(p2, 0, p, copy));
        }
    }
    assert forall|q: Seq<Seq<char>>| dest_dirs(p2).contains(q) implies dest_dirs(p1).contains(q) by {
        if !present(p2, 0, q, false) {
            let (p, copy) = choose|p: Seq<Seq<char>>, copy: bool|
                #[trigger] present(p2, 0, p, copy) && is_ancestor(q, p);
            assert(present(p1, 0, p, copy));
        }
    }
    assert(dest_dirs(p1) =~= dest_dirs(p2));
}

} // verus!
