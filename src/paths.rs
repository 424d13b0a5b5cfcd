use vstd::prelude::*;
use crate::model::ElementData;

verus! {

/// What a path depends on, for one element: its parent, its item name, whether it is alive.
pub type Link = (Option<usize>, Option<Seq<char>>, bool);

pub open spec fn name_view(n: Option<String>) -> Option<Seq<char>> {
    match n {
        Some(s) => Some(s@),
        None => None,
    }
}

pub open spec fn links_of(els: Seq<ElementData>) -> Seq<Link> {
    Seq::new(els.len(), |i: int| (els[i].parent, name_view(els[i].item_name), els[i].alive))
}

/// The path of element `i`: "/" and the item name of every named element from the root
/// down to `i`, following at most `fuel` parent links. None where the walk meets a removed
/// element, a detached element other than the root, or runs out of fuel.
pub open spec fn path_str(ls: Seq<Link>, i: int, fuel: nat) -> Option<Seq<char>>
    decreases fuel,
{
    if fuel == 0 || i < 0 || i >= ls.len() || !ls[i].2 {
        None
    } else {
        let prefix = match ls[i].0 {
            None => if i == 0 { Some(Seq::<char>::empty()) } else { None },
            Some(p) => path_str(ls, p as int, (fuel - 1) as nat),
        };
        match prefix {
            None => None,
            Some(pre) => match ls[i].1 {
                Some(n) => Some(pre + seq!['/'] + n),
                None => Some(pre),
            },
        }
    }
}

/// Parent links stay in range and lead to a strictly smaller rank, so that no walk up
/// the tree goes round in a circle.
pub open spec fn ranked(ls: Seq<Link>, rk: Seq<nat>) -> bool {
    &&& rk.len() == ls.len()
    &&& forall|i: int| 0 <= i < ls.len() ==> match (#[trigger] ls[i]).0 {
        Some(p) => p < ls.len() && rk[p as int] < rk[i],
        None => true,
    }
}

/// The full path of element `i`.
pub open spec fn full_path(ls: Seq<Link>, rk: Seq<nat>, i: int) -> Option<Seq<char>> {
    if 0 <= i < rk.len() {
        path_str(ls, i, rk[i] + 1)
    } else {
        None
    }
}

/// No two distinct named elements that are reachable from the root share a path.
pub open spec fn unique_paths(ls: Seq<Link>, rk: Seq<nat>) -> bool {
    forall|i: int, j: int|
        0 <= i < ls.len() && 0 <= j < ls.len() && ls[i].1 is Some && ls[j].1 is Some
            && #[trigger] full_path(ls, rk, i) is Some && full_path(ls, rk, i) == #[trigger] full_path(ls, rk, j)
            ==> i == j
}

/// Element `i` is named and reachable, and its full path is `p`.
pub open spec fn is_at_path(ls: Seq<Link>, rk: Seq<nat>, i: int, p: Seq<char>) -> bool {
    0 <= i < ls.len() && ls[i].1 is Some && full_path(ls, rk, i) == Some(p)
}

/// Following parent links from `i`, within `fuel` steps (counting `i` itself), reaches `a`.
pub open spec fn reaches(ls: Seq<Link>, i: int, a: int, fuel: nat) -> bool
    decreases fuel,
{
    if fuel == 0 || i < 0 || i >= ls.len() {
        false
    } else if i == a {
        true
    } else {
        match ls[i].0 {
            None => false,
            Some(p) => reaches(ls, p as int, a, (fuel - 1) as nat),
        }
    }
}

/// Any fuel above the rank gives the same path.
pub proof fn lemma_path_fuel(ls: Seq<Link>, rk: Seq<nat>, i: int, f: nat)
    requires
        ranked(ls, rk),
        0 <= i < ls.len(),
        f > rk[i],
    ensures
        path_str(ls, i, f) == path_str(ls, i, rk[i] + 1),
    decreases f,
{
    if ls[i].2 {
        if let Some(p) = ls[i].0 {
            assert(rk[p as int] < rk[i]);
            lemma_path_fuel(ls, rk, p as int, (f - 1) as nat);
            lemma_path_fuel(ls, rk, p as int, rk[i]);
        }
    }
}

/// Any fuel above the rank gives the same answer on ancestry.
pub proof fn lemma_reaches_fuel(ls: Seq<Link>, rk: Seq<nat>, i: int, a: int, f: nat)
    requires
        ranked(ls, rk),
        0 <= i < ls.len(),
        f > rk[i],
    ensures
        reaches(ls, i, a, f) == reaches(ls, i, a, rk[i] + 1),
    decreases f,
{
    if i != a {
        if let Some(p) = ls[i].0 {
            assert(rk[p as int] < rk[i]);
            lemma_reaches_fuel(ls, rk, p as int, a, (f - 1) as nat);
            lemma_reaches_fuel(ls, rk, p as int, a, rk[i]);
        }
    }
}

/// Appending an element that nobody points at changes no existing path.
pub(crate) proof fn lemma_path_push(ls: Seq<Link>, x: Link, i: int, f: nat)
    requires
        forall|j: int| 0 <= j < ls.len() ==> match (#[trigger] ls[j]).0 {
            Some(p) => p < ls.len(),
            None => true,
        },
        0 <= i < ls.len(),
    ensures
        path_str(ls.push(x), i, f) == path_str(ls, i, f),
    decreases f,
{
    assert(ls.push(x)[i] == ls[i]);
    if f > 0 && ls[i].2 {
        if let Some(p) = ls[i].0 {
            lemma_path_push(ls, x, p as int, (f - 1) as nat);
        }
    }
}

/// Where elements only die (and the dead may lose their parent), every path that
/// remains is the path of before.
pub(crate) proof fn lemma_path_shrink(old_ls: Seq<Link>, new_ls: Seq<Link>, i: int, f: nat)
    requires
        old_ls.len() == new_ls.len(),
        forall|j: int| 0 <= j < new_ls.len() && (#[trigger] new_ls[j]).2 ==>
            old_ls[j].2 && new_ls[j].1 == old_ls[j].1 && new_ls[j].0 == old_ls[j].0,
    ensures
        path_str(new_ls, i, f) is Some ==> path_str(new_ls, i, f) == path_str(old_ls, i, f),
    decreases f,
{
    if f > 0 && 0 <= i < new_ls.len() && new_ls[i].2 {
        if let Some(p) = new_ls[i].0 {
            lemma_path_shrink(old_ls, new_ls, p as int, (f - 1) as nat);
        }
    }
}

/// Whether `i` reaches `a` depends on parent links alone.
pub(crate) proof fn lemma_reaches_parents(l1: Seq<Link>, l2: Seq<Link>, i: int, a: int, f: nat)
    requires
        l1.len() == l2.len(),
        forall|j: int| 0 <= j < l1.len() ==> (#[trigger] l1[j]).0 == l2[j].0,
    ensures
        reaches(l1, i, a, f) == reaches(l2, i, a, f),
    decreases f,
{
    if f > 0 && 0 <= i < l1.len() && i != a {
        assert(l1[i].0 == l2[i].0);
        if let Some(p) = l1[i].0 {
            lemma_reaches_parents(l1, l2, p as int, a, (f - 1) as nat);
        }
    }
}

/// An ancestor never ranks above its descendant.
pub(crate) proof fn lemma_reaches_rank(ls: Seq<Link>, rk: Seq<nat>, i: int, a: int, f: nat)
    requires
        ranked(ls, rk),
        reaches(ls, i, a, f),
    ensures
        0 <= a < ls.len(),
        rk[a] <= rk[i],
    decreases f,
{
    if i != a {
        let p = ls[i].0->Some_0;
        assert(rk[p as int] < rk[i]);
        lemma_reaches_rank(ls, rk, p as int, a, (f - 1) as nat);
    }
}

} // verus!
