use vstd::prelude::*;
use crate::chardata::ContentType;
use crate::error::AutosarDataError;
use crate::model::{AutosarModel, Element};
use crate::paths::{full_path, is_at_path, lemma_path_fuel, name_view, path_str};

verus! {

/// Sibling names are unique: two named, reachable elements whose parents have the same
/// path and which carry the same item name are one and the same element.
pub proof fn lemma_sibling_names_unique(m: &AutosarModel, a: Element, b: Element)
    requires
        m.wf(),
        a.id < m.elements@.len(),
        b.id < m.elements@.len(),
        m.elements@[a.id as int].item_name is Some,
        name_view(m.elements@[a.id as int].item_name) == name_view(m.elements@[b.id as int].item_name),
        m.path_of(a.id as int) is Some,
        m.path_of(b.id as int) is Some,
        m.elements@[a.id as int].parent is Some,
        m.elements@[b.id as int].parent is Some,
        m.path_of(m.elements@[a.id as int].parent->Some_0 as int) == m.path_of(m.elements@[b.id as int].parent->Some_0 as int),
    ensures
        a == b,
{
    let ls = m.links();
    let rk = m.ranks();
    let (i, j) = (a.id as int, b.id as int);
    let (pa, pb) = (ls[i].0->Some_0 as int, ls[j].0->Some_0 as int);
    assert(ls[i].0 == m.elements@[i].parent);
    assert(ls[j].0 == m.elements@[j].parent);
    assert(rk[pa] < rk[i]);
    assert(rk[pb] < rk[j]);
    lemma_path_fuel(ls, rk, pa, rk[i]);
    lemma_path_fuel(ls, rk, pb, rk[j]);
    assert(path_str(ls, i, rk[i] + 1) == Some(full_path(ls, rk, pa)->Some_0 + seq!['/'] + ls[i].1->Some_0));
    assert(path_str(ls, j, rk[j] + 1) == Some(full_path(ls, rk, pb)->Some_0 + seq!['/'] + ls[j].1->Some_0));
    assert(full_path(ls, rk, i) == full_path(ls, rk, j));
}

/// Path round trip: looking up the path of a named, reachable element gives that element.
pub proof fn lemma_path_round_trip(m: &AutosarModel, e: Element)
    requires
        m.wf(),
        e.id < m.elements@.len(),
        m.elements@[e.id as int].item_name is Some,
        m.path_of(e.id as int) is Some,
    ensures
        m.lookup_spec(m.path_of(e.id as int)->Some_0) == Some(e),
{
    let p = m.path_of(e.id as int)->Some_0;
    assert(m.links()[e.id as int].1 == name_view(m.elements@[e.id as int].item_name));
    assert(is_at_path(m.links(), m.ranks(), e.id as int, p));
    let j = choose|j: int| is_at_path(m.links(), m.ranks(), j, p);
    assert(is_at_path(m.links(), m.ranks(), j, p));
}

/// After a removal, no element of the removed subtree is found by any path, nor counts
/// as part of any file.
pub proof fn lemma_removed_unreachable(before: &AutosarModel, after: &AutosarModel, parent: Element, child: Element, i: usize, path: Seq<char>, file: usize)
    requires
        after.removed(before, parent.id as int, child.id as int),
        i < before.elements@.len(),
        before.in_subtree(i as int, child.id as int),
    ensures
        after.lookup_spec(path) != Some(Element { id: i }),
        !after.file_content(file).contains(i as int),
        after.path_of(i as int) is None,
{
    assert(!after.elements@[i as int].alive);
    assert(!after.links()[i as int].2);
    assert(after.path_of(i as int) is None);
    if after.lookup_spec(path) == Some(Element { id: i }) {
        let j = choose|j: int| is_at_path(after.links(), after.ranks(), j, path);
        assert(is_at_path(after.links(), after.ranks(), j, path));
        assert(after.elements@.len() == after.elements.len());
        assert(j == i as int);
    }
}

/// A reference that was just pointed at `t` reads back `t`.
pub proof fn lemma_reference_round_trip(before: &AutosarModel, after: &AutosarModel, r: Element, t: Element)
    requires
        before.wf(),
        after.wf(),
        before.set_reference_error(r.id as int, t.id as int) is None,
        after.same_but_content(before, r.id as int),
        after.stored_reference(r.id as int) == before.path_of(t.id as int),
    ensures
        after.reference_target(r.id as int) == Ok::<Element, AutosarDataError>(t),
{
    assert(after.links() =~= before.links());
    assert(after.elements@[t.id as int].item_name == before.elements@[t.id as int].item_name || t.id == r.id);
    assert(after.elements@[t.id as int].item_name is Some);
    lemma_path_round_trip(after, t);
}

/// An element whose type holds sub-elements only has no character data.
pub proof fn lemma_elements_mode_has_no_character_data(m: &AutosarModel, e: Element)
    requires
        m.wf(),
        e.id < m.elements@.len(),
        m.schema.types@[m.elements@[e.id as int].element_type as int].content_type == ContentType::Elements,
    ensures
        m.character_data_of(e.id as int) is None,
{
    assert(m.elem_wf(e.id as int));
    if m.elements@[e.id as int].content@.len() == 1 {
        assert(m.elements@[e.id as int].content@[0] is Element);
    }
}

} // verus!
