use vstd::prelude::*;
use crate::chardata::{parse_decimal, CharacterData, CharacterDataKind, ContentType};
use crate::error::AutosarDataError;
use crate::paths::{
    full_path, is_at_path, lemma_path_fuel, lemma_path_push, lemma_path_shrink, lemma_reaches_fuel,
    lemma_reaches_parents, lemma_reaches_rank, links_of, name_view, path_str, ranked, reaches,
    unique_paths, Link,
};
use crate::schema::{find_sub, find_sub_element, AttributeSpec, ElementType, Schema};

verus! {

/// A handle on an element of a model: its index in the model's arena.
#[derive(Clone, Copy, Debug, PartialEq, Eq, Structural, Hash)]
pub struct Element {
    pub id: usize,
}

/// A handle on a file of a model: its index in the model's file table.
#[derive(Clone, Copy, Debug, PartialEq, Eq, Structural, Hash)]
pub struct ArxmlFile {
    pub id: usize,
}

/// One item of an element's content.
#[derive(Debug)]
pub enum ElementContent {
    Element(Element),
    CharacterData(CharacterData),
}

/// An attribute of an element.
#[derive(Debug)]
pub struct Attribute {
    pub name: u32,
    pub value: CharacterData,
}

/// The stored state of one element.
#[derive(Debug)]
pub struct ElementData {
    pub element_type: usize,
    pub item_name: Option<String>,
    /// A non-owning link to the parent, by index.
    pub parent: Option<usize>,
    pub content: Vec<ElementContent>,
    pub attributes: Vec<Attribute>,
    /// Indices of the files that this element is part of.
    pub files: Vec<usize>,
    /// False once the element has been removed from the tree.
    pub alive: bool,
}

/// The model: the schema, the arena of elements (index 0 is the root), and the files.
pub struct AutosarModel {
    pub schema: Schema,
    pub elements: Vec<ElementData>,
    pub files: Vec<String>,
    /// A rank per element that strictly grows from parent to child.
    pub rank: Ghost<Seq<nat>>,
}

impl AutosarModel {
    pub open spec fn links(&self) -> Seq<Link> {
        links_of(self.elements@)
    }

    pub open spec fn ranks(&self) -> Seq<nat> {
        self.rank@
    }

    pub open spec fn path_of(&self, i: int) -> Option<Seq<char>> {
        full_path(self.links(), self.ranks(), i)
    }

    /// `d` lies in the subtree of `a` (or is `a`).
    pub open spec fn in_subtree(&self, d: int, a: int) -> bool {
        0 <= d < self.ranks().len() && reaches(self.links(), d, a, self.ranks()[d] + 1)
    }

    /// The element that has path `p`, if one has.
    pub open spec fn lookup_spec(&self, p: Seq<char>) -> Option<Element> {
        if exists|i: int| is_at_path(self.links(), self.ranks(), i, p) {
            Some(Element { id: (choose|i: int| is_at_path(self.links(), self.ranks(), i, p)) as usize })
        } else {
            None
        }
    }

    pub open spec fn has_file(&self, i: int, f: usize) -> bool {
        self.elements@[i].files@.contains(f)
    }

    /// The elements that make up file `f`: the reachable elements whose membership holds it.
    pub open spec fn file_content(&self, f: usize) -> Set<int> {
        Set::new(|i: int| 0 <= i < self.elements@.len() && self.path_of(i) is Some && self.has_file(i, f))
    }

    /// Parent links are in range and ranked.
    pub open spec fn links_wf(&self) -> bool {
        ranked(self.links(), self.ranks())
    }

    pub open spec fn elem_wf(&self, i: int) -> bool {
        let d = self.elements@[i];
        &&& d.element_type < self.schema.types@.len()
        &&& (d.item_name is Some ==> self.schema.types@[d.element_type as int].identifiable)
        &&& (i != 0 && d.alive && self.schema.types@[d.element_type as int].identifiable ==> d.item_name is Some)
        &&& match d.parent {
            Some(p) => p < self.elements@.len(),
            None => true,
        }
        &&& forall|k: int| 0 <= k < d.content@.len() ==> match #[trigger] d.content@[k] {
            ElementContent::Element(c) => c.id < self.elements@.len()
                && (self.elements@[c.id as int].alive ==> self.elements@[c.id as int].parent == Some(i as usize)),
            ElementContent::CharacterData(_) => true,
        }
        &&& forall|k1: int, k2: int| 0 <= k1 < d.content@.len() && 0 <= k2 < d.content@.len()
            && (#[trigger] d.content@[k1]) is Element && d.content@[k1] == #[trigger] d.content@[k2] ==> k1 == k2
        &&& forall|k: int| 0 <= k < d.files@.len() ==> #[trigger] d.files@[k] < self.files@.len()
        &&& self.content_fits_mode(i)
    }

    /// `c` is in canonical order for the sub-elements of `p`.
    pub open spec fn sorted_seq(&self, p: int, c: Seq<ElementContent>) -> bool {
        forall|a: int, b: int| 0 <= a < b < c.len() ==>
            self.content_key(p, #[trigger] c[a]) <= self.content_key(p, #[trigger] c[b])
    }

    /// Content of `p` is kept in canonical order.
    pub open spec fn ordered_mode(&self, p: int) -> bool {
        self.schema.types@[self.elements@[p].element_type as int].content_type == ContentType::Elements
    }

    /// The canonical place of an element of type `t` among the sub-elements of `p`.
    pub open spec fn type_key(&self, p: int, t: usize) -> int {
        let subs = self.schema.types@[self.elements@[p].element_type as int].sub_elements@;
        match find_sub(subs, t) {
            Some(k) => k,
            None => subs.len() as int,
        }
    }

    /// An element of type `t` may stand at `pos` in `c`: after every item that comes
    /// earlier in the schema's order and before every item that comes later.
    pub open spec fn fits_in(&self, p: int, c: Seq<ElementContent>, t: usize, pos: int) -> bool {
        &&& forall|a: int| 0 <= a < pos ==> self.content_key(p, #[trigger] c[a]) <= self.type_key(p, t)
        &&& forall|a: int| pos <= a < c.len() ==> self.content_key(p, #[trigger] c[a]) >= self.type_key(p, t)
    }

    /// The last place in `c[..j]` where an element of type `t` fits in canonical order.
    pub open spec fn range_end(&self, p: int, c: Seq<ElementContent>, t: usize, j: int) -> int
        decreases j,
    {
        if j <= 0 {
            0
        } else if self.content_key(p, c[j - 1]) > self.type_key(p, t) {
            self.range_end(p, c, t, j - 1)
        } else {
            j
        }
    }

    /// Where a new sub-element of type `t` goes in content `c` of `p`: at `pos`, or at the
    /// end of its canonical range where None (at the very end where order is not kept).
    pub open spec fn insert_at(&self, p: int, c: Seq<ElementContent>, t: usize, pos: Option<usize>) -> int {
        match pos {
            Some(k) => k as int,
            None => if self.ordered_mode(p) { self.range_end(p, c, t, c.len() as int) } else { c.len() as int },
        }
    }

    pub proof fn lemma_range_end(&self, p: int, c: Seq<ElementContent>, t: usize, j: int)
        requires
            0 <= j <= c.len(),
        ensures
            0 <= self.range_end(p, c, t, j) <= j,
            forall|a: int| self.range_end(p, c, t, j) <= a < j ==> self.content_key(p, #[trigger] c[a]) > self.type_key(p, t),
            self.range_end(p, c, t, j) > 0 ==> self.content_key(p, c[self.range_end(p, c, t, j) - 1]) <= self.type_key(p, t),
            j == c.len() && self.sorted_seq(p, c) ==> self.fits_in(p, c, t, self.range_end(p, c, t, j)),
        decreases j,
    {
        if j > 0 && self.content_key(p, c[j - 1]) > self.type_key(p, t) {
            self.lemma_range_end(p, c, t, j - 1);
        }
        let r = self.range_end(p, c, t, j);
        if j == c.len() && r > 0 && self.sorted_seq(p, c) {
            assert forall|a: int| 0 <= a < r implies self.content_key(p, #[trigger] c[a]) <= self.type_key(p, t) by {
                if a < r - 1 {
                    assert(self.content_key(p, c[a]) <= self.content_key(p, c[r - 1]));
                }
            }
        }
    }

    /// Whether an element of type `t` fits at `pos` in the content of `p`.
    pub(crate) fn check_fits(&self, p: usize, t: usize, pos: usize) -> (r: bool)
        requires
            self.wf(),
            p < self.elements@.len(),
            pos <= self.elements@[p as int].content@.len(),
        ensures
            r == self.fits_in(p as int, self.elements@[p as int].content@, t, pos as int),
    {
        proof {
            assert(self.elem_wf(p as int));
        }
        let tk = self.type_key_exec(p, t);
        let n = self.elements[p].content.len();
        let ghost c = self.elements@[p as int].content@;
        let mut a: usize = 0;
        while a < n
            invariant
                self.wf(),
                p < self.elements@.len(),
                c == self.elements@[p as int].content@,
                n == c.len(),
                pos <= n,
                a <= n,
                tk as int == self.type_key(p as int, t),
                forall|b: int| 0 <= b < a && b < pos ==> self.content_key(p as int, #[trigger] c[b]) <= self.type_key(p as int, t),
                forall|b: int| pos <= b < a ==> self.content_key(p as int, #[trigger] c[b]) >= self.type_key(p as int, t),
            decreases n - a,
        {
            let k = self.content_key_at(p, a);
            if a < pos && k > tk {
                return false;
            }
            if a >= pos && k < tk {
                return false;
            }
            a += 1;
        }
        true
    }

    /// The canonical place of type `t` among the sub-elements of `p`.
    fn type_key_exec(&self, p: usize, t: usize) -> (r: usize)
        requires
            self.wf(),
            p < self.elements@.len(),
        ensures
            r as int == self.type_key(p as int, t),
    {
        proof {
            assert(self.elem_wf(p as int));
        }
        let subs = &self.schema.types[self.elements[p].element_type].sub_elements;
        match find_sub_element(subs, t) {
            Some(i) => i,
            None => subs.len(),
        }
    }


    /// The keys of the content of `p`, leaving out item `skip` where given.
    fn base_keys(&self, p: usize, skip: Option<usize>) -> (r: Vec<usize>)
        requires
            self.wf(),
            p < self.elements@.len(),
            skip matches Some(k) ==> k < self.elements@[p as int].content@.len(),
        ensures
            ({
                let c = self.elements@[p as int].content@;
                let base = match skip { Some(k) => c.remove(k as int), None => c };
                &&& r@.len() == base.len()
                &&& forall|a: int| 0 <= a < base.len() ==> #[trigger] r@[a] as int == self.content_key(p as int, base[a])
            }),
    {
        let ghost c = self.elements@[p as int].content@;
        let ghost base = match skip { Some(k) => c.remove(k as int), None => c };
        let n = self.elements[p].content.len();
        let mut r: Vec<usize> = Vec::new();
        let mut i: usize = 0;
        while i < n
            invariant
                self.wf(),
                p < self.elements@.len(),
                c == self.elements@[p as int].content@,
                base == (match skip { Some(k) => c.remove(k as int), None => c }),
                skip matches Some(k) ==> k < n,
                n == c.len(),
                i <= n,
                r@.len() == (match skip { Some(k) => if i > k { i - 1 } else { i as int }, None => i as int }),
                forall|a: int| 0 <= a < r@.len() ==> #[trigger] r@[a] as int == self.content_key(p as int, base[a]),
            decreases n - i,
        {
            let keep = match skip { Some(k) => k != i, None => true };
            if keep {
                let key = self.content_key_at(p, i);
                proof {
                    let a = r@.len() as int;
                    if let Some(k) = skip {
                        assert(base[a] == c[i as int]);
                    }
                }
                r.push(key);
            }
            i += 1;
        }
        r
    }

    /// Whether a key `tk` fits at `pos` among `keys`.
    fn keys_fit(keys: &Vec<usize>, tk: usize, pos: usize) -> (r: bool)
        ensures
            r == ((forall|a: int| 0 <= a < pos && a < keys@.len() ==> #[trigger] keys@[a] <= tk)
                && (forall|a: int| pos <= a < keys@.len() ==> #[trigger] keys@[a] >= tk)),
    {
        let n = keys.len();
        let mut a: usize = 0;
        while a < n
            invariant
                n == keys@.len(),
                a <= n,
                forall|b: int| 0 <= b < a && b < pos ==> #[trigger] keys@[b] <= tk,
                forall|b: int| pos <= b < a ==> #[trigger] keys@[b] >= tk,
            decreases n - a,
        {
            if a < pos && keys[a] > tk {
                return false;
            }
            if a >= pos && keys[a] < tk {
                return false;
            }
            a += 1;
        }
        true
    }

    /// The end of the canonical range of type `t` in the content of `p`.
    pub(crate) fn range_end_exec(&self, p: usize, t: usize) -> (r: usize)
        requires
            self.wf(),
            p < self.elements@.len(),
        ensures
            r as int == self.range_end(p as int, self.elements@[p as int].content@, t, self.elements@[p as int].content@.len() as int),
    {
        let tk = self.type_key_exec(p, t);
        let ghost c = self.elements@[p as int].content@;
        let mut j: usize = self.elements[p].content.len();
        while j > 0 && self.content_key_at(p, j - 1) > tk
            invariant
                self.wf(),
                p < self.elements@.len(),
                c == self.elements@[p as int].content@,
                j <= c.len(),
                tk as int == self.type_key(p as int, t),
                self.range_end(p as int, c, t, c.len() as int) == self.range_end(p as int, c, t, j as int),
            decreases j,
        {
            j -= 1;
        }
        j
    }

    /// The content of element `i` fits its mode: only sub-elements in `Elements` mode, at
    /// most one value and no sub-element in `CharacterData` mode.
    pub open spec fn content_fits_mode(&self, i: int) -> bool {
        let d = self.elements@[i];
        let mode = self.schema.types@[d.element_type as int].content_type;
        &&& mode == ContentType::Elements ==> forall|k: int| 0 <= k < d.content@.len() ==> (#[trigger] d.content@[k]) is Element
        &&& mode == ContentType::CharacterData ==> d.content@.len() <= 1
            && forall|k: int| 0 <= k < d.content@.len() ==> (#[trigger] d.content@[k]) is CharacterData
    }

    /// The model's invariant.
    pub open spec fn wf(&self) -> bool {
        &&& self.schema.wf()
        &&& self.elements@.len() > 0
        &&& self.elements@[0].alive
        &&& self.elements@[0].parent is None
        &&& forall|i: int| 0 <= i < self.elements@.len() ==> #[trigger] self.elem_wf(i)
        &&& self.links_wf()
        &&& unique_paths(self.links(), self.ranks())
    }

    /// The full path of element `i`.
    pub(crate) fn compute_path(&self, i: usize) -> (r: Option<String>)
        requires
            self.links_wf(),
            i < self.elements@.len(),
        ensures
            name_view(r) == self.path_of(i as int),
        decreases self.ranks()[i as int],
    {
        let ghost ls = self.links();
        let ghost rk = self.ranks();
        assert(ls[i as int] == (self.elements@[i as int].parent, name_view(self.elements@[i as int].item_name), self.elements@[i as int].alive));
        if !self.elements[i].alive {
            return None;
        }
        let prefix = match self.elements[i].parent {
            None => if i == 0 { Some(String::new()) } else { None },
            Some(p) => {
                proof {
                    lemma_path_fuel(ls, rk, p as int, rk[i as int]);
                }
                self.compute_path(p)
            },
        };
        match prefix {
            None => None,
            Some(mut s) => match &self.elements[i].item_name {
                Some(n) => {
                    proof { reveal_strlit("/"); }
                    s.append("/");
                    s.append(n.as_str());
                    Some(s)
                },
                None => Some(s),
            },
        }
    }

    /// Whether `i` lies in the subtree of `a`.
    pub(crate) fn is_in_subtree(&self, i: usize, a: usize) -> (r: bool)
        requires
            self.links_wf(),
            i < self.elements@.len(),
        ensures
            r == self.in_subtree(i as int, a as int),
        decreases self.ranks()[i as int],
    {
        let ghost ls = self.links();
        let ghost rk = self.ranks();
        assert(ls[i as int].0 == self.elements@[i as int].parent);
        if i == a {
            return true;
        }
        match self.elements[i].parent {
            None => false,
            Some(p) => {
                proof {
                    lemma_reaches_fuel(ls, rk, p as int, a as int, rk[i as int]);
                }
                self.is_in_subtree(p, a)
            },
        }
    }

    /// The full path of every named element (None for an unnamed one).
    fn named_paths(&self) -> (r: Vec<Option<String>>)
        requires
            self.links_wf(),
        ensures
            r@.len() == self.elements@.len(),
            forall|i: int| 0 <= i < r@.len() ==> name_view(#[trigger] r@[i]) == (if self.links()[i].1 is Some { self.path_of(i) } else { None }),
    {
        let mut r: Vec<Option<String>> = Vec::new();
        let n = self.elements.len();
        let mut i: usize = 0;
        while i < n
            invariant
                self.links_wf(),
                n == self.elements@.len(),
                i <= n,
                r@.len() == i,
                forall|k: int| 0 <= k < i ==> name_view(#[trigger] r@[k]) == (if self.links()[k].1 is Some { self.path_of(k) } else { None }),
            decreases n - i,
        {
            if self.elements[i].item_name.is_some() {
                let p = self.compute_path(i);
                r.push(p);
            } else {
                r.push(None);
            }
            i += 1;
        }
        r
    }

    /// Whether no two distinct named, reachable elements share a path.
    pub(crate) fn check_unique_paths(&self) -> (r: bool)
        requires
            self.links_wf(),
        ensures
            r == unique_paths(self.links(), self.ranks()),
    {
        let ghost ls = self.links();
        let ghost rk = self.ranks();
        let paths = self.named_paths();
        let n = paths.len();
        let mut i: usize = 0;
        while i < n
            invariant
                n == paths@.len(),
                n == ls.len(),
                ls == self.links(),
                rk == self.ranks(),
                i <= n,
                forall|k: int| 0 <= k < n ==> name_view(#[trigger] paths@[k]) == (if ls[k].1 is Some { full_path(ls, rk, k) } else { None }),
                forall|a: int, b: int| 0 <= a < i && 0 <= b < n && ls[a].1 is Some && ls[b].1 is Some
                    && #[trigger] full_path(ls, rk, a) is Some && full_path(ls, rk, a) == #[trigger] full_path(ls, rk, b) ==> a == b,
            decreases n - i,
        {
            if let Some(pi) = &paths[i] {
                let mut j: usize = 0;
                while j < n
                    invariant
                        n == paths@.len(),
                        n == ls.len(),
                        ls == self.links(),
                        rk == self.ranks(),
                        i < n,
                        j <= n,
                        forall|k: int| 0 <= k < n ==> name_view(#[trigger] paths@[k]) == (if ls[k].1 is Some { full_path(ls, rk, k) } else { None }),
                        paths@[i as int] == Some(*pi),
                        forall|b: int| 0 <= b < j && ls[i as int].1 is Some && ls[b].1 is Some
                            && full_path(ls, rk, i as int) is Some && full_path(ls, rk, i as int) == #[trigger] full_path(ls, rk, b) ==> i == b,
                    decreases n - j,
                {
                    if j != i {
                        if let Some(pj) = &paths[j] {
                            if *pi == *pj {
                                proof {
                                    let (a, b) = (i as int, j as int);
                                    assert(name_view(paths@[a]) == name_view(paths@[b]));
                                    assert(ls[a].1 is Some && ls[b].1 is Some);
                                    assert(full_path(ls, rk, a) is Some && full_path(ls, rk, a) == full_path(ls, rk, b));
                                }
                                return false;
                            }
                        }
                    }
                    proof {
                        assert(name_view(paths@[j as int]) == (if ls[j as int].1 is Some { full_path(ls, rk, j as int) } else { None }));
                    }
                    j += 1;
                }
            }
            proof {
                assert(name_view(paths@[i as int]) == (if ls[i as int].1 is Some { full_path(ls, rk, i as int) } else { None }));
            }
            i += 1;
        }
        true
    }
}


/// How many items of `content` are elements of type `t`.
pub open spec fn count_type(els: Seq<ElementData>, content: Seq<ElementContent>, t: usize) -> nat
    decreases content.len(),
{
    if content.len() == 0 {
        0
    } else {
        count_type(els, content.drop_last(), t) + match content.last() {
            ElementContent::Element(c) => if 0 <= c.id < els.len() && els[c.id as int].element_type == t { 1nat } else { 0nat },
            ElementContent::CharacterData(_) => 0nat,
        }
    }
}

impl AutosarModel {
    /// How many sub-elements of type `t` element `p` has.
    pub open spec fn child_count(&self, p: int, t: usize) -> nat {
        count_type(self.elements@, self.elements@[p].content@, t)
    }

    /// A sub-element of type `t` may be added to element `p` now: the schema admits it
    /// and its most occurrences are not used up.
    pub open spec fn allowed_here(&self, p: int, t: usize) -> bool {
        let pt = self.elements@[p].element_type as int;
        let subs = self.schema.types@[pt].sub_elements@;
        &&& self.schema.types@[pt].content_type != ContentType::CharacterData
        &&& find_sub(subs, t) matches Some(k)
        &&& self.child_count(p, t) < subs[k].max_occurs
    }

    /// `e` is an element of this model that has not been removed.
    pub open spec fn is_live(&self, e: int) -> bool {
        0 <= e < self.elements@.len() && self.elements@[e].alive
    }

    /// Nothing but the content of element `p` changed from `old` to `self`.
    pub open spec fn same_but_content(&self, old: &AutosarModel, p: int) -> bool {
        &&& self.schema == old.schema
        &&& self.files == old.files
        &&& self.elements@.len() == old.elements@.len()
        &&& forall|i: int| 0 <= i < self.elements@.len() && i != p ==> self.elements@[i] == old.elements@[i]
        &&& self.elements@[p].element_type == old.elements@[p].element_type
        &&& self.elements@[p].item_name == old.elements@[p].item_name
        &&& self.elements@[p].parent == old.elements@[p].parent
        &&& self.elements@[p].attributes == old.elements@[p].attributes
        &&& self.elements@[p].files == old.elements@[p].files
        &&& self.elements@[p].alive == old.elements@[p].alive
        &&& self.rank@ == old.rank@
    }

    /// A named element already has the path that a sub-element of `p` named `n` would have.
    pub open spec fn name_taken(&self, p: int, n: Seq<char>) -> bool {
        &&& self.path_of(p) is Some
        &&& exists|i: int| #[trigger] is_at_path(self.links(), self.ranks(), i, self.path_of(p)->Some_0 + seq!['/'] + n)
    }

    proof fn lemma_name_taken(&self, p: int, n: Seq<char>, w: int)
        requires
            self.path_of(p) is Some,
            is_at_path(self.links(), self.ranks(), w, self.path_of(p)->Some_0 + seq!['/'] + n),
        ensures
            self.name_taken(p, n),
    {
    }

    /// The error, if any, of creating a sub-element of type `t` under `p`, named `name`,
    /// at position `pos` (at the end where None).
    pub open spec fn create_error(&self, p: int, t: usize, name: Option<Seq<char>>, pos: Option<usize>) -> Option<AutosarDataError> {
        if !self.is_live(p) {
            Some(AutosarDataError::DetachedElement)
        } else if t >= self.schema.types@.len() || !self.allowed_here(p, t) {
            Some(AutosarDataError::InvalidStructure)
        } else if pos matches Some(k) && k > self.elements@[p].content@.len() {
            Some(AutosarDataError::InvalidPosition)
        } else if self.ordered_mode(p) && (pos matches Some(k) && !self.fits_in(p, self.elements@[p].content@, t, k as int)) {
            Some(AutosarDataError::InvalidPosition)
        } else if self.schema.types@[t as int].identifiable && name is None {
            Some(AutosarDataError::ItemNameRequired)
        } else if !self.schema.types@[t as int].identifiable && name is Some {
            Some(AutosarDataError::NotIdentifiable)
        } else if name matches Some(n) && self.name_taken(p, n) {
            Some(AutosarDataError::DuplicateItemName)
        } else {
            None
        }
    }

    /// An empty model: one root element of type `root_type` that belongs to no file yet.
    pub fn new(schema: Schema, root_type: ElementType) -> (r: Result<AutosarModel, AutosarDataError>)
        ensures
            (r is Ok) == (schema.wf() && root_type.id < schema.types@.len() && !schema.types@[root_type.id as int].identifiable),
            r matches Ok(m) ==> m.wf() && m.schema == schema && m.files@.len() == 0 && m.elements@.len() == 1
                && m.elements@[0].element_type == root_type.id && m.elements@[0].content@.len() == 0,
    {
        if !schema.is_valid() || root_type.id >= schema.types.len() || schema.types[root_type.id].identifiable {
            return Err(AutosarDataError::InvalidStructure);
        }
        let root = ElementData {
            element_type: root_type.id,
            item_name: None,
            parent: None,
            content: Vec::new(),
            attributes: Vec::new(),
            files: Vec::new(),
            alive: true,
        };
        let mut elements: Vec<ElementData> = Vec::new();
        elements.push(root);
        let ghost rk = seq![0nat];
        let m = AutosarModel { schema, elements, files: Vec::new(), rank: Ghost(rk) };
        proof {
            assert(m.elem_wf(0));
            assert(m.links().len() == 1);
            assert(m.links()[0].0 is None);
            assert(m.links()[0].1 is None);
        }
        Ok(m)
    }

    /// The root element.
    pub fn root_element(&self) -> (r: Element)
        ensures
            r.id == 0,
    {
        Element { id: 0 }
    }

    /// Adds a file named `name`; the root element becomes part of it.
    pub fn create_file(&mut self, name: &str) -> (r: ArxmlFile)
        requires
            old(self).wf(),
            old(self).files@.len() < usize::MAX,
        ensures
            final(self).wf(),
            r.id == old(self).files@.len(),
            final(self).files@ == old(self).files@.push(final(self).files@[r.id as int]),
            final(self).files@[r.id as int]@ == name@,
            final(self).schema == old(self).schema,
            final(self).rank@ == old(self).rank@,
            final(self).elements@.len() == old(self).elements@.len(),
            final(self).elements@[0].files@ == old(self).elements@[0].files@.push(r.id),
            forall|i: int| 0 < i < final(self).elements@.len() ==> final(self).elements@[i] == old(self).elements@[i],
            final(self).elements@[0].content == old(self).elements@[0].content,
            final(self).links() == old(self).links(),
    {
        let id = self.files.len();
        self.files.push(String::from_str(name));
        self.elements[0].files.push(id);
        proof {
            assert(self.links() =~= old(self).links());
            assert forall|i: int| 0 <= i < self.elements@.len() implies #[trigger] self.elem_wf(i) by {
                assert(old(self).elem_wf(i));
                let d = self.elements@[i];
                assert forall|k: int| 0 <= k < d.content@.len() implies match #[trigger] d.content@[k] {
                    ElementContent::Element(c) => c.id < self.elements@.len()
                        && (self.elements@[c.id as int].alive ==> self.elements@[c.id as int].parent == Some(i as usize)),
                    ElementContent::CharacterData(_) => true,
                } by {
                    assert(old(self).elements@[i].content@[k] == d.content@[k]);
                }
                assert forall|k: int| 0 <= k < d.files@.len() implies #[trigger] d.files@[k] < self.files@.len() by {
                    if i != 0 || k < d.files@.len() - 1 {
                        assert(d.files@[k] == old(self).elements@[i].files@[k]);
                    }
                }
            }
        }
        ArxmlFile { id }
    }

    /// The named element whose path is `p`, if any.
    pub(crate) fn find_path(&self, p: &String) -> (r: Option<usize>)
        requires
            self.links_wf(),
        ensures
            r matches Some(i) ==> is_at_path(self.links(), self.ranks(), i as int, p@),
            r is None ==> !exists|i: int| is_at_path(self.links(), self.ranks(), i, p@),
    {
        let n = self.elements.len();
        let mut i: usize = 0;
        while i < n
            invariant
                self.links_wf(),
                n == self.elements@.len(),
                i <= n,
                forall|k: int| 0 <= k < i ==> !is_at_path(self.links(), self.ranks(), k, p@),
            decreases n - i,
        {
            proof {
                assert(self.links()[i as int].1 == name_view(self.elements@[i as int].item_name));
            }
            if self.elements[i].item_name.is_some() {
                if let Some(q) = self.compute_path(i) {
                    if q == *p {
                        return Some(i);
                    }
                }
            }
            i += 1;
        }
        None
    }

    /// The element at path `path`: the named, reachable element whose path it is.
    pub fn get_element_by_path(&self, path: &str) -> (r: Option<Element>)
        requires
            self.wf(),
        ensures
            r == self.lookup_spec(path@),
    {
        let p = String::from_str(path);
        match self.find_path(&p) {
            Some(i) => {
                proof {
                    let j = choose|j: int| is_at_path(self.links(), self.ranks(), j, path@);
                    assert(is_at_path(self.links(), self.ranks(), j, path@));
                }
                Some(Element { id: i })
            },
            None => None,
        }
    }

    /// How many sub-elements of type `t` element `p` has.
    fn count_children_of_type(&self, p: usize, t: usize) -> (r: usize)
        requires
            p < self.elements@.len(),
        ensures
            r == self.child_count(p as int, t),
    {
        let content = &self.elements[p].content;
        let n = content.len();
        let mut i: usize = 0;
        let mut c: usize = 0;
        while i < n
            invariant
                content@ == self.elements@[p as int].content@,
                n == content@.len(),
                i <= n,
                c == count_type(self.elements@, content@.subrange(0, i as int), t),
                c <= i,
            decreases n - i,
        {
            proof {
                let s = content@.subrange(0, i as int + 1);
                assert(s.drop_last() =~= content@.subrange(0, i as int));
                assert(s.last() == content@[i as int]);
            }
            match &content[i] {
                ElementContent::Element(e) => {
                    if e.id < self.elements.len() && self.elements[e.id].element_type == t {
                        c += 1;
                    }
                },
                ElementContent::CharacterData(_) => {},
            }
            i += 1;
        }
        proof {
            assert(content@.subrange(0, n as int) =~= content@);
        }
        c
    }

    /// Whether a sub-element of type `t` may be added to live element `p` now.
    pub(crate) fn check_allowed_here(&self, p: usize, t: usize) -> (r: bool)
        requires
            self.wf(),
            p < self.elements@.len(),
        ensures
            r == self.allowed_here(p as int, t),
    {
        proof {
            assert(self.elem_wf(p as int));
        }
        let pt = self.elements[p].element_type;
        if self.schema.types[pt].content_type == ContentType::CharacterData {
            return false;
        }
        match find_sub_element(&self.schema.types[pt].sub_elements, t) {
            None => false,
            Some(k) => self.count_children_of_type(p, t) < self.schema.types[pt].sub_elements[k].max_occurs,
        }
    }
}


impl AutosarModel {
    /// `self` is `old` with a new element `el` of type `t`, named `name`, created under `p`
    /// at position `pos` (at the end where None); it belongs to the files of `p`.
    pub open spec fn created(&self, old: &AutosarModel, p: int, t: usize, name: Option<Seq<char>>, pos: Option<usize>, el: Element) -> bool {
        let n = old.elements@.len();
        let at = old.insert_at(p, old.elements@[p].content@, t, pos);
        let d = self.elements@[n as int];
        &&& el.id == n
        &&& self.elements@.len() == n + 1
        &&& self.schema == old.schema
        &&& self.files == old.files
        &&& forall|i: int| 0 <= i < n && i != p ==> self.elements@[i] == old.elements@[i]
        &&& self.elements@[p].element_type == old.elements@[p].element_type
        &&& self.elements@[p].item_name == old.elements@[p].item_name
        &&& self.elements@[p].parent == old.elements@[p].parent
        &&& self.elements@[p].attributes == old.elements@[p].attributes
        &&& self.elements@[p].files == old.elements@[p].files
        &&& self.elements@[p].alive == old.elements@[p].alive
        &&& self.elements@[p].content@ == old.elements@[p].content@.insert(at, ElementContent::Element(el))
        &&& d.element_type == t
        &&& name_view(d.item_name) == name
        &&& d.parent == Some(p as usize)
        &&& d.content@.len() == 0
        &&& d.attributes@.len() == 0
        &&& d.files@ == old.elements@[p].files@
        &&& d.alive
        &&& forall|i: int| 0 <= i < n ==> self.rank@[i] == old.rank@[i]
    }

    /// Creates a sub-element of type `t` under `p`, named `name`, at position `pos`
    /// (at the end where None).
    #[verifier::spinoff_prover]
    #[verifier::rlimit(100)]
    pub(crate) fn create_sub_element_impl(&mut self, p: usize, t: usize, name: Option<&str>, pos: Option<usize>) -> (r: Result<Element, AutosarDataError>)
        requires
            old(self).wf(),
            old(self).elements@.len() < usize::MAX,
        ensures
            final(self).wf(),
            ({
                let nm = match name { Some(s) => Some(s@), None => None };
                match r {
                    Ok(el) => old(self).create_error(p as int, t, nm, pos) is None
                        && final(self).created(old(self), p as int, t, nm, pos, el),
                    Err(e) => old(self).create_error(p as int, t, nm, pos) == Some(e) && *final(self) == *old(self),
                }
            }),
    {
        let ghost nm = match name { Some(s) => Some(s@), None => None::<Seq<char>> };
        let ghost ls = self.links();
        let ghost rk = self.ranks();
        if p >= self.elements.len() || !self.elements[p].alive {
            return Err(AutosarDataError::DetachedElement);
        }
        if t >= self.schema.types.len() || !self.check_allowed_here(p, t) {
            return Err(AutosarDataError::InvalidStructure);
        }
        proof {
            assert(self.elem_wf(p as int));
        }
        let ordered = self.schema.types[self.elements[p].element_type].content_type == ContentType::Elements;
        let at = match pos {
            Some(k) => {
                if k > self.elements[p].content.len() {
                    return Err(AutosarDataError::InvalidPosition);
                }
                if ordered && !self.check_fits(p, t, k) {
                    return Err(AutosarDataError::InvalidPosition);
                }
                k
            },
            None => if ordered { self.range_end_exec(p, t) } else { self.elements[p].content.len() },
        };
        proof {
            let oc = self.elements@[p as int].content@;
            self.lemma_range_end(p as int, oc, t, oc.len() as int);
            assert(at as int == self.insert_at(p as int, oc, t, pos));
            assert(at <= oc.len());
        }
        let identifiable = self.schema.types[t].identifiable;
        if identifiable && name.is_none() {
            return Err(AutosarDataError::ItemNameRequired);
        }
        if !identifiable && name.is_some() {
            return Err(AutosarDataError::NotIdentifiable);
        }
        let item_name = match name {
            Some(nstr) => {
                if let Some(mut cand) = self.compute_path(p) {
                    let ghost pp = cand@;
                    proof { reveal_strlit("/"); }
                    cand.append("/");
                    cand.append(nstr);
                    proof {
                        assert("/"@ =~= seq!['/']);
                        assert(cand@ == pp + seq!['/'] + nstr@);
                    }
                    if let Some(found) = self.find_path(&cand) {
                        proof {
                            assert(self.path_of(p as int) == Some(pp));
                            assert(is_at_path(self.links(), self.ranks(), found as int, pp + seq!['/'] + nstr@));
                            assert(nm == Some(nstr@));
                            assert(self.is_live(p as int));
                            assert(self.allowed_here(p as int, t));
                            assert(!(pos matches Some(k) && k > self.elements@[p as int].content@.len()));
                            assert(self.schema.types@[t as int].identifiable);
                            let w = found as int;
                            let tail = pp + seq!['/'] + nstr@;
                            assert(is_at_path(self.links(), self.ranks(), w, tail));
                            self.lemma_name_taken(p as int, nstr@, w);
                            assert(self.create_error(p as int, t, nm, pos) == Some(AutosarDataError::DuplicateItemName));
                        }
                        return Err(AutosarDataError::DuplicateItemName);
                    }
                    proof {
                        assert(!exists|i: int| is_at_path(ls, rk, i, pp + seq!['/'] + nstr@));
                    }
                }
                let nname = String::from_str(nstr);
                proof {
                    assert(nm == Some(nname@));
                    assert(!self.name_taken(p as int, nname@));
                }
                Some(nname)
            },
            None => None,
        };
        proof {
            assert(self.elem_wf(p as int));
        }
        let files = self.elements[p].files.clone();
        proof {
            assert(files@ =~= self.elements@[p as int].files@);
        }
        let n = self.elements.len();
        let data = ElementData {
            element_type: t,
            item_name,
            parent: Some(p),
            content: Vec::new(),
            attributes: Vec::new(),
            files,
            alive: true,
        };
        self.elements.push(data);
        self.rank = Ghost(rk.push(rk[p as int] + 1));
        self.elements[p].content.insert(at, ElementContent::Element(Element { id: n }));
        proof {
            let x: Link = (Some(p), nm, true);
            let ls2 = self.links();
            let rk2 = self.ranks();
            assert(ls2 =~= ls.push(x));
            assert(ranked(ls2, rk2)) by {
                assert forall|i: int| 0 <= i < ls2.len() implies match (#[trigger] ls2[i]).0 {
                    Some(q) => q < ls2.len() && rk2[q as int] < rk2[i],
                    None => true,
                } by {
                    if i < n {
                        assert(ls2[i] == ls[i]);
                        assert(ranked(ls, rk));
                        assert(match ls[i].0 { Some(q) => q < ls.len() && rk[q as int] < rk[i], None => true });
                    }
                }
            }
            assert forall|i: int| 0 <= i < n implies #[trigger] full_path(ls2, rk2, i) == full_path(ls, rk, i) by {
                lemma_path_push(ls, x, i, rk[i] + 1);
            }
            assert(full_path(ls2, rk2, n as int) == path_str(ls2, n as int, rk[p as int] + 2));
            assert(rk2[p as int] == rk[p as int]);
            assert(full_path(ls2, rk2, p as int) == full_path(ls, rk, p as int));
            assert(path_str(ls2, p as int, rk[p as int] + 1) == full_path(ls, rk, p as int));
            assert forall|i: int, j: int|
                0 <= i < ls2.len() && 0 <= j < ls2.len() && ls2[i].1 is Some && ls2[j].1 is Some
                    && #[trigger] full_path(ls2, rk2, i) is Some && full_path(ls2, rk2, i) == #[trigger] full_path(ls2, rk2, j)
                    implies i == j by {
                if i < n && j < n {
                    assert(ls2[i] == ls[i] && ls2[j] == ls[j]);
                    assert(full_path(ls, rk, i) == full_path(ls, rk, j));
                } else if i < n && j == n {
                    let pp = full_path(ls, rk, p as int)->Some_0;
                    assert(full_path(ls2, rk2, j) == Some(pp + seq!['/'] + nm->Some_0));
                    assert(is_at_path(ls, rk, i, pp + seq!['/'] + nm->Some_0));
                } else if i == n && j < n {
                    let pp = full_path(ls, rk, p as int)->Some_0;
                    assert(full_path(ls2, rk2, i) == Some(pp + seq!['/'] + nm->Some_0));
                    assert(is_at_path(ls, rk, j, pp + seq!['/'] + nm->Some_0));
                }
            }
            assert forall|c: int| 0 <= c < n implies #[trigger] self.elements@[c].element_type == old(self).elements@[c].element_type by {
                if c != p {
                    assert(self.elements@[c] == old(self).elements@[c]);
                }
            }
            assert forall|i: int| 0 <= i < self.elements@.len() implies #[trigger] self.elem_wf(i) by {
                if i < n {
                    assert(old(self).elem_wf(i));
                    let d = self.elements@[i];
                    if i != p {
                        assert(d == old(self).elements@[i]);
                    }
                    assert forall|k: int| 0 <= k < d.content@.len() implies match #[trigger] d.content@[k] {
                        ElementContent::Element(c) => c.id < self.elements@.len()
                            && (self.elements@[c.id as int].alive ==> self.elements@[c.id as int].parent == Some(i as usize)),
                        ElementContent::CharacterData(_) => true,
                    } by {
                        if i != p {
                            assert(d.content@[k] == old(self).elements@[i].content@[k]);
                        } else if k < at {
                            assert(d.content@[k] == old(self).elements@[i].content@[k]);
                        } else if k > at {
                            assert(d.content@[k] == old(self).elements@[i].content@[k - 1]);
                        }
                    }
                    assert forall|k: int| 0 <= k < d.files@.len() implies #[trigger] d.files@[k] < self.files@.len() by {
                        assert(d.files@[k] == old(self).elements@[i].files@[k]);
                    }
                } else {
                    let d = self.elements@[i];
                    assert forall|k: int| 0 <= k < d.files@.len() implies #[trigger] d.files@[k] < self.files@.len() by {
                        assert(d.files@[k] == old(self).elements@[p as int].files@[k]);
                    }
                }
            }
        }
        Ok(Element { id: n })
    }
}


impl AutosarModel {
    /// `c` is a live sub-element of the live element `p`.
    pub open spec fn is_child(&self, p: int, c: int) -> bool {
        &&& self.is_live(p)
        &&& self.is_live(c)
        &&& self.elements@[c].parent == Some(p as usize)
        &&& self.elements@[p].content@.contains(ElementContent::Element(Element { id: c as usize }))
    }

    /// `self` is `old` after the subtree of `c` was removed from under `p`.
    pub open spec fn removed(&self, old: &AutosarModel, p: int, c: int) -> bool {
        &&& self.schema == old.schema
        &&& self.files == old.files
        &&& self.rank@ == old.rank@
        &&& self.elements@.len() == old.elements@.len()
        &&& forall|i: int| 0 <= i < self.elements@.len() && #[trigger] old.in_subtree(i, c)
            ==> !self.elements@[i].alive && self.elements@[i].files@.len() == 0
        &&& forall|i: int| 0 <= i < self.elements@.len() && !(#[trigger] old.in_subtree(i, c)) && i != p
            ==> self.elements@[i] == old.elements@[i]
        &&& exists|k: int| 0 <= k < old.elements@[p].content@.len()
            && old.elements@[p].content@[k] == ElementContent::Element(Element { id: c as usize })
            && self.elements@[p].content@ == old.elements@[p].content@.remove(k)
        &&& self.elements@[p].element_type == old.elements@[p].element_type
        &&& self.elements@[p].item_name == old.elements@[p].item_name
        &&& self.elements@[p].parent == old.elements@[p].parent
        &&& self.elements@[p].attributes == old.elements@[p].attributes
        &&& self.elements@[p].files == old.elements@[p].files
        &&& self.elements@[p].alive == old.elements@[p].alive
    }

    /// The position of sub-element `c` in the content of `p`.
    fn find_child_index(&self, p: usize, c: usize) -> (r: Option<usize>)
        requires
            p < self.elements@.len(),
        ensures
            r matches Some(k) ==> k < self.elements@[p as int].content@.len()
                && self.elements@[p as int].content@[k as int] == ElementContent::Element(Element { id: c }),
            r is None ==> !self.elements@[p as int].content@.contains(ElementContent::Element(Element { id: c })),
    {
        let ghost target = ElementContent::Element(Element { id: c });
        let m = self.elements[p].content.len();
        let mut k: usize = 0;
        while k < m
            invariant
                m == self.elements@[p as int].content@.len(),
                p < self.elements@.len(),
                k <= m,
                target == ElementContent::Element(Element { id: c }),
                forall|j: int| 0 <= j < k ==> self.elements@[p as int].content@[j] != target,
            decreases m - k,
        {
            match &self.elements[p].content[k] {
                ElementContent::Element(e) => {
                    if e.id == c {
                        return Some(k);
                    }
                    assert(*e != Element { id: c });
                },
                ElementContent::CharacterData(_) => {},
            }
            k += 1;
        }
        None
    }

    /// Removes the sub-element `c` of `p` with its whole subtree.
    #[verifier::spinoff_prover]
    #[verifier::rlimit(40)]
    pub(crate) fn remove_sub_element_impl(&mut self, p: usize, c: usize) -> (r: Result<(), AutosarDataError>)
        requires
            old(self).wf(),
        ensures
            final(self).wf(),
            (r is Ok) == old(self).is_child(p as int, c as int),
            r is Ok ==> final(self).removed(old(self), p as int, c as int),
            r is Err ==> r == Err::<(), AutosarDataError>(AutosarDataError::DetachedElement) && *final(self) == *old(self),
    {
        let ghost ls = self.links();
        let ghost rk = self.ranks();
        let n = self.elements.len();
        if p >= n || !self.elements[p].alive || c >= n || !self.elements[c].alive || self.elements[c].parent != Some(p) {
            return Err(AutosarDataError::DetachedElement);
        }
        let ghost target = ElementContent::Element(Element { id: c });
        let k = match self.find_child_index(p, c) {
            Some(k) => k,
            None => {
                return Err(AutosarDataError::DetachedElement);
            },
        };
        proof {
            assert(old(self).elem_wf(c as int));
            assert(ls[c as int].0 == self.elements@[c as int].parent);
            assert(rk[p as int] < rk[c as int]);
            assert(ls[p as int].0 == self.elements@[p as int].parent);
        }
        let mut i: usize = 0;
        while i < n
            invariant
                n == self.elements@.len(),
                n == old(self).elements@.len(),
                i <= n,
                self.schema == old(self).schema,
                self.files == old(self).files,
                self.rank@ == rk,
                ls == old(self).links(),
                rk == old(self).ranks(),
                ranked(ls, rk),
                forall|j: int| 0 <= j < n ==> (#[trigger] self.elements@[j]).parent == old(self).elements@[j].parent
                    && self.elements@[j].item_name == old(self).elements@[j].item_name
                    && self.elements@[j].element_type == old(self).elements@[j].element_type
                    && self.elements@[j].content == old(self).elements@[j].content
                    && self.elements@[j].attributes == old(self).elements@[j].attributes,
                forall|j: int| 0 <= j < i && #[trigger] old(self).in_subtree(j, c as int)
                    ==> !self.elements@[j].alive && self.elements@[j].files@.len() == 0,
                forall|j: int| i <= j < n ==> #[trigger] self.elements@[j] == old(self).elements@[j],
                forall|j: int| 0 <= j < i && !(#[trigger] old(self).in_subtree(j, c as int))
                    ==> self.elements@[j] == old(self).elements@[j],
            decreases n - i,
        {
            proof {
                let l2 = self.links();
                assert forall|j: int| 0 <= j < l2.len() implies (#[trigger] l2[j]).0 == ls[j].0 by {
                    assert(self.elements@[j].parent == old(self).elements@[j].parent);
                }
                lemma_reaches_parents(l2, ls, i as int, c as int, rk[i as int] + 1);
                assert(ranked(l2, rk)) by {
                    assert forall|j: int| 0 <= j < l2.len() implies match (#[trigger] l2[j]).0 {
                        Some(q) => q < l2.len() && rk[q as int] < rk[j],
                        None => true,
                    } by {
                        assert(l2[j].0 == ls[j].0);
                        assert(match ls[j].0 { Some(q) => q < ls.len() && rk[q as int] < rk[j], None => true });
                    }
                }
            }
            let inside = self.is_in_subtree(i, c);
            proof {
                assert(inside == old(self).in_subtree(i as int, c as int));
            }
            if inside {
                self.elements[i].alive = false;
                self.elements[i].files = Vec::new();
            }
            i += 1;
        }
        self.elements[c].parent = None;
        let ghost mid = self.elements@[p as int].content@;
        self.elements[p].content.remove(k);
        proof {
            let ls2 = self.links();
            assert(old(self).in_subtree(c as int, c as int));
            if old(self).in_subtree(p as int, c as int) {
                lemma_reaches_rank(ls, rk, p as int, c as int, rk[p as int] + 1);
            }
            if old(self).in_subtree(0, c as int) {
                assert(ls[0].0 is None);
            }
            assert(self.elements@[p as int].content@ == old(self).elements@[p as int].content@.remove(k as int));
            assert forall|j: int| 0 <= j < ls2.len() && (#[trigger] ls2[j]).2 implies
                ls[j].2 && ls2[j].1 == ls[j].1 && ls2[j].0 == ls[j].0 by {
                if old(self).in_subtree(j, c as int) {
                } else {
                    assert(j != c);
                }
            }
            assert(ranked(ls2, rk)) by {
                assert forall|j: int| 0 <= j < ls2.len() implies match (#[trigger] ls2[j]).0 {
                    Some(q) => q < ls2.len() && rk[q as int] < rk[j],
                    None => true,
                } by {
                    if j != c {
                        assert(ls2[j].0 == ls[j].0);
                        assert(match ls[j].0 { Some(q) => q < ls.len() && rk[q as int] < rk[j], None => true });
                    }
                }
            }
            assert forall|a: int, b: int|
                0 <= a < ls2.len() && 0 <= b < ls2.len() && ls2[a].1 is Some && ls2[b].1 is Some
                    && #[trigger] full_path(ls2, rk, a) is Some && full_path(ls2, rk, a) == #[trigger] full_path(ls2, rk, b)
                    implies a == b by {
                lemma_path_shrink(ls, ls2, a, rk[a] + 1);
                lemma_path_shrink(ls, ls2, b, rk[b] + 1);
                assert(ls[a].1 == ls2[a].1 && ls[b].1 == ls2[b].1);
                assert(full_path(ls, rk, a) == full_path(ls, rk, b));
            }
            assert(!old(self).in_subtree(p as int, c as int));
            assert forall|y: int| 0 <= y < n && (#[trigger] self.elements@[y]).alive implies
                old(self).elements@[y].alive
                    && (y != c ==> self.elements@[y].parent == old(self).elements@[y].parent) by {
                if old(self).in_subtree(y, c as int) {
                    assert(!self.elements@[y].alive);
                }
                if !old(self).in_subtree(y, c as int) && y != p {
                    assert(self.elements@[y] == old(self).elements@[y]);
                }
            }
            assert forall|j: int| 0 <= j < self.elements@.len() implies #[trigger] self.elem_wf(j) by {
                assert(old(self).elem_wf(j));
                let d = self.elements@[j];
                let od = old(self).elements@[j];
                if j != p {
                    assert(d.content == od.content);
                } else {
                    assert(d.files == od.files);
                }
                if !old(self).in_subtree(j, c as int) {
                    assert(d.files == od.files);
                }
                assert forall|q: int| 0 <= q < d.content@.len() implies match #[trigger] d.content@[q] {
                    ElementContent::Element(x) => x.id < self.elements@.len()
                        && (self.elements@[x.id as int].alive ==> self.elements@[x.id as int].parent == Some(j as usize)),
                    ElementContent::CharacterData(_) => true,
                } by {
                    let oq = if j == p && q >= k { q + 1 } else { q };
                    assert(d.content@[q] == od.content@[oq]);
                    if let ElementContent::Element(x) = d.content@[q] {
                        if self.elements@[x.id as int].alive {
                            assert(x.id != c);
                            assert(old(self).elements@[x.id as int].alive);
                            assert(self.elements@[x.id as int].parent == old(self).elements@[x.id as int].parent);
                        }
                    }
                }
                assert forall|k1: int, k2: int| 0 <= k1 < d.content@.len() && 0 <= k2 < d.content@.len()
                    && (#[trigger] d.content@[k1]) is Element && d.content@[k1] == #[trigger] d.content@[k2] implies k1 == k2 by {
                    let o1 = if j == p && k1 >= k { k1 + 1 } else { k1 };
                    let o2 = if j == p && k2 >= k { k2 + 1 } else { k2 };
                    assert(d.content@[k1] == od.content@[o1]);
                    assert(d.content@[k2] == od.content@[o2]);
                }
                assert forall|q: int| 0 <= q < d.files@.len() implies #[trigger] d.files@[q] < self.files@.len() by {
                    assert(d.files@[q] == od.files@[q]);
                }
            }
        }
        Ok(())
    }
}


impl AutosarModel {
    /// The path that reference element `r` holds, if it holds one.
    pub open spec fn stored_reference(&self, r: int) -> Option<Seq<char>> {
        let c = self.elements@[r].content@;
        if c.len() == 1 {
            match c[0] {
                ElementContent::CharacterData(CharacterData::Text(s)) => Some(s@),
                _ => None,
            }
        } else {
            None
        }
    }

    /// The error, if any, of pointing reference element `r` at `t`.
    pub open spec fn set_reference_error(&self, r: int, t: int) -> Option<AutosarDataError> {
        let rt = self.elements@[r].element_type as int;
        if !self.is_live(r) || !self.is_live(t) {
            Some(AutosarDataError::DetachedElement)
        } else if !self.schema.is_reference_spec(rt) {
            Some(AutosarDataError::InvalidReference)
        } else if !self.schema.types@[rt].reference_dest->Some_0@.contains(self.elements@[t].element_type) {
            Some(AutosarDataError::InvalidReference)
        } else if self.elements@[t].item_name is None {
            Some(AutosarDataError::NotIdentifiable)
        } else if self.path_of(t) is None {
            Some(AutosarDataError::PathResolutionFailed)
        } else {
            None
        }
    }

    /// What reading reference element `r` gives.
    pub open spec fn reference_target(&self, r: int) -> Result<Element, AutosarDataError> {
        if !self.is_live(r) {
            Err(AutosarDataError::DetachedElement)
        } else if !self.schema.is_reference_spec(self.elements@[r].element_type as int) {
            Err(AutosarDataError::InvalidReference)
        } else {
            match self.stored_reference(r) {
                Some(p) => match self.lookup_spec(p) {
                    Some(e) => Ok(e),
                    None => Err(AutosarDataError::InvalidReference),
                },
                None => Err(AutosarDataError::InvalidReference),
            }
        }
    }

    /// The character data that element `r` holds, if it holds one value.
    pub open spec fn character_data_of(&self, r: int) -> Option<CharacterData> {
        let c = self.elements@[r].content@;
        if c.len() == 1 {
            match c[0] {
                ElementContent::CharacterData(v) => Some(v),
                _ => None,
            }
        } else {
            None
        }
    }

    /// Replaces the content of live element `r` by `value`, or empties it where None.
    pub(crate) fn replace_content(&mut self, r: usize, value: Option<CharacterData>)
        requires
            old(self).wf(),
            old(self).is_live(r as int),
            old(self).schema.types@[old(self).elements@[r as int].element_type as int].content_type == ContentType::CharacterData,
        ensures
            final(self).wf(),
            final(self).same_but_content(old(self), r as int),
            final(self).character_data_of(r as int) == value,
            final(self).links() == old(self).links(),
            value matches Some(CharacterData::Text(s)) ==> final(self).stored_reference(r as int) == Some(s@),
            value is None ==> final(self).elements@[r as int].content@.len() == 0,
    {
        let mut content: Vec<ElementContent> = Vec::new();
        if let Some(v) = value {
            content.push(ElementContent::CharacterData(v));
        }
        self.elements[r].content = content;
        proof {
            assert(self.links() =~= old(self).links());
            assert forall|j: int| 0 <= j < self.elements@.len() implies #[trigger] self.elem_wf(j) by {
                assert(old(self).elem_wf(j));
                let d = self.elements@[j];
                let od = old(self).elements@[j];
                if j != r {
                    assert(d == od);
                }
                assert forall|q: int| 0 <= q < d.files@.len() implies #[trigger] d.files@[q] < self.files@.len() by {
                    assert(d.files@[q] == od.files@[q]);
                }
            }
        }
    }

    /// Replaces the file list of live element `r`.
    pub(crate) fn replace_files(&mut self, r: usize, files: Vec<usize>)
        requires
            old(self).wf(),
            old(self).is_live(r as int),
            forall|k: int| 0 <= k < files@.len() ==> #[trigger] files@[k] < old(self).files@.len(),
        ensures
            final(self).wf(),
            final(self).elements@.len() == old(self).elements@.len(),
            final(self).elements@[r as int].files@ == files@,
            final(self).files == old(self).files,
            final(self).schema == old(self).schema,
            final(self).rank@ == old(self).rank@,
            forall|i: int| 0 <= i < final(self).elements@.len() && i != r ==> final(self).elements@[i] == old(self).elements@[i],
            final(self).elements@[r as int].content == old(self).elements@[r as int].content,
            final(self).links() == old(self).links(),
    {
        self.elements[r].files = files;
        proof {
            assert(self.links() =~= old(self).links());
            assert forall|j: int| 0 <= j < self.elements@.len() implies #[trigger] self.elem_wf(j) by {
                assert(old(self).elem_wf(j));
                let d = self.elements@[j];
                let od = old(self).elements@[j];
                if j != r {
                    assert(d == od);
                }
                assert(d.content == od.content);
            }
        }
    }
}

/// Whether `v` holds `x`.
pub fn contains_index(v: &Vec<usize>, x: usize) -> (r: bool)
    ensures
        r == v@.contains(x),
{
    let n = v.len();
    let mut i: usize = 0;
    while i < n
        invariant
            n == v@.len(),
            i <= n,
            forall|j: int| 0 <= j < i ==> v@[j] != x,
        decreases n - i,
    {
        if v[i] == x {
            return true;
        }
        i += 1;
    }
    false
}


impl AutosarModel {
    /// `self` holds the same state as `old`.
    pub open spec fn unchanged(&self, old: &AutosarModel) -> bool {
        &&& self.schema == old.schema
        &&& self.files == old.files
        &&& self.elements@ == old.elements@
        &&& self.rank@ == old.rank@
    }

    /// The links after element `e` is hung under `d`.
    pub open spec fn moved_links(&self, d: int, e: int) -> Seq<Link> {
        self.links().update(e, (Some(d as usize), self.links()[e].1, self.links()[e].2))
    }

    /// The ranks after element `e` is hung under `d`: its subtree is lifted above `d`.
    pub open spec fn moved_ranks(&self, d: int, e: int) -> Seq<nat> {
        let rk = self.ranks();
        let shift: nat = if rk[d] + 1 > rk[e] { (rk[d] + 1 - rk[e]) as nat } else { 0 };
        Seq::new(rk.len(), |i: int| if self.in_subtree(i, e) { rk[i] + shift } else { rk[i] })
    }

    /// The length that the content of `d` has once `e` is taken out of its old place.
    /// The content of `d` once `e` is taken out of its old place.
    pub open spec fn move_base(&self, d: int, e: int) -> Seq<ElementContent> {
        let c = self.elements@[d].content@;
        if self.elements@[e].parent == Some(d as usize) {
            c.remove(choose|k: int| 0 <= k < c.len() && c[k] == ElementContent::Element(Element { id: e as usize }))
        } else {
            c
        }
    }

    pub open spec fn room_after_move(&self, d: int, e: int) -> int {
        let n = self.elements@[d].content@.len() as int;
        if self.elements@[e].parent == Some(d as usize) { n - 1 } else { n }
    }

    /// The error, if any, of moving `e` under `d` at position `pos` (at the end where None).
    pub open spec fn move_error(&self, d: int, e: int, pos: Option<usize>) -> Option<AutosarDataError> {
        if !self.is_live(d) || !self.is_live(e) || self.elements@[e].parent is None {
            Some(AutosarDataError::DetachedElement)
        } else if !self.is_child(self.elements@[e].parent->Some_0 as int, e) {
            Some(AutosarDataError::DetachedElement)
        } else if self.in_subtree(d, e) {
            Some(AutosarDataError::CycleDetected)
        } else if self.elements@[e].parent != Some(d as usize) && !self.allowed_here(d, self.elements@[e].element_type) {
            Some(AutosarDataError::InvalidStructure)
        } else if pos matches Some(k) && k > self.room_after_move(d, e) {
            Some(AutosarDataError::InvalidPosition)
        } else if self.ordered_mode(d) && (pos matches Some(k)
            && !self.fits_in(d, self.move_base(d, e), self.elements@[e].element_type, k as int)) {
            Some(AutosarDataError::InvalidPosition)
        } else if !unique_paths(self.moved_links(d, e), self.moved_ranks(d, e)) {
            Some(AutosarDataError::DuplicateItemName)
        } else {
            None
        }
    }

    proof fn lemma_moved_ranked(&self, d: int, e: int)
        requires
            self.wf(),
            self.is_live(d),
            self.is_live(e),
            !self.in_subtree(d, e),
        ensures
            ranked(self.moved_links(d, e), self.moved_ranks(d, e)),
    {
        let ls = self.links();
        let rk = self.ranks();
        let ls2 = self.moved_links(d, e);
        let rk2 = self.moved_ranks(d, e);
        let shift: nat = if rk[d] + 1 > rk[e] { (rk[d] + 1 - rk[e]) as nat } else { 0 };
        assert(self.in_subtree(e, e));
        assert(rk.len() == ls.len());
        assert(self.elements@.len() == self.elements.len());
        assert forall|i: int| 0 <= i < ls2.len() implies rk2[i] == if self.in_subtree(i, e) { rk[i] + shift } else { rk[i] } by {}
        assert forall|i: int| 0 <= i < ls2.len() implies match (#[trigger] ls2[i]).0 {
            Some(q) => q < ls2.len() && rk2[q as int] < rk2[i],
            None => true,
        } by {
            if i == e {
                assert(rk2[d] == rk[d]);
                assert(rk2[e] == rk[e] + shift);
            } else {
                assert(ls2[i] == ls[i]);
                if let Some(q) = ls[i].0 {
                    let q = q as int;
                    assert(rk[q] < rk[i]);
                    lemma_reaches_fuel(ls, rk, q, e, rk[i]);
                    if self.in_subtree(i, e) {
                        assert(self.in_subtree(q, e));
                    } else {
                        assert(!self.in_subtree(q, e));
                    }
                }
            }
        }
    }

    /// Where `e` goes in the content of `d` when moved there: at `pos`, which must fit
    /// the schema's order, or at the end of its canonical range.
    fn move_position(&self, d: usize, e: usize, op: usize, ko: usize, pos: Option<usize>) -> (r: Result<usize, AutosarDataError>)
        requires
            self.wf(),
            self.is_live(d as int),
            self.is_live(e as int),
            op < self.elements@.len(),
            self.elements@[e as int].parent == Some(op),
            ko < self.elements@[op as int].content@.len(),
            self.elements@[op as int].content@[ko as int] == ElementContent::Element(Element { id: e }),
        ensures
            ({
                let base = self.move_base(d as int, e as int);
                let te = self.elements@[e as int].element_type;
                &&& r is Err <==> ((pos matches Some(k) && k > self.room_after_move(d as int, e as int))
                    || (self.ordered_mode(d as int) && (pos matches Some(k) && !self.fits_in(d as int, base, te, k as int))))
                &&& r is Err ==> r == Err::<usize, AutosarDataError>(AutosarDataError::InvalidPosition)
                &&& r matches Ok(at) ==> at <= base.len() && (pos matches Some(k) ==> at == k)
                    && (pos is None ==> at == self.insert_at(d as int, base, te, pos))
                &&& base == (if op == d { self.elements@[d as int].content@.remove(ko as int) } else { self.elements@[d as int].content@ })
            }),
    {
        let room = if op == d { self.elements[d].content.len() - 1 } else { self.elements[d].content.len() };
        proof {
            assert(self.elem_wf(d as int));
            assert(self.elem_wf(op as int));
        }
        let ordered = self.schema.types[self.elements[d].element_type].content_type == ContentType::Elements;
        let te = self.elements[e].element_type;
        let skip = if op == d { Some(ko) } else { None };
        let ghost base = self.move_base(d as int, e as int);
        proof {
            let c = self.elements@[d as int].content@;
            if op == d {
                let w = choose|k: int| 0 <= k < c.len() && c[k] == ElementContent::Element(Element { id: e });
                assert(0 <= w < c.len() && c[w] == ElementContent::Element(Element { id: e }));
                assert(w == ko);
            }
            assert(base == (match skip { Some(k) => c.remove(k as int), None => c }));
        }
        let keys = if ordered { self.base_keys(d, skip) } else { Vec::new() };
        let tk = if ordered { self.type_key_exec(d, te) } else { 0 };
        let at = match pos {
            Some(k) => {
                if k > room {
                    return Err(AutosarDataError::InvalidPosition);
                }
                if ordered && !Self::keys_fit(&keys, tk, k) {
                    proof {
                        assert(!self.fits_in(d as int, base, te, k as int));
                    }
                    return Err(AutosarDataError::InvalidPosition);
                }
                proof {
                    if ordered {
                        assert forall|a: int| 0 <= a < k implies self.content_key(d as int, #[trigger] base[a]) <= self.type_key(d as int, te) by {
                            assert(keys@[a] as int == self.content_key(d as int, base[a]));
                        }
                        assert forall|a: int| k <= a < base.len() implies self.content_key(d as int, #[trigger] base[a]) >= self.type_key(d as int, te) by {
                            assert(keys@[a] as int == self.content_key(d as int, base[a]));
                        }
                    }
                }
                k
            },
            None => if ordered {
                let mut j: usize = keys.len();
                while j > 0 && keys[j - 1] > tk
                    invariant
                        j <= keys@.len(),
                        keys@.len() == base.len(),
                        tk as int == self.type_key(d as int, te),
                        forall|a: int| 0 <= a < base.len() ==> #[trigger] keys@[a] as int == self.content_key(d as int, base[a]),
                        self.range_end(d as int, base, te, base.len() as int) == self.range_end(d as int, base, te, j as int),
                    decreases j,
                {
                    j -= 1;
                }
                j
            } else {
                room
            },
        };
        proof {
            assert(base.len() == self.room_after_move(d as int, e as int));
        }
        Ok(at)
    }

    /// Moves the live element `e` under `d`, at position `pos` (at the end where None).
    #[verifier::spinoff_prover]
    #[verifier::rlimit(100)]
    pub(crate) fn move_element_impl(&mut self, d: usize, e: usize, pos: Option<usize>) -> (r: Result<Element, AutosarDataError>)
        requires
            old(self).wf(),
        ensures
            final(self).wf(),
            match r {
                Ok(el) => old(self).move_error(d as int, e as int, pos) is None && el.id == e
                    && final(self).links() == old(self).moved_links(d as int, e as int)
                    && final(self).schema == old(self).schema
                    && final(self).files == old(self).files
                    && final(self).elements@.len() == old(self).elements@.len()
                    && (forall|i: int| 0 <= i < final(self).elements@.len() ==> (#[trigger] final(self).elements@[i]).files == old(self).elements@[i].files
                        && final(self).elements@[i].element_type == old(self).elements@[i].element_type
                        && final(self).elements@[i].attributes == old(self).elements@[i].attributes)
                    && final(self).elements@[d as int].content@.contains(ElementContent::Element(el)),
                Err(err) => old(self).move_error(d as int, e as int, pos) == Some(err) && final(self).unchanged(old(self)),
            },
    {
        let ghost ls = self.links();
        let ghost rk = self.ranks();
        let n = self.elements.len();
        if d >= n || !self.elements[d].alive || e >= n || !self.elements[e].alive {
            return Err(AutosarDataError::DetachedElement);
        }
        let op = match self.elements[e].parent {
            None => {
                return Err(AutosarDataError::DetachedElement);
            },
            Some(q) => q,
        };
        proof {
            assert(self.elem_wf(e as int));
        }
        if !self.elements[op].alive {
            return Err(AutosarDataError::DetachedElement);
        }
        let ko = match self.find_child_index(op, e) {
            Some(k) => k,
            None => {
                return Err(AutosarDataError::DetachedElement);
            },
        };
        proof {
            assert(self.elements@[op as int].content@[ko as int] == ElementContent::Element(Element { id: e }));
            assert(self.is_child(op as int, e as int));
        }
        if self.is_in_subtree(d, e) {
            return Err(AutosarDataError::CycleDetected);
        }
        if op != d && !self.check_allowed_here(d, self.elements[e].element_type) {
            return Err(AutosarDataError::InvalidStructure);
        }
        let at = match self.move_position(d, e, op, ko, pos) {
            Ok(at) => at,
            Err(err) => {
                return Err(err);
            },
        };
        proof {
            self.lemma_moved_ranked(d as int, e as int);
        }
        let ghost rk2 = self.moved_ranks(d as int, e as int);
        let ghost ls2 = self.moved_links(d as int, e as int);
        self.elements[e].parent = Some(d);
        self.rank = Ghost(rk2);
        proof {
            assert(self.links() =~= ls2);
        }
        if !self.check_unique_paths() {
            self.elements[e].parent = Some(op);
            self.rank = Ghost(rk);
            proof {
                assert(self.elements@ =~= old(self).elements@);
                assert(self.links() =~= old(self).links());
                assert forall|i: int| 0 <= i < self.elements@.len() implies #[trigger] self.elem_wf(i) by {
                    assert(old(self).elem_wf(i));
                }
            }
            return Err(AutosarDataError::DuplicateItemName);
        }
        let ghost mid = *self;
        let item = self.elements[op].content.remove(ko);
        let ghost after_remove = *self;
        self.elements[d].content.insert(at, item);
        proof {
            assert(self.links() =~= ls2);
            assert(item == ElementContent::Element(Element { id: e }));
            let oc = old(self).elements@[d as int].content@;
            // e sits nowhere but at `ko` in the content of its old parent.
            assert forall|j: int, q: int| 0 <= j < n && 0 <= q < old(self).elements@[j].content@.len()
                && old(self).elements@[j].content@[q] == ElementContent::Element(Element { id: e })
                implies j == op && q == ko by {
                assert(old(self).elem_wf(j));
                assert(old(self).elem_wf(op as int));
            }
            assert forall|c: int| 0 <= c < n implies #[trigger] self.elements@[c].element_type == old(self).elements@[c].element_type by {
                assert(self.elements@[c].element_type == mid.elements@[c].element_type);
            }
            assert(after_remove.elements@[d as int].content@ == (if op == d { old(self).elements@[d as int].content@.remove(ko as int) } else { old(self).elements@[d as int].content@ }));
            assert forall|j: int| 0 <= j < self.elements@.len() implies #[trigger] self.elem_wf(j) by {
                assert(old(self).elem_wf(j));
                let dd = self.elements@[j];
                let od = old(self).elements@[j];
                let removed_here = j == op;
                let inserted_here = j == d;
                // map each index of the new content to the old one
                assert forall|q: int| 0 <= q < dd.content@.len() implies match #[trigger] dd.content@[q] {
                    ElementContent::Element(x) => x.id < self.elements@.len()
                        && (self.elements@[x.id as int].alive ==> self.elements@[x.id as int].parent == Some(j as usize)),
                    ElementContent::CharacterData(_) => true,
                } by {
                    let mc = after_remove.elements@[j].content@;
                    if inserted_here && q == at {
                    } else {
                        let q1 = if inserted_here && q > at { q - 1 } else { q };
                        assert(dd.content@[q] == mc[q1]);
                        let q2 = if removed_here && q1 >= ko { q1 + 1 } else { q1 };
                        assert(mc[q1] == od.content@[q2]);
                        if let ElementContent::Element(x) = od.content@[q2] {
                            if x.id == e {
                                assert(j == op && q2 == ko);
                            }
                        }
                    }
                }
                assert forall|k1: int, k2: int| 0 <= k1 < dd.content@.len() && 0 <= k2 < dd.content@.len()
                    && (#[trigger] dd.content@[k1]) is Element && dd.content@[k1] == #[trigger] dd.content@[k2] implies k1 == k2 by {
                    let mc = after_remove.elements@[j].content@;
                    let a1 = if inserted_here && k1 > at { k1 - 1 } else { k1 };
                    let a2 = if inserted_here && k2 > at { k2 - 1 } else { k2 };
                    let b1 = if removed_here && a1 >= ko { a1 + 1 } else { a1 };
                    let b2 = if removed_here && a2 >= ko { a2 + 1 } else { a2 };
                    if inserted_here && (k1 == at || k2 == at) {
                        if k1 != at {
                            assert(dd.content@[k1] == mc[a1]);
                            assert(mc[a1] == od.content@[b1]);
                            assert(j == op && b1 == ko);
                        }
                        if k2 != at {
                            assert(dd.content@[k2] == mc[a2]);
                            assert(mc[a2] == od.content@[b2]);
                            assert(j == op && b2 == ko);
                        }
                    } else {
                        assert(dd.content@[k1] == mc[a1]);
                        assert(dd.content@[k2] == mc[a2]);
                        assert(mc[a1] == od.content@[b1]);
                        assert(mc[a2] == od.content@[b2]);
                    }
                }
                assert forall|q: int| 0 <= q < dd.files@.len() implies #[trigger] dd.files@[q] < self.files@.len() by {
                    assert(dd.files@[q] == od.files@[q]);
                }
            }
            assert(self.elements@[d as int].content@[at as int] == ElementContent::Element(Element { id: e }));
        }
        Ok(Element { id: e })
    }
}


impl AutosarModel {
    /// The links after element `e` is renamed to `n`.
    pub open spec fn renamed_links(&self, e: int, n: Seq<char>) -> Seq<Link> {
        self.links().update(e, (self.links()[e].0, Some(n), self.links()[e].2))
    }

    /// The error, if any, of renaming `e` to `n`.
    pub open spec fn rename_error(&self, e: int, n: Seq<char>) -> Option<AutosarDataError> {
        if !self.is_live(e) {
            Some(AutosarDataError::DetachedElement)
        } else if self.elements@[e].item_name is None {
            Some(AutosarDataError::NotIdentifiable)
        } else if !unique_paths(self.renamed_links(e, n), self.ranks()) {
            Some(AutosarDataError::DuplicateItemName)
        } else {
            None
        }
    }

    /// Renames the live, named element `e` to `name`.
    #[verifier::spinoff_prover]
    pub(crate) fn rename_impl(&mut self, e: usize, name: &str) -> (r: Result<(), AutosarDataError>)
        requires
            old(self).wf(),
        ensures
            final(self).wf(),
            match r {
                Ok(()) => old(self).rename_error(e as int, name@) is None
                    && final(self).links() == old(self).renamed_links(e as int, name@)
                    && final(self).same_but_name(old(self), e as int),
                Err(err) => old(self).rename_error(e as int, name@) == Some(err) && final(self).unchanged(old(self)),
            },
    {
        if e >= self.elements.len() || !self.elements[e].alive {
            return Err(AutosarDataError::DetachedElement);
        }
        if self.elements[e].item_name.is_none() {
            return Err(AutosarDataError::NotIdentifiable);
        }
        let ghost ls2 = self.renamed_links(e as int, name@);
        let mut held = Some(String::from_str(name));
        std::mem::swap(&mut self.elements[e].item_name, &mut held);
        proof {
            assert(self.links() =~= ls2);
            assert(ranked(self.links(), self.ranks())) by {
                let ls = old(self).links();
                assert forall|i: int| 0 <= i < ls2.len() implies (#[trigger] ls2[i]).0 == ls[i].0 by {}
                assert(ranked(ls, self.ranks()));
                assert forall|i: int| 0 <= i < ls2.len() implies match (#[trigger] ls2[i]).0 {
                    Some(q) => q < ls2.len() && self.ranks()[q as int] < self.ranks()[i],
                    None => true,
                } by {
                    assert(ls2[i].0 == ls[i].0);
                    assert(match ls[i].0 { Some(q) => q < ls.len() && self.ranks()[q as int] < self.ranks()[i], None => true });
                }
            }
        }
        if !self.check_unique_paths() {
            std::mem::swap(&mut self.elements[e].item_name, &mut held);
            proof {
                assert(self.elements@ =~= old(self).elements@);
                assert(self.links() =~= old(self).links());
                assert forall|i: int| 0 <= i < self.elements@.len() implies #[trigger] self.elem_wf(i) by {
                    assert(old(self).elem_wf(i));
                }
            }
            return Err(AutosarDataError::DuplicateItemName);
        }
        proof {
            assert forall|i: int| 0 <= i < self.elements@.len() implies #[trigger] self.elem_wf(i) by {
                assert(old(self).elem_wf(i));
                let d = self.elements@[i];
                let od = old(self).elements@[i];
                if i != e {
                    assert(d == od);
                }
                assert(d.content == od.content);
                assert(d.files == od.files);
            }
        }
        Ok(())
    }

    /// Nothing but the item name of element `e` changed from `old` to `self`.
    pub open spec fn same_but_name(&self, old: &AutosarModel, e: int) -> bool {
        &&& self.schema == old.schema
        &&& self.files == old.files
        &&& self.rank@ == old.rank@
        &&& self.elements@.len() == old.elements@.len()
        &&& forall|i: int| 0 <= i < self.elements@.len() && i != e ==> self.elements@[i] == old.elements@[i]
        &&& self.elements@[e].content == old.elements@[e].content
        &&& self.elements@[e].files == old.elements@[e].files
        &&& self.elements@[e].attributes == old.elements@[e].attributes
        &&& self.elements@[e].element_type == old.elements@[e].element_type
    }
}


impl AutosarModel {
    /// Inserts a text run at position `at` of the content of live element `r`.
    pub(crate) fn insert_text_item(&mut self, r: usize, at: usize, text: String)
        requires
            old(self).wf(),
            old(self).is_live(r as int),
            old(self).schema.types@[old(self).elements@[r as int].element_type as int].content_type == ContentType::Mixed,
            at <= old(self).elements@[r as int].content@.len(),
        ensures
            final(self).wf(),
            final(self).same_but_content(old(self), r as int),
            final(self).links() == old(self).links(),
            final(self).elements@[r as int].content@.len() == old(self).elements@[r as int].content@.len() + 1,
            final(self).elements@[r as int].content@[at as int] matches ElementContent::CharacterData(CharacterData::Text(t)) && t@ == text@,
            forall|k: int| 0 <= k < at ==> final(self).elements@[r as int].content@[k] == old(self).elements@[r as int].content@[k],
            forall|k: int| at < k < final(self).elements@[r as int].content@.len()
                ==> final(self).elements@[r as int].content@[k] == old(self).elements@[r as int].content@[k - 1],
    {
        let ghost tv = text@;
        self.elements[r].content.insert(at, ElementContent::CharacterData(CharacterData::Text(text)));
        proof {
            assert(self.links() =~= old(self).links());
            assert forall|j: int| 0 <= j < self.elements@.len() implies #[trigger] self.elem_wf(j) by {
                assert(old(self).elem_wf(j));
                let d = self.elements@[j];
                let od = old(self).elements@[j];
                if j != r {
                    assert(d == od);
                } else {
                    assert forall|q: int| 0 <= q < d.content@.len() implies match #[trigger] d.content@[q] {
                        ElementContent::Element(x) => x.id < self.elements@.len()
                            && (self.elements@[x.id as int].alive ==> self.elements@[x.id as int].parent == Some(j as usize)),
                        ElementContent::CharacterData(_) => true,
                    } by {
                        if q < at {
                            assert(d.content@[q] == od.content@[q]);
                        } else if q > at {
                            assert(d.content@[q] == od.content@[q - 1]);
                        }
                    }
                    assert forall|k1: int, k2: int| 0 <= k1 < d.content@.len() && 0 <= k2 < d.content@.len()
                        && (#[trigger] d.content@[k1]) is Element && d.content@[k1] == #[trigger] d.content@[k2] implies k1 == k2 by {
                        let o1 = if k1 > at { k1 - 1 } else { k1 };
                        let o2 = if k2 > at { k2 - 1 } else { k2 };
                        if k1 != at && k2 != at {
                            assert(d.content@[k1] == od.content@[o1]);
                            assert(d.content@[k2] == od.content@[o2]);
                        }
                    }
                }
                assert forall|q: int| 0 <= q < d.files@.len() implies #[trigger] d.files@[q] < self.files@.len() by {
                    assert(d.files@[q] == od.files@[q]);
                }
            }
        }
    }

    /// Removes the item at position `at` of the content of live element `r`, a text run.
    pub(crate) fn remove_text_item(&mut self, r: usize, at: usize)
        requires
            old(self).wf(),
            old(self).is_live(r as int),
            at < old(self).elements@[r as int].content@.len(),
            old(self).elements@[r as int].content@[at as int] is CharacterData,
        ensures
            final(self).wf(),
            final(self).same_but_content(old(self), r as int),
            final(self).elements@[r as int].content@ == old(self).elements@[r as int].content@.remove(at as int),
    {
        self.elements[r].content.remove(at);
        proof {
            assert(self.links() =~= old(self).links());
            assert forall|j: int| 0 <= j < self.elements@.len() implies #[trigger] self.elem_wf(j) by {
                assert(old(self).elem_wf(j));
                let d = self.elements@[j];
                let od = old(self).elements@[j];
                if j != r {
                    assert(d == od);
                } else {
                    assert forall|q: int| 0 <= q < d.content@.len() implies match #[trigger] d.content@[q] {
                        ElementContent::Element(x) => x.id < self.elements@.len()
                            && (self.elements@[x.id as int].alive ==> self.elements@[x.id as int].parent == Some(j as usize)),
                        ElementContent::CharacterData(_) => true,
                    } by {
                        let oq = if q >= at { q + 1 } else { q };
                        assert(d.content@[q] == od.content@[oq]);
                    }
                    assert forall|k1: int, k2: int| 0 <= k1 < d.content@.len() && 0 <= k2 < d.content@.len()
                        && (#[trigger] d.content@[k1]) is Element && d.content@[k1] == #[trigger] d.content@[k2] implies k1 == k2 by {
                        let o1 = if k1 >= at { k1 + 1 } else { k1 };
                        let o2 = if k2 >= at { k2 + 1 } else { k2 };
                        assert(d.content@[k1] == od.content@[o1]);
                        assert(d.content@[k2] == od.content@[o2]);
                    }
                }
                assert forall|q: int| 0 <= q < d.files@.len() implies #[trigger] d.files@[q] < self.files@.len() by {
                    assert(d.files@[q] == od.files@[q]);
                }
            }
        }
    }
}

impl ElementContent {
    /// An equal copy of this item.
    pub fn duplicate(&self) -> (r: ElementContent)
        ensures
            r == *self,
    {
        match self {
            ElementContent::Element(e) => ElementContent::Element(*e),
            ElementContent::CharacterData(v) => ElementContent::CharacterData(v.duplicate()),
        }
    }
}


/// `k` is the first position of `attrs` whose name is `name`.
pub open spec fn first_attribute(attrs: Seq<Attribute>, name: u32, k: int) -> bool {
    0 <= k < attrs.len() && attrs[k].name == name && forall|j: int| 0 <= j < k ==> attrs[j].name != name
}

/// No attribute of `attrs` is named `name`.
pub open spec fn lacks_attribute(attrs: Seq<Attribute>, name: u32) -> bool {
    forall|j: int| 0 <= j < attrs.len() ==> attrs[j].name != name
}

impl Attribute {
    /// An equal copy of this attribute.
    pub fn duplicate(&self) -> (r: Attribute)
        ensures
            r == *self,
    {
        Attribute { name: self.name, value: self.value.duplicate() }
    }
}

/// The first position of `attrs` whose name is `name`.
pub fn find_attribute(attrs: &Vec<Attribute>, name: u32) -> (r: Option<usize>)
    ensures
        r matches Some(k) ==> first_attribute(attrs@, name, k as int),
        r is None ==> lacks_attribute(attrs@, name),
{
    let n = attrs.len();
    let mut i: usize = 0;
    while i < n
        invariant
            n == attrs@.len(),
            i <= n,
            forall|j: int| 0 <= j < i ==> attrs@[j].name != name,
        decreases n - i,
    {
        if attrs[i].name == name {
            return Some(i);
        }
        i += 1;
    }
    None
}

impl AutosarModel {
    /// The schema of element type `t` admits attribute `name`.
    pub open spec fn attribute_known(&self, t: int, name: u32) -> bool {
        exists|k: int| 0 <= k < self.schema.types@[t].attributes@.len() && (#[trigger] self.schema.types@[t].attributes@[k]).name == name
    }

    /// The schema of element type `t` admits attribute `name` with values of kind `kind`.
    pub open spec fn attribute_fits(&self, t: int, name: u32, kind: CharacterDataKind) -> bool {
        exists|k: int| 0 <= k < self.schema.types@[t].attributes@.len()
            && (#[trigger] self.schema.types@[t].attributes@[k]).name == name
            && self.schema.types@[t].attributes@[k].kind == kind
    }

    /// Whether the schema of element type `t` admits `name` at all, and with `kind`.
    pub(crate) fn check_attribute(&self, t: usize, name: u32, kind: CharacterDataKind) -> (r: (bool, bool))
        requires
            t < self.schema.types@.len(),
        ensures
            r.0 == self.attribute_known(t as int, name),
            r.1 == self.attribute_fits(t as int, name, kind),
    {
        let specs = &self.schema.types[t].attributes;
        let n = specs.len();
        let mut known = false;
        let mut fits = false;
        let mut i: usize = 0;
        while i < n
            invariant
                specs@ == self.schema.types@[t as int].attributes@,
                n == specs@.len(),
                i <= n,
                known == exists|k: int| 0 <= k < i && (#[trigger] specs@[k]).name == name,
                fits == exists|k: int| 0 <= k < i && (#[trigger] specs@[k]).name == name && specs@[k].kind == kind,
            decreases n - i,
        {
            if specs[i].name == name {
                known = true;
                if specs[i].kind == kind {
                    fits = true;
                }
            }
            i += 1;
        }
        (known, fits)
    }

    /// Replaces the attribute list of live element `r`.
    pub(crate) fn replace_attributes(&mut self, r: usize, attrs: Vec<Attribute>)
        requires
            old(self).wf(),
            old(self).is_live(r as int),
        ensures
            final(self).wf(),
            final(self).elements@.len() == old(self).elements@.len(),
            final(self).elements@[r as int].attributes@ == attrs@,
            final(self).elements@[r as int].element_type == old(self).elements@[r as int].element_type,
            final(self).elements@[r as int].parent == old(self).elements@[r as int].parent,
            final(self).elements@[r as int].item_name == old(self).elements@[r as int].item_name,
            final(self).elements@[r as int].alive == old(self).elements@[r as int].alive,
            final(self).elements@[r as int].content == old(self).elements@[r as int].content,
            final(self).elements@[r as int].files == old(self).elements@[r as int].files,
            forall|i: int| 0 <= i < final(self).elements@.len() && i != r ==> final(self).elements@[i] == old(self).elements@[i],
            final(self).links() == old(self).links(),
            final(self).schema == old(self).schema,
            final(self).files == old(self).files,
            final(self).rank@ == old(self).rank@,
    {
        self.elements[r].attributes = attrs;
        proof {
            assert(self.links() =~= old(self).links());
            assert forall|j: int| 0 <= j < self.elements@.len() implies #[trigger] self.elem_wf(j) by {
                assert(old(self).elem_wf(j));
                let d = self.elements@[j];
                let od = old(self).elements@[j];
                if j != r {
                    assert(d == od);
                }
                assert(d.content == od.content);
                assert(d.files == od.files);
            }
        }
    }
}



impl AutosarModel {
    /// Every element that existed in `old` is still there, with the same links.
    pub open spec fn extends_links(&self, old: &AutosarModel) -> bool {
        &&& self.schema == old.schema
        &&& self.files == old.files
        &&& self.elements@.len() >= old.elements@.len()
        &&& forall|i: int| 0 <= i < old.elements@.len() ==> #[trigger] self.links()[i] == old.links()[i]
    }

    /// Copies the subtree of `src` (its type, item name, attributes and content) into a new
    /// sub-element of `dst` at `pos`; `fuel` bounds the depth that is copied. On any
    /// failure the model is left as it was.
    pub(crate) fn copy_subtree(&mut self, src: usize, dst: usize, pos: Option<usize>, fuel: usize) -> (r: Result<Element, AutosarDataError>)
        requires
            old(self).wf(),
            src < old(self).elements@.len(),
            old(self).elements@.len() < usize::MAX,
        ensures
            final(self).wf(),
            r is Err ==> final(self).same_state(old(self)),
            r is Ok ==> old(self).create_error(dst as int, old(self).elements@[src as int].element_type,
                name_view(old(self).elements@[src as int].item_name), pos) is None,
            ({
                let nm = name_view(old(self).elements@[src as int].item_name);
                let t = old(self).elements@[src as int].element_type;
                old(self).create_error(dst as int, t, nm, pos) matches Some(e) ==> r == Err::<Element, AutosarDataError>(e)
            }),
            r matches Ok(el) ==> ({
                let n0 = old(self).elements@.len();
                let at = old(self).insert_at(dst as int, old(self).elements@[dst as int].content@, old(self).elements@[src as int].element_type, pos);
                &&& el.id == n0
                &&& final(self).elements@.len() > n0
                &&& final(self).schema == old(self).schema
                &&& final(self).files == old(self).files
                &&& forall|i: int| 0 <= i < n0 && i != dst ==> same_data(#[trigger] final(self).elements@[i], old(self).elements@[i])
                &&& forall|i: int| 0 <= i < n0 ==> #[trigger] final(self).rank@[i] == old(self).rank@[i]
                &&& same_but_content_data(final(self).elements@[dst as int], old(self).elements@[dst as int])
                &&& final(self).elements@[dst as int].content@ == old(self).elements@[dst as int].content@.insert(at, ElementContent::Element(el))
                &&& final(self).elements@[el.id as int].parent == Some(dst)
                &&& final(self).elements@[el.id as int].element_type == old(self).elements@[src as int].element_type
                &&& name_view(final(self).elements@[el.id as int].item_name) == name_view(old(self).elements@[src as int].item_name)
                &&& final(self).elements@[el.id as int].alive
                &&& final(self).elements@[el.id as int].files@ == old(self).elements@[dst as int].files@
                &&& final(self).elements@[el.id as int].attributes@ == old(self).elements@[src as int].attributes@
            }),
        decreases fuel,
    {
        let t = self.elements[src].element_type;
        let name: Option<String> = match &self.elements[src].item_name {
            Some(n) => Some(n.clone()),
            None => None,
        };
        let ghost n0 = self.elements@.len();
        let ghost rk0 = self.rank@;
        let el = match &name {
            Some(n) => self.create_sub_element_impl(dst, t, Some(n.as_str()), pos),
            None => self.create_sub_element_impl(dst, t, None, pos),
        };
        let el = match el {
            Ok(el) => el,
            Err(e) => {
                proof {
                    self.lemma_same_state_refl();
                }
                return Err(e);
            },
        };
        let new = el.id;
        let at: usize = match self.find_child_index(dst, new) {
            Some(k) => k,
            None => {
                proof {
                    let oc = old(self).elements@[dst as int].content@;
                    if old(self).ordered_mode(dst as int) {
                        assert(old(self).elem_wf(dst as int));
                        old(self).lemma_range_end(dst as int, oc, t, oc.len() as int);
                    }
                    let ins = old(self).insert_at(dst as int, oc, t, pos);
                    assert(self.elements@[dst as int].content@[ins] == ElementContent::Element(Element { id: new }));
                }
                return Err(AutosarDataError::InvalidStructure);
            },
        };
        proof {
            let oc = old(self).elements@[dst as int].content@;
            if old(self).ordered_mode(dst as int) {
                assert(old(self).elem_wf(dst as int));
                old(self).lemma_range_end(dst as int, oc, t, oc.len() as int);
            }
            let ins = old(self).insert_at(dst as int, oc, t, pos);
            assert(self.elements@[dst as int].content@[ins] == ElementContent::Element(Element { id: new }));
            assert(self.elem_wf(dst as int));
            assert(at as int == ins);
        }
        proof {
            assert(old(self).elements@[src as int].element_type == t);
            assert(old(self).rank@.len() == n0);
            assert forall|j: int| 0 <= j < n0 && j != dst implies same_data(#[trigger] self.elements@[j], old(self).elements@[j]) by {
                assert(self.elements@[j] == old(self).elements@[j]);
            }
        }
        let ghost after_create = *self;
        let src_content = self.elements[src].content.len();
        let mut i: usize = 0;
        while i < src_content
            invariant
                self.wf(),
                old(self).wf(),
                old(self).create_error(dst as int, t, name_view(old(self).elements@[src as int].item_name), pos) is None,
                at as int == old(self).insert_at(dst as int, old(self).elements@[dst as int].content@, t, pos),
                at <= old(self).elements@[dst as int].content@.len(),
                rk0.len() == n0,
                n0 == old(self).elements@.len(),
                rk0 == old(self).rank@,
                src < n0,
                dst < n0,
                new == n0,
                n0 < self.elements@.len(),
                self.schema == old(self).schema,
                self.files == old(self).files,
                t == old(self).elements@[src as int].element_type,
                t < self.schema.types@.len(),
                at < self.elements@[dst as int].content@.len(),
                forall|j: int| 0 <= j < n0 && j != dst ==> same_data(#[trigger] self.elements@[j], old(self).elements@[j]),
                forall|j: int| 0 <= j < n0 ==> #[trigger] self.rank@[j] == rk0[j],
                same_but_content_data(self.elements@[dst as int], old(self).elements@[dst as int]),
                self.elements@[dst as int].content@ == old(self).elements@[dst as int].content@.insert(at as int, ElementContent::Element(Element { id: new })),
                self.elements@[new as int].parent == Some(dst),
                self.elements@[new as int].element_type == t,
                name_view(self.elements@[new as int].item_name) == name_view(old(self).elements@[src as int].item_name),
                self.elements@[new as int].alive,
                self.elements@[new as int].files@ == old(self).elements@[dst as int].files@,
            decreases src_content - i,
        {
            if i >= self.elements[src].content.len() || fuel == 0 {
                break;
            }
            let ghost before_item = *self;
            match &self.elements[src].content[i] {
                ElementContent::Element(child) => {
                    let c = child.id;
                    proof {
                        assert(self.elem_wf(src as int));
                    }
                    if self.elements.len() >= usize::MAX {
                        proof {
                            self.lemma_same_state_refl();
                        }
                        self.roll_back_copy(Ghost(*old(self)), dst, at, new);
                        return Err(AutosarDataError::InvalidStructure);
                    }
                    match self.copy_subtree(c, new, None, fuel - 1) {
                        Ok(_) => {},
                        Err(e) => {
                            proof {
                                self.lemma_same_state_keeps(&before_item);
                            }
                            self.roll_back_copy(Ghost(*old(self)), dst, at, new);
                            return Err(e);
                        },
                    }
                },
                ElementContent::CharacterData(v) => {
                    let v2 = v.duplicate();
                    let ctype = self.schema.types[t].content_type;
                    if ctype == ContentType::Mixed {
                        if let CharacterData::Text(txt) = v2 {
                            let k = self.elements[new].content.len();
                            self.insert_text_item(new, k, txt);
                        }
                    } else if ctype == ContentType::CharacterData {
                        self.replace_content(new, Some(v2));
                    }
                },
            }
            i += 1;
        }
        let attrs = &self.elements[src].attributes;
        let ghost a0 = attrs@;
        let n = attrs.len();
        let mut copied: Vec<Attribute> = Vec::new();
        let mut k: usize = 0;
        while k < n
            invariant
                n == attrs@.len(),
                k <= n,
                copied@ == attrs@.subrange(0, k as int),
            decreases n - k,
        {
            copied.push(attrs[k].duplicate());
            proof {
                assert(attrs@.subrange(0, k as int + 1) =~= attrs@.subrange(0, k as int).push(attrs@[k as int]));
            }
            k += 1;
        }
        proof {
            assert(attrs@.subrange(0, n as int) =~= attrs@);
            assert(a0 == old(self).elements@[src as int].attributes@);
        }
        self.replace_attributes(new, copied);
        Ok(Element { id: new })
    }

    /// Takes a failed copy out again: drops the elements made since `old` and the new item
    /// at `at` in the content of `dst`.
    fn roll_back_copy(&mut self, old_model: Ghost<AutosarModel>, dst: usize, at: usize, new: usize)
        requires
            old(self).wf(),
            old_model@.wf(),
            new == old_model@.elements@.len(),
            dst < new,
            new < old(self).elements@.len(),
            old(self).schema == old_model@.schema,
            old(self).files == old_model@.files,
            forall|j: int| 0 <= j < new && j != dst ==> same_data(#[trigger] old(self).elements@[j], old_model@.elements@[j]),
            forall|j: int| 0 <= j < new ==> #[trigger] old(self).rank@[j] == old_model@.rank@[j],
            same_but_content_data(old(self).elements@[dst as int], old_model@.elements@[dst as int]),
            at <= old_model@.elements@[dst as int].content@.len(),
            old(self).elements@[dst as int].content@ == old_model@.elements@[dst as int].content@.insert(at as int, ElementContent::Element(Element { id: new })),
        ensures
            final(self).wf(),
            final(self).same_state(&old_model@),
    {
        self.elements.truncate(new);
        self.elements[dst].content.remove(at);
        self.rank = Ghost(old_model@.rank@);
        proof {
            assert(self.elements@[dst as int].content@ =~= old_model@.elements@[dst as int].content@);
            assert forall|j: int| 0 <= j < new implies same_data(#[trigger] self.elements@[j], old_model@.elements@[j]) by {
                if j != dst {
                    assert(self.elements@[j] == old(self).elements@[j]);
                }
            }
            lemma_wf_same_state(self, &old_model@);
        }
    }

    /// Every element holds the same observable data as in `old`.
    pub open spec fn same_state(&self, old: &AutosarModel) -> bool {
        &&& self.schema == old.schema
        &&& self.files == old.files
        &&& self.rank@ == old.rank@
        &&& self.elements@.len() == old.elements@.len()
        &&& forall|i: int| 0 <= i < self.elements@.len() ==> same_data(#[trigger] self.elements@[i], old.elements@[i])
    }

    pub proof fn lemma_same_state_refl(&self)
        ensures
            self.same_state(self),
    {
    }

    proof fn lemma_same_state_keeps(&self, before: &AutosarModel)
        requires
            self.same_state(before),
        ensures
            forall|i: int| 0 <= i < self.elements@.len() ==> same_data(#[trigger] self.elements@[i], before.elements@[i]),
    {
    }
}

/// `a` and `b` hold the same observable data.
pub open spec fn same_data(a: ElementData, b: ElementData) -> bool {
    &&& same_but_content_data(a, b)
    &&& a.content@ == b.content@
}

/// `a` and `b` hold the same observable data, content aside.
pub open spec fn same_but_content_data(a: ElementData, b: ElementData) -> bool {
    &&& a.element_type == b.element_type
    &&& name_view(a.item_name) == name_view(b.item_name)
    &&& a.parent == b.parent
    &&& a.attributes@ == b.attributes@
    &&& a.files@ == b.files@
    &&& a.alive == b.alive
}

/// The invariant depends on observable data alone.
pub proof fn lemma_wf_same_state(a: &AutosarModel, b: &AutosarModel)
    requires
        b.wf(),
        a.same_state(b),
    ensures
        a.wf(),
{
    assert(a.links() =~= b.links());
    assert forall|i: int| 0 <= i < a.elements@.len() implies #[trigger] a.elem_wf(i) by {
        assert(b.elem_wf(i));
        assert(same_data(a.elements@[i], b.elements@[i]));
        let d = a.elements@[i];
        assert(d.item_name is Some <==> b.elements@[i].item_name is Some);
        assert forall|k: int| 0 <= k < d.content@.len() implies match #[trigger] d.content@[k] {
            ElementContent::Element(c) => c.id < a.elements@.len()
                && (a.elements@[c.id as int].alive ==> a.elements@[c.id as int].parent == Some(i as usize)),
            ElementContent::CharacterData(_) => true,
        } by {
            assert(d.content@[k] == b.elements@[i].content@[k]);
            if let ElementContent::Element(c) = d.content@[k] {
                if c.id < a.elements@.len() {
                    assert(same_data(a.elements@[c.id as int], b.elements@[c.id as int]));
                }
            }
        }
        assert forall|k: int| 0 <= k < d.files@.len() implies #[trigger] d.files@[k] < a.files@.len() by {
            assert(d.files@[k] == b.elements@[i].files@[k]);
        }
    }
}


impl AutosarModel {
    /// Where an item of the content of `p` belongs in the schema's canonical order: the
    /// position of its type among the admitted sub-elements (text and unknown types last).
    pub open spec fn content_key(&self, p: int, item: ElementContent) -> int {
        let subs = self.schema.types@[self.elements@[p].element_type as int].sub_elements@;
        match item {
            ElementContent::Element(c) => if 0 <= c.id < self.elements@.len() {
                match find_sub(subs, self.elements@[c.id as int].element_type) {
                    Some(k) => k,
                    None => subs.len() as int,
                }
            } else {
                subs.len() as int
            },
            ElementContent::CharacterData(_) => subs.len() as int,
        }
    }

    /// The content of `p` is in canonical order between positions `lo` and `hi`.
    pub open spec fn sorted_between(&self, p: int, lo: int, hi: int) -> bool {
        forall|a: int, b: int| lo <= a < b < hi ==>
            self.content_key(p, #[trigger] self.elements@[p].content@[a]) <= self.content_key(p, #[trigger] self.elements@[p].content@[b])
    }

    /// The key of item `k` of the content of live element `p`.
    pub(crate) fn content_key_at(&self, p: usize, k: usize) -> (r: usize)
        requires
            self.wf(),
            p < self.elements@.len(),
            k < self.elements@[p as int].content@.len(),
        ensures
            r as int == self.content_key(p as int, self.elements@[p as int].content@[k as int]),
    {
        proof {
            assert(self.elem_wf(p as int));
        }
        let subs = &self.schema.types[self.elements[p].element_type].sub_elements;
        match &self.elements[p].content[k] {
            ElementContent::Element(c) => {
                if c.id < self.elements.len() {
                    match find_sub_element(subs, self.elements[c.id].element_type) {
                        Some(i) => i,
                        None => subs.len(),
                    }
                } else {
                    subs.len()
                }
            },
            ElementContent::CharacterData(_) => subs.len(),
        }
    }

    /// Swaps items `j` and `j + 1` of the content of live element `r`.
    fn swap_adjacent(&mut self, r: usize, j: usize)
        requires
            old(self).wf(),
            old(self).is_live(r as int),
            j + 1 < old(self).elements@[r as int].content@.len(),
        ensures
            final(self).wf(),
            final(self).same_but_content(old(self), r as int),
            final(self).links() == old(self).links(),
            final(self).elements@[r as int].content@ == old(self).elements@[r as int].content@
                .update(j as int, old(self).elements@[r as int].content@[j + 1])
                .update(j + 1, old(self).elements@[r as int].content@[j as int]),
    {
        let len = self.elements[r].content.len();
        let item = self.elements[r].content.remove(j + 1);
        self.elements[r].content.insert(j, item);
        proof {
            let oc = old(self).elements@[r as int].content@;
            assert(self.elements@[r as int].content@ =~= oc.update(j as int, oc[j + 1]).update(j + 1, oc[j as int]));
            assert(self.links() =~= old(self).links());
            assert forall|q: int| 0 <= q < self.elements@.len() implies #[trigger] self.elem_wf(q) by {
                assert(old(self).elem_wf(q));
                let d = self.elements@[q];
                let od = old(self).elements@[q];
                if q != r {
                    assert(d == od);
                    assert forall|c: int| 0 <= c < self.elements@.len() implies #[trigger] self.elements@[c].element_type == old(self).elements@[c].element_type by {
                        if c != r { assert(self.elements@[c] == old(self).elements@[c]); }
                    }
                } else {
                    let sw = |x: int| if x == j { j + 1 } else if x == j + 1 { j as int } else { x };
                    assert forall|x: int| 0 <= x < d.content@.len() implies match #[trigger] d.content@[x] {
                        ElementContent::Element(c) => c.id < self.elements@.len()
                            && (self.elements@[c.id as int].alive ==> self.elements@[c.id as int].parent == Some(q as usize)),
                        ElementContent::CharacterData(_) => true,
                    } by {
                        assert(d.content@[x] == od.content@[sw(x)]);
                    }
                    assert forall|k1: int, k2: int| 0 <= k1 < d.content@.len() && 0 <= k2 < d.content@.len()
                        && (#[trigger] d.content@[k1]) is Element && d.content@[k1] == #[trigger] d.content@[k2] implies k1 == k2 by {
                        assert(d.content@[k1] == od.content@[sw(k1)]);
                        assert(d.content@[k2] == od.content@[sw(k2)]);
                    }
                }
                assert forall|x: int| 0 <= x < d.files@.len() implies #[trigger] d.files@[x] < self.files@.len() by {
                    assert(d.files@[x] == od.files@[x]);
                }
            }
        }
    }

    /// Whether the content of `p` holds any text.
    pub(crate) fn has_text(&self, p: usize) -> (r: bool)
        requires
            p < self.elements@.len(),
        ensures
            r == exists|k: int| 0 <= k < self.elements@[p as int].content@.len() && (#[trigger] self.elements@[p as int].content@[k]) is CharacterData,
    {
        let c = &self.elements[p].content;
        let n = c.len();
        let mut k: usize = 0;
        while k < n
            invariant
                c@ == self.elements@[p as int].content@,
                n == c@.len(),
                k <= n,
                forall|j: int| 0 <= j < k ==> !(#[trigger] c@[j] is CharacterData),
            decreases n - k,
        {
            if let ElementContent::CharacterData(_) = &c[k] {
                return true;
            }
            k += 1;
        }
        false
    }

    /// Puts the content of live element `p` into canonical order (a stable insertion sort).
    pub(crate) fn sort_content(&mut self, p: usize)
        requires
            old(self).wf(),
            old(self).is_live(p as int),
        ensures
            final(self).wf(),
            final(self).same_but_content(old(self), p as int),
            final(self).links() == old(self).links(),
            final(self).elements@[p as int].content@.to_multiset() == old(self).elements@[p as int].content@.to_multiset(),
            final(self).sorted_between(p as int, 0, final(self).elements@[p as int].content@.len() as int),
            old(self).sorted_between(p as int, 0, old(self).elements@[p as int].content@.len() as int)
                ==> final(self).elements@[p as int].content@ == old(self).elements@[p as int].content@,
    {
        let n = self.elements[p].content.len();
        let mut i: usize = 1;
        if n == 0 {
            return;
        }
        while i < n
            invariant
                self.wf(),
                self.is_live(p as int),
                1 <= i <= n,
                n == self.elements@[p as int].content@.len(),
                self.same_but_content(old(self), p as int),
                self.links() == old(self).links(),
                self.elements@[p as int].content@.to_multiset() == old(self).elements@[p as int].content@.to_multiset(),
                self.sorted_between(p as int, 0, i as int),
                forall|x: ElementContent| #[trigger] self.content_key(p as int, x) == old(self).content_key(p as int, x),
                old(self).sorted_between(p as int, 0, n as int) ==> self.elements@[p as int].content@ == old(self).elements@[p as int].content@,
            decreases n - i,
        {
            let mut j: usize = i;
            while j > 0 && self.content_key_at(p, j - 1) > self.content_key_at(p, j)
                invariant
                    self.wf(),
                    self.is_live(p as int),
                        0 <= j <= i < n,
                    n == self.elements@[p as int].content@.len(),
                    self.same_but_content(old(self), p as int),
                    self.links() == old(self).links(),
                    self.elements@[p as int].content@.to_multiset() == old(self).elements@[p as int].content@.to_multiset(),
                    self.sorted_between(p as int, 0, j as int),
                    self.sorted_between(p as int, j as int, i + 1),
                    forall|a: int, b: int| 0 <= a < j && j < b <= i ==>
                        self.content_key(p as int, #[trigger] self.elements@[p as int].content@[a]) <= self.content_key(p as int, #[trigger] self.elements@[p as int].content@[b]),
                    forall|x: ElementContent| #[trigger] self.content_key(p as int, x) == old(self).content_key(p as int, x),
                    old(self).sorted_between(p as int, 0, n as int) ==> self.elements@[p as int].content@ == old(self).elements@[p as int].content@,
                decreases j,
            {
                let ghost before = *self;
                let ghost c0 = self.elements@[p as int].content@;
                proof {
                    if old(self).sorted_between(p as int, 0, n as int) {
                        assert(old(self).content_key(p as int, c0[j - 1]) <= old(self).content_key(p as int, c0[j as int]));
                    }
                }
                self.swap_adjacent(p, j - 1);
                proof {
                    let c1 = self.elements@[p as int].content@;
                    assert forall|x: ElementContent| self.content_key(p as int, x) == before.content_key(p as int, x) by {
                        assert(self.elements@[p as int].element_type == before.elements@[p as int].element_type);
                        if let ElementContent::Element(c) = x {
                            if 0 <= c.id < self.elements@.len() && c.id != p {
                                assert(self.elements@[c.id as int] == before.elements@[c.id as int]);
                            }
                        }
                    }
                    assert forall|x: ElementContent| #[trigger] self.content_key(p as int, x) == old(self).content_key(p as int, x) by {
                        assert(self.content_key(p as int, x) == before.content_key(p as int, x));
                    }
                    let k = j - 1;
                    vstd::seq_lib::to_multiset_update(c0, k as int, c0[k + 1]);
                    vstd::seq_lib::to_multiset_update(c0.update(k as int, c0[k + 1]), k + 1, c0[k as int]);
                    let cm = c0.update(k as int, c0[k + 1]);
                    assert(cm[k + 1] == c0[k + 1]);
                    let m0 = c0.to_multiset();
                    assert(cm.to_multiset() == m0.insert(c0[k + 1]).remove(c0[k as int]));
                    assert(c1 == cm.update(k + 1, c0[k as int]));
                    assert(c1.to_multiset() == cm.to_multiset().insert(c0[k as int]).remove(c0[k + 1]));
                    assert(m0.count(c0[k as int]) > 0) by {
                        vstd::seq_lib::to_multiset_contains(c0, c0[k as int]);
                    }
                    assert(c1.to_multiset() =~= m0) by {
                        broadcast use vstd::multiset::group_multiset_axioms;
                    }
                    assert forall|a: int, b: int| 0 <= a < b < j - 1 implies
                        self.content_key(p as int, #[trigger] c1[a]) <= self.content_key(p as int, #[trigger] c1[b]) by {
                        assert(c1[a] == c0[a] && c1[b] == c0[b]);
                    }
                    assert forall|a: int, b: int| j - 1 <= a < b < i + 1 implies
                        self.content_key(p as int, #[trigger] c1[a]) <= self.content_key(p as int, #[trigger] c1[b]) by {
                        let oa = if a == k { k + 1 } else if a == k + 1 { k as int } else { a };
                        let ob = if b == k { k + 1 } else if b == k + 1 { k as int } else { b };
                        assert(c1[a] == c0[oa] && c1[b] == c0[ob]);
                    }
                    assert forall|a: int, b: int| 0 <= a < j - 1 && j - 1 < b <= i implies
                        self.content_key(p as int, #[trigger] c1[a]) <= self.content_key(p as int, #[trigger] c1[b]) by {
                        let ob = if b == k + 1 { k as int } else { b };
                        assert(c1[a] == c0[a] && c1[b] == c0[ob]);
                    }
                }
                j -= 1;
            }
            proof {
                let c = self.elements@[p as int].content@;
                assert forall|a: int, b: int| 0 <= a < b < i + 1 implies
                    self.content_key(p as int, #[trigger] c[a]) <= self.content_key(p as int, #[trigger] c[b]) by {
                    if a < j && b == j && j > 0 {
                        assert(self.content_key(p as int, c[j - 1]) <= self.content_key(p as int, c[j as int]));
                        if a < j - 1 {
                            assert(self.content_key(p as int, c[a]) <= self.content_key(p as int, c[j - 1]));
                        }
                    }
                }
            }
            i += 1;
        }
    }
}


impl AutosarModel {
    /// Appends the live elements of the subtree of `p` to `out`, depth first, parent before
    /// children; `fuel` bounds the depth.
    pub(crate) fn collect_dfs(&self, p: usize, top: Ghost<int>, fuel: usize, out: &mut Vec<Element>)
        requires
            self.wf(),
            self.is_live(p as int),
            self.in_subtree(p as int, top@),
        ensures
            final(out)@.len() > old(out)@.len(),
            final(out)@[old(out)@.len() as int] == (Element { id: p }),
            forall|k: int| 0 <= k < old(out)@.len() ==> final(out)@[k] == old(out)@[k],
            forall|k: int| old(out)@.len() <= k < final(out)@.len() ==> self.is_live((#[trigger] final(out)@[k]).id as int)
                && self.in_subtree(final(out)@[k].id as int, top@),
        decreases fuel,
    {
        let ghost start = out@.len();
        out.push(Element { id: p });
        if fuel == 0 {
            return;
        }
        proof {
            assert(self.elem_wf(p as int));
        }
        let n = self.elements[p].content.len();
        let mut i: usize = 0;
        while i < n
            invariant
                self.wf(),
                self.is_live(p as int),
                self.in_subtree(p as int, top@),
                self.elem_wf(p as int),
                fuel > 0,
                n == self.elements@[p as int].content@.len(),
                i <= n,
                out@.len() > start,
                start == old(out)@.len(),
                out@[start as int] == (Element { id: p }),
                forall|k: int| 0 <= k < old(out)@.len() ==> out@[k] == old(out)@[k],
                forall|k: int| start <= k < out@.len() ==> self.is_live((#[trigger] out@[k]).id as int)
                    && self.in_subtree(out@[k].id as int, top@),
            decreases n - i,
        {
            if let ElementContent::Element(c) = &self.elements[p].content[i] {
                let cid = c.id;
                if self.elements[cid].alive {
                    proof {
                        let ls = self.links();
                        let rk = self.ranks();
                        assert(self.elements@[cid as int].parent == Some(p));
                        assert(ls[cid as int].0 == Some(p));
                        assert(rk[p as int] < rk[cid as int]);
                        lemma_reaches_fuel(ls, rk, p as int, top@, rk[cid as int]);
                        if cid as int != top@ {
                            assert(reaches(ls, cid as int, top@, rk[cid as int] + 1) == reaches(ls, p as int, top@, rk[cid as int]));
                        }
                    }
                    let ghost before = out@;
                    self.collect_dfs(cid, top, fuel - 1, out);
                    proof {
                        assert forall|k: int| start <= k < out@.len() implies self.is_live((#[trigger] out@[k]).id as int)
                            && self.in_subtree(out@[k].id as int, top@) by {
                            if k < before.len() {
                                assert(out@[k] == before[k]);
                            }
                        }
                    }
                }
            }
            i += 1;
        }
    }
}


/// `k` is the first declaration of attribute `name` in `specs`.
pub open spec fn first_attr_spec(specs: Seq<AttributeSpec>, name: u32, k: int) -> bool {
    0 <= k < specs.len() && specs[k].name == name && forall|j: int| 0 <= j < k ==> specs[j].name != name
}

/// `j` is the first token of `tokens` whose text is `text`.
pub open spec fn first_token(tokens: Seq<String>, text: Seq<char>, j: int) -> bool {
    0 <= j < tokens.len() && tokens[j]@ == text && forall|i: int| 0 <= i < j ==> tokens[i]@ != text
}

/// `v` is what `text` reads as under the declaration `sp`.
pub open spec fn reads_as(sp: AttributeSpec, text: Seq<char>, v: CharacterData) -> bool {
    match sp.kind {
        CharacterDataKind::Text => v matches CharacterData::Text(s) && s@ == text,
        CharacterDataKind::Integer => v matches CharacterData::Integer(x) && parse_decimal(text) == Some(x as int),
        CharacterDataKind::Enum => v matches CharacterData::Enum(j) && first_token(sp.tokens@, text, j as int),
    }
}

/// The error, if any, of reading `text` under the declaration `sp`.
pub open spec fn read_error(sp: AttributeSpec, text: Seq<char>) -> Option<AutosarDataError> {
    match sp.kind {
        CharacterDataKind::Text => None,
        CharacterDataKind::Integer => if parse_decimal(text) matches Some(v) && i64::MIN <= v <= i64::MAX {
            None
        } else {
            Some(AutosarDataError::ParseError)
        },
        CharacterDataKind::Enum => if exists|j: int| first_token(sp.tokens@, text, j) && j <= u32::MAX {
            None
        } else {
            Some(AutosarDataError::ParseError)
        },
    }
}

/// The first declaration of attribute `name` in `specs`.
pub fn find_attr_spec(specs: &Vec<AttributeSpec>, name: u32) -> (r: Option<usize>)
    ensures
        r matches Some(k) ==> first_attr_spec(specs@, name, k as int),
        r is None ==> forall|k: int| 0 <= k < specs@.len() ==> specs@[k].name != name,
{
    let n = specs.len();
    let mut i: usize = 0;
    while i < n
        invariant
            n == specs@.len(),
            i <= n,
            forall|j: int| 0 <= j < i ==> specs@[j].name != name,
        decreases n - i,
    {
        if specs[i].name == name {
            return Some(i);
        }
        i += 1;
    }
    None
}

/// Reads `text` under the declaration `sp`.
pub fn read_value(sp: &AttributeSpec, text: &str) -> (r: Result<CharacterData, AutosarDataError>)
    ensures
        r matches Ok(v) ==> read_error(*sp, text@) is None && reads_as(*sp, text@, v) && v.kind() == sp.kind,
        r matches Err(e) ==> read_error(*sp, text@) == Some(e),
{
    match sp.kind {
        CharacterDataKind::Text => Ok(CharacterData::Text(String::from_str(text))),
        CharacterDataKind::Integer => match crate::chardata::parse_i64(text) {
            Some(x) => Ok(CharacterData::Integer(x)),
            None => Err(AutosarDataError::ParseError),
        },
        CharacterDataKind::Enum => {
            let t = String::from_str(text);
            let n = sp.tokens.len();
            let mut j: usize = 0;
            while j < n
                invariant
                    sp.kind == CharacterDataKind::Enum,
                    n == sp.tokens@.len(),
                    j <= n,
                    t@ == text@,
                    forall|i: int| 0 <= i < j ==> sp.tokens@[i]@ != text@,
                decreases n - j,
            {
                if sp.tokens[j] == t {
                    if j > 4294967295usize {
                        proof {
                            assert forall|w: int| first_token(sp.tokens@, text@, w) implies w == j by {
                                if w < j {
                                } else if w > j {
                                    assert(sp.tokens@[j as int]@ == text@);
                                }
                            }
                            assert(!exists|w: int| first_token(sp.tokens@, text@, w) && w <= u32::MAX);
                        }
                        return Err(AutosarDataError::ParseError);
                    }
                    let e = j as u32;
                    proof {
                        assert(first_token(sp.tokens@, text@, j as int));
                        assert(e as int == j as int);
                        assert(first_token(sp.tokens@, text@, e as int) && e as int <= u32::MAX);
                    }
                    return Ok(CharacterData::Enum(e));
                }
                j += 1;
            }
            proof {
                assert forall|w: int| !first_token(sp.tokens@, text@, w) by {
                    if 0 <= w < n {
                        assert(sp.tokens@[w]@ != text@);
                    }
                }
            }
            Err(AutosarDataError::ParseError)
        },
    }
}

/// The `Element` items of `c`, in order.
pub open spec fn element_items(c: Seq<ElementContent>) -> Seq<Element>
    decreases c.len(),
{
    if c.len() == 0 {
        Seq::empty()
    } else {
        match c.last() {
            ElementContent::Element(e) => element_items(c.drop_last()).push(e),
            ElementContent::CharacterData(_) => element_items(c.drop_last()),
        }
    }
}
} // verus!
