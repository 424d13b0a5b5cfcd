use vstd::prelude::*;
use crate::chardata::{CharacterDataKind, ContentType};

verus! {

/// The schema identity of an element: an index into the schema's type table.
#[derive(Clone, Copy, Debug, PartialEq, Eq, Structural, Hash)]
pub struct ElementType {
    pub id: usize,
}

/// One sub-element that a type admits, with the most occurrences it admits.
#[derive(Clone, Copy, Debug, PartialEq, Eq, Structural)]
pub struct SubElementSpec {
    pub element_type: usize,
    pub max_occurs: usize,
}

/// One attribute that a type admits, and the kind of its value.
#[derive(Debug)]
pub struct AttributeSpec {
    pub name: u32,
    pub kind: CharacterDataKind,
    /// For an `Enum` attribute, the text of each token; token `k` is `CharacterData::Enum(k)`.
    pub tokens: Vec<String>,
}

/// What the schema says of one element type.
#[derive(Debug)]
pub struct TypeSpec {
    /// Elements of this type carry an item name and are addressable by path.
    pub identifiable: bool,
    pub content_type: ContentType,
    /// The kind of character data that the element holds in `CharacterData` mode.
    pub character_data: CharacterDataKind,
    /// For a reference type, the element types that it may point at.
    pub reference_dest: Option<Vec<usize>>,
    /// The admitted sub-elements, in their canonical order.
    pub sub_elements: Vec<SubElementSpec>,
    pub attributes: Vec<AttributeSpec>,
}

/// The schema service: a table of element types, indexed by `ElementType::id`.
#[derive(Debug)]
pub struct Schema {
    pub types: Vec<TypeSpec>,
}

impl Schema {
    /// Every type index that the table mentions is in range, and only text leaves are references.
    pub open spec fn wf(&self) -> bool {
        &&& forall|t: int, k: int|
            0 <= t < self.types@.len() && 0 <= k < self.types@[t].sub_elements@.len()
                ==> #[trigger] self.types@[t].sub_elements@[k].element_type < self.types@.len()
        &&& forall|t: int|
            0 <= t < self.types@.len() && (#[trigger] self.types@[t]).reference_dest is Some
                ==> self.types@[t].content_type == ContentType::CharacterData
                && self.types@[t].character_data == CharacterDataKind::Text
    }

    pub open spec fn is_reference_spec(&self, t: int) -> bool {
        self.types@[t].reference_dest is Some
    }

    /// Whether the table is well formed.
    pub fn is_valid(&self) -> (r: bool)
        ensures
            r == self.wf(),
    {
        let n = self.types.len();
        let mut t: usize = 0;
        while t < n
            invariant
                n == self.types@.len(),
                t <= n,
                forall|u: int, k: int|
                    0 <= u < t && 0 <= k < self.types@[u].sub_elements@.len()
                        ==> #[trigger] self.types@[u].sub_elements@[k].element_type < n,
                forall|u: int|
                    0 <= u < t && (#[trigger] self.types@[u]).reference_dest is Some
                        ==> self.types@[u].content_type == ContentType::CharacterData
                        && self.types@[u].character_data == CharacterDataKind::Text,
            decreases n - t,
        {
            let ty = &self.types[t];
            if ty.reference_dest.is_some() {
                if ty.content_type != ContentType::CharacterData || ty.character_data != CharacterDataKind::Text {
                    assert(self.types@[t as int].reference_dest is Some);
                    return false;
                }
            }
            let m = ty.sub_elements.len();
            let mut k: usize = 0;
            while k < m
                invariant
                    n == self.types@.len(),
                    t < n,
                    m == self.types@[t as int].sub_elements@.len(),
                    k <= m,
                    forall|j: int| 0 <= j < k ==> #[trigger] self.types@[t as int].sub_elements@[j].element_type < n,
                decreases m - k,
            {
                if self.types[t].sub_elements[k].element_type >= n {
                    assert(!(self.types@[t as int].sub_elements@[k as int].element_type < self.types@.len()));
                    return false;
                }
                k += 1;
            }
            t += 1;
        }
        true
    }
}

/// The index of the first entry of `subs` that admits type `t`.
pub open spec fn find_sub(subs: Seq<SubElementSpec>, t: usize) -> Option<int>
    decreases subs.len(),
{
    if subs.len() == 0 {
        None
    } else {
        match find_sub(subs.drop_last(), t) {
            Some(k) => Some(k),
            None => if subs.last().element_type == t { Some(subs.len() - 1) } else { None },
        }
    }
}

pub proof fn lemma_find_sub(subs: Seq<SubElementSpec>, t: usize)
    ensures
        match find_sub(subs, t) {
            Some(k) => 0 <= k < subs.len() && subs[k].element_type == t
                && forall|j: int| 0 <= j < k ==> subs[j].element_type != t,
            None => forall|j: int| 0 <= j < subs.len() ==> subs[j].element_type != t,
        },
    decreases subs.len(),
{
    if subs.len() > 0 {
        lemma_find_sub(subs.drop_last(), t);
        assert(forall|j: int| 0 <= j < subs.len() - 1 ==> subs.drop_last()[j] == subs[j]);
    }
}

/// The index of the first entry of `subs` that admits type `t`.
pub fn find_sub_element(subs: &Vec<SubElementSpec>, t: usize) -> (r: Option<usize>)
    ensures
        r matches Some(k) ==> find_sub(subs@, t) == Some(k as int) && k < subs@.len() && subs@[k as int].element_type == t,
        r is None ==> find_sub(subs@, t) is None,
{
    let n = subs.len();
    let mut k: usize = 0;
    while k < n
        invariant
            n == subs@.len(),
            k <= n,
            forall|j: int| 0 <= j < k ==> subs@[j].element_type != t,
        decreases n - k,
    {
        if subs[k].element_type == t {
            proof {
                lemma_find_sub(subs@, t);
            }
            return Some(k);
        }
        k += 1;
    }
    proof {
        lemma_find_sub(subs@, t);
    }
    None
}

} // verus!
