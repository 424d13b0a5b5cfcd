use vstd::prelude::*;
use crate::chardata::{CharacterData, ContentType};
use crate::error::AutosarDataError;
use crate::model::{
    same_but_content_data, same_data,
    element_items,
    find_attr_spec, first_attr_spec, read_error, read_value, reads_as, contains_index, find_attribute, first_attribute, lacks_attribute, ArxmlFile, Attribute,
    AutosarModel, Element, ElementContent,
};
use crate::paths::{is_at_path, name_view};
use crate::schema::{ElementType, SubElementSpec};

verus! {

impl Element {
    /// The parent of this element; None for the root.
    pub fn parent(&self, model: &AutosarModel) -> (r: Result<Option<Element>, AutosarDataError>)
        requires
            model.wf(),
        ensures
            !model.is_live(self.id as int) ==> r == Err::<Option<Element>, AutosarDataError>(AutosarDataError::DetachedElement),
            model.is_live(self.id as int) ==> r == Ok::<Option<Element>, AutosarDataError>(match model.elements@[self.id as int].parent {
                Some(p) => Some(Element { id: p }),
                None => None,
            }),
    {
        if self.id >= model.elements.len() || !model.elements[self.id].alive {
            return Err(AutosarDataError::DetachedElement);
        }
        match model.elements[self.id].parent {
            Some(p) => Ok(Some(Element { id: p })),
            None => Ok(None),
        }
    }

    /// The schema type of this element.
    pub fn element_type(&self, model: &AutosarModel) -> (r: ElementType)
        requires
            self.id < model.elements@.len(),
        ensures
            r.id == model.elements@[self.id as int].element_type,
    {
        ElementType { id: model.elements[self.id].element_type }
    }

    /// The item name of this element, if it is identifiable.
    pub fn item_name(&self, model: &AutosarModel) -> (r: Option<String>)
        requires
            self.id < model.elements@.len(),
        ensures
            name_view(r) == name_view(model.elements@[self.id as int].item_name),
    {
        match &model.elements[self.id].item_name {
            Some(s) => Some(s.clone()),
            None => None,
        }
    }

    /// Whether the schema makes elements of this type identifiable.
    pub fn is_identifiable(&self, model: &AutosarModel) -> (r: bool)
        requires
            model.wf(),
            self.id < model.elements@.len(),
        ensures
            r == model.schema.types@[model.elements@[self.id as int].element_type as int].identifiable,
    {
        proof {
            assert(model.elem_wf(self.id as int));
        }
        model.schema.types[model.elements[self.id].element_type].identifiable
    }

    /// Whether this element is a reference.
    pub fn is_reference(&self, model: &AutosarModel) -> (r: bool)
        requires
            model.wf(),
            self.id < model.elements@.len(),
        ensures
            r == model.schema.is_reference_spec(model.elements@[self.id as int].element_type as int),
    {
        proof {
            assert(model.elem_wf(self.id as int));
        }
        model.schema.types[model.elements[self.id].element_type].reference_dest.is_some()
    }

    /// The path of this element: "/" and the item name of each named element from the root.
    pub fn path(&self, model: &AutosarModel) -> (r: Result<String, AutosarDataError>)
        requires
            model.wf(),
        ensures
            !model.is_live(self.id as int) ==> r == Err::<String, AutosarDataError>(AutosarDataError::DetachedElement),
            model.is_live(self.id as int) && model.elements@[self.id as int].item_name is None
                ==> r == Err::<String, AutosarDataError>(AutosarDataError::NotIdentifiable),
            model.is_live(self.id as int) && model.elements@[self.id as int].item_name is Some && model.path_of(self.id as int) is None
                ==> r == Err::<String, AutosarDataError>(AutosarDataError::PathResolutionFailed),
            r matches Ok(s) ==> model.is_live(self.id as int) && model.elements@[self.id as int].item_name is Some
                && model.path_of(self.id as int) == Some(s@),
            model.is_live(self.id as int) && model.elements@[self.id as int].item_name is Some && model.path_of(self.id as int) is Some
                ==> r is Ok,
    {
        if self.id >= model.elements.len() || !model.elements[self.id].alive {
            return Err(AutosarDataError::DetachedElement);
        }
        if model.elements[self.id].item_name.is_none() {
            return Err(AutosarDataError::NotIdentifiable);
        }
        match model.compute_path(self.id) {
            Some(s) => Ok(s),
            None => Err(AutosarDataError::PathResolutionFailed),
        }
    }

    /// The model this element belongs to, unless it was removed.
    pub fn model<'a>(&self, model: &'a AutosarModel) -> (r: Result<&'a AutosarModel, AutosarDataError>)
        ensures
            model.is_live(self.id as int) <==> r is Ok,
            r matches Ok(m) ==> m == model,
            r matches Err(e) ==> e == AutosarDataError::DetachedElement,
    {
        if self.id < model.elements.len() && model.elements[self.id].alive {
            Ok(model)
        } else {
            Err(AutosarDataError::DetachedElement)
        }
    }

    /// Creates an unnamed sub-element of type `element_type` at the end of the content.
    pub fn create_sub_element(&self, model: &mut AutosarModel, element_type: ElementType) -> (r: Result<Element, AutosarDataError>)
        requires
            old(model).wf(),
            old(model).elements@.len() < usize::MAX,
        ensures
            final(model).wf(),
            match r {
                Ok(el) => old(model).create_error(self.id as int, element_type.id, None, None) is None
                    && final(model).created(old(model), self.id as int, element_type.id, None, None, el),
                Err(e) => old(model).create_error(self.id as int, element_type.id, None, None) == Some(e) && *final(model) == *old(model),
            },
    {
        model.create_sub_element_impl(self.id, element_type.id, None, None)
    }

    /// Creates an unnamed sub-element of type `element_type` at `position` in the content.
    pub fn create_sub_element_at(&self, model: &mut AutosarModel, element_type: ElementType, position: usize) -> (r: Result<Element, AutosarDataError>)
        requires
            old(model).wf(),
            old(model).elements@.len() < usize::MAX,
        ensures
            final(model).wf(),
            match r {
                Ok(el) => old(model).create_error(self.id as int, element_type.id, None, Some(position)) is None
                    && final(model).created(old(model), self.id as int, element_type.id, None, Some(position), el),
                Err(e) => old(model).create_error(self.id as int, element_type.id, None, Some(position)) == Some(e) && *final(model) == *old(model),
            },
    {
        model.create_sub_element_impl(self.id, element_type.id, None, Some(position))
    }

    /// Creates a sub-element of type `element_type` named `item_name` at the end of the content.
    pub fn create_named_sub_element(&self, model: &mut AutosarModel, element_type: ElementType, item_name: &str) -> (r: Result<Element, AutosarDataError>)
        requires
            old(model).wf(),
            old(model).elements@.len() < usize::MAX,
        ensures
            final(model).wf(),
            match r {
                Ok(el) => old(model).create_error(self.id as int, element_type.id, Some(item_name@), None) is None
                    && final(model).created(old(model), self.id as int, element_type.id, Some(item_name@), None, el),
                Err(e) => old(model).create_error(self.id as int, element_type.id, Some(item_name@), None) == Some(e) && *final(model) == *old(model),
            },
    {
        model.create_sub_element_impl(self.id, element_type.id, Some(item_name), None)
    }

    /// Creates a sub-element of type `element_type` named `item_name` at `position` in the content.
    pub fn create_named_sub_element_at(&self, model: &mut AutosarModel, element_type: ElementType, item_name: &str, position: usize) -> (r: Result<Element, AutosarDataError>)
        requires
            old(model).wf(),
            old(model).elements@.len() < usize::MAX,
        ensures
            final(model).wf(),
            match r {
                Ok(el) => old(model).create_error(self.id as int, element_type.id, Some(item_name@), Some(position)) is None
                    && final(model).created(old(model), self.id as int, element_type.id, Some(item_name@), Some(position), el),
                Err(e) => old(model).create_error(self.id as int, element_type.id, Some(item_name@), Some(position)) == Some(e) && *final(model) == *old(model),
            },
    {
        model.create_sub_element_impl(self.id, element_type.id, Some(item_name), Some(position))
    }

    /// Removes `sub_element`, a sub-element of this element, with its whole subtree:
    /// every element of the subtree is marked removed and leaves all files.
    pub fn remove_sub_element(&self, model: &mut AutosarModel, sub_element: Element) -> (r: Result<(), AutosarDataError>)
        requires
            old(model).wf(),
        ensures
            final(model).wf(),
            (r is Ok) == old(model).is_child(self.id as int, sub_element.id as int),
            r is Ok ==> final(model).removed(old(model), self.id as int, sub_element.id as int),
            r is Err ==> r == Err::<(), AutosarDataError>(AutosarDataError::DetachedElement) && *final(model) == *old(model),
    {
        model.remove_sub_element_impl(self.id, sub_element.id)
    }

    /// Points this reference element at `target`: stores the path of `target`.
    pub fn set_reference_target(&self, model: &mut AutosarModel, target: Element) -> (r: Result<(), AutosarDataError>)
        requires
            old(model).wf(),
        ensures
            final(model).wf(),
            match r {
                Ok(()) => old(model).set_reference_error(self.id as int, target.id as int) is None
                    && final(model).same_but_content(old(model), self.id as int)
                    && final(model).stored_reference(self.id as int) == old(model).path_of(target.id as int),
                Err(e) => old(model).set_reference_error(self.id as int, target.id as int) == Some(e)
                    && *final(model) == *old(model),
            },
    {
        let (s, t) = (self.id, target.id);
        if s >= model.elements.len() || !model.elements[s].alive || t >= model.elements.len() || !model.elements[t].alive {
            return Err(AutosarDataError::DetachedElement);
        }
        proof {
            assert(model.elem_wf(s as int));
        }
        let rt = model.elements[s].element_type;
        let allowed = match &model.schema.types[rt].reference_dest {
            None => {
                return Err(AutosarDataError::InvalidReference);
            },
            Some(dest) => contains_index(dest, model.elements[t].element_type),
        };
        if !allowed {
            return Err(AutosarDataError::InvalidReference);
        }
        if model.elements[t].item_name.is_none() {
            return Err(AutosarDataError::NotIdentifiable);
        }
        let path = match model.compute_path(t) {
            None => {
                return Err(AutosarDataError::PathResolutionFailed);
            },
            Some(p) => p,
        };
        model.replace_content(s, Some(CharacterData::Text(path)));
        Ok(())
    }

    /// The element that this reference element points at.
    pub fn get_reference_target(&self, model: &AutosarModel) -> (r: Result<Element, AutosarDataError>)
        requires
            model.wf(),
        ensures
            r == model.reference_target(self.id as int),
    {
        let s = self.id;
        if s >= model.elements.len() || !model.elements[s].alive {
            return Err(AutosarDataError::DetachedElement);
        }
        proof {
            assert(model.elem_wf(s as int));
        }
        if model.schema.types[model.elements[s].element_type].reference_dest.is_none() {
            return Err(AutosarDataError::InvalidReference);
        }
        let content = &model.elements[s].content;
        if content.len() != 1 {
            return Err(AutosarDataError::InvalidReference);
        }
        match &content[0] {
            ElementContent::CharacterData(CharacterData::Text(p)) => match model.find_path(p) {
                Some(i) => {
                    proof {
                        let j = choose|j: int| is_at_path(model.links(), model.ranks(), j, p@);
                        assert(is_at_path(model.links(), model.ranks(), j, p@));
                    }
                    Ok(Element { id: i })
                },
                None => Err(AutosarDataError::InvalidReference),
            },
            _ => Err(AutosarDataError::InvalidReference),
        }
    }

    /// Sets the character data of this element, which must be of the kind the schema declares.
    pub fn set_character_data(&self, model: &mut AutosarModel, value: CharacterData) -> (r: Result<(), AutosarDataError>)
        requires
            old(model).wf(),
        ensures
            final(model).wf(),
            !old(model).is_live(self.id as int) ==> r == Err::<(), AutosarDataError>(AutosarDataError::DetachedElement),
            old(model).is_live(self.id as int) ==> ({
                let ty = old(model).schema.types@[old(model).elements@[self.id as int].element_type as int];
                if ty.content_type != ContentType::CharacterData || ty.character_data != value.kind() {
                    r == Err::<(), AutosarDataError>(AutosarDataError::TypeMismatch)
                } else {
                    r is Ok
                }
            }),
            r is Ok ==> final(model).same_but_content(old(model), self.id as int)
                && final(model).character_data_of(self.id as int) == Some(value),
            r is Err ==> *final(model) == *old(model),
    {
        let s = self.id;
        if s >= model.elements.len() || !model.elements[s].alive {
            return Err(AutosarDataError::DetachedElement);
        }
        proof {
            assert(model.elem_wf(s as int));
        }
        let ty = &model.schema.types[model.elements[s].element_type];
        if ty.content_type != ContentType::CharacterData || ty.character_data != value.kind() {
            return Err(AutosarDataError::TypeMismatch);
        }
        model.replace_content(s, Some(value));
        Ok(())
    }

    /// Removes the character data of this element.
    pub fn remove_character_data(&self, model: &mut AutosarModel) -> (r: Result<(), AutosarDataError>)
        requires
            old(model).wf(),
        ensures
            final(model).wf(),
            !old(model).is_live(self.id as int) ==> r == Err::<(), AutosarDataError>(AutosarDataError::DetachedElement),
            old(model).is_live(self.id as int) ==> ({
                let ty = old(model).schema.types@[old(model).elements@[self.id as int].element_type as int];
                if ty.content_type != ContentType::CharacterData {
                    r == Err::<(), AutosarDataError>(AutosarDataError::TypeMismatch)
                } else {
                    r is Ok
                }
            }),
            r is Ok ==> final(model).same_but_content(old(model), self.id as int)
                && final(model).elements@[self.id as int].content@.len() == 0,
            r is Err ==> *final(model) == *old(model),
    {
        let s = self.id;
        if s >= model.elements.len() || !model.elements[s].alive {
            return Err(AutosarDataError::DetachedElement);
        }
        proof {
            assert(model.elem_wf(s as int));
        }
        if model.schema.types[model.elements[s].element_type].content_type != ContentType::CharacterData {
            return Err(AutosarDataError::TypeMismatch);
        }
        model.replace_content(s, None);
        Ok(())
    }

    /// The character data of this element, if it holds one value.
    pub fn character_data(&self, model: &AutosarModel) -> (r: Option<CharacterData>)
        requires
            self.id < model.elements@.len(),
        ensures
            r == model.character_data_of(self.id as int),
    {
        let content = &model.elements[self.id].content;
        if content.len() != 1 {
            return None;
        }
        match &content[0] {
            ElementContent::CharacterData(v) => Some(v.duplicate()),
            ElementContent::Element(_) => None,
        }
    }

    /// The sub-elements of this element, in content order, each once.
    pub fn sub_elements(&self, model: &AutosarModel) -> (r: Vec<Element>)
        requires
            self.id < model.elements@.len(),
        ensures
            r@ == element_items(model.elements@[self.id as int].content@),
    {
        let content = &model.elements[self.id].content;
        let n = content.len();
        let mut r: Vec<Element> = Vec::new();
        let mut i: usize = 0;
        while i < n
            invariant
                content@ == model.elements@[self.id as int].content@,
                n == content@.len(),
                i <= n,
                r@ == element_items(content@.subrange(0, i as int)),
            decreases n - i,
        {
            proof {
                let nx = content@.subrange(0, i as int + 1);
                assert(nx.drop_last() =~= content@.subrange(0, i as int));
                assert(nx.last() == content@[i as int]);
            }
            if let ElementContent::Element(e) = &content[i] {
                r.push(*e);
            }
            i += 1;
        }
        proof {
            assert(content@.subrange(0, n as int) =~= content@);
        }
        r
    }

    /// Every element type that the schema admits under this element, each with whether
    /// one more may be added now and whether it is identifiable.
    pub fn list_valid_sub_elements(&self, model: &AutosarModel) -> (r: Vec<(ElementType, bool, bool)>)
        requires
            model.wf(),
        ensures
            !model.is_live(self.id as int) ==> r@.len() == 0,
            model.is_live(self.id as int) ==> ({
                let subs = model.schema.types@[model.elements@[self.id as int].element_type as int].sub_elements@;
                &&& r@.len() == subs.len()
                &&& forall|k: int| 0 <= k < r@.len() ==> {
                    let t = subs[k].element_type;
                    &&& (#[trigger] r@[k]).0.id == t
                    &&& r@[k].1 == model.allowed_here(self.id as int, t)
                    &&& r@[k].2 == model.schema.types@[t as int].identifiable
                }
            }),
    {
        if self.id >= model.elements.len() || !model.elements[self.id].alive {
            return Vec::new();
        }
        proof {
            assert(model.elem_wf(self.id as int));
        }
        let pt = model.elements[self.id].element_type;
        let subs: &Vec<SubElementSpec> = &model.schema.types[pt].sub_elements;
        let n = subs.len();
        let mut r: Vec<(ElementType, bool, bool)> = Vec::new();
        let mut k: usize = 0;
        while k < n
            invariant
                model.wf(),
                self.id < model.elements@.len(),
                pt == model.elements@[self.id as int].element_type,
                pt < model.schema.types@.len(),
                subs@ == model.schema.types@[pt as int].sub_elements@,
                n == subs@.len(),
                k <= n,
                r@.len() == k,
                forall|j: int| 0 <= j < k ==> {
                    let t = subs@[j].element_type;
                    &&& (#[trigger] r@[j]).0.id == t
                    &&& r@[j].1 == model.allowed_here(self.id as int, t)
                    &&& r@[j].2 == model.schema.types@[t as int].identifiable
                },
            decreases n - k,
        {
            let t = subs[k].element_type;
            proof {
                assert(t < model.schema.types@.len());
            }
            let allowed = model.check_allowed_here(self.id, t);
            let ident = model.schema.types[t].identifiable;
            r.push((ElementType { id: t }, allowed, ident));
            k += 1;
        }
        r
    }

    /// The files this element is part of.
    pub fn file_membership(&self, model: &AutosarModel) -> (r: Result<Vec<ArxmlFile>, AutosarDataError>)
        requires
            model.wf(),
        ensures
            !model.is_live(self.id as int) ==> r == Err::<Vec<ArxmlFile>, AutosarDataError>(AutosarDataError::DetachedElement),
            model.is_live(self.id as int) ==> (r matches Ok(v) && v@.len() == model.elements@[self.id as int].files@.len()
                && forall|k: int| 0 <= k < v@.len() ==> (#[trigger] v@[k]).id == model.elements@[self.id as int].files@[k]),
    {
        if self.id >= model.elements.len() || !model.elements[self.id].alive {
            return Err(AutosarDataError::DetachedElement);
        }
        let files = &model.elements[self.id].files;
        let n = files.len();
        let mut v: Vec<ArxmlFile> = Vec::new();
        let mut k: usize = 0;
        while k < n
            invariant
                files@ == model.elements@[self.id as int].files@,
                n == files@.len(),
                k <= n,
                v@.len() == k,
                forall|j: int| 0 <= j < k ==> (#[trigger] v@[j]).id == files@[j],
            decreases n - k,
        {
            v.push(ArxmlFile { id: files[k] });
            k += 1;
        }
        Ok(v)
    }

    /// Makes this element part of `file` as well.
    pub fn add_to_file(&self, model: &mut AutosarModel, file: &ArxmlFile) -> (r: Result<(), AutosarDataError>)
        requires
            old(model).wf(),
        ensures
            final(model).wf(),
            !old(model).is_live(self.id as int) ==> r == Err::<(), AutosarDataError>(AutosarDataError::DetachedElement),
            old(model).is_live(self.id as int) && file.id >= old(model).files@.len() ==> r == Err::<(), AutosarDataError>(AutosarDataError::InvalidFile),
            old(model).is_live(self.id as int) && file.id < old(model).files@.len() ==> r is Ok,
            r is Err ==> *final(model) == *old(model),
            r is Ok ==> final(model).elements@[self.id as int].files@.to_set() == old(model).elements@[self.id as int].files@.to_set().insert(file.id)
                && forall|i: int| 0 <= i < final(model).elements@.len() && i != self.id ==> final(model).elements@[i] == old(model).elements@[i],
            final(model).links() == old(model).links(),
    {
        let s = self.id;
        if s >= model.elements.len() || !model.elements[s].alive {
            return Err(AutosarDataError::DetachedElement);
        }
        if file.id >= model.files.len() {
            return Err(AutosarDataError::InvalidFile);
        }
        proof {
            assert(model.elem_wf(s as int));
        }
        if contains_index(&model.elements[s].files, file.id) {
            proof {
                assert(model.elements@[s as int].files@.to_set() =~= model.elements@[s as int].files@.to_set().insert(file.id));
            }
            return Ok(());
        }
        let mut files = model.elements[s].files.clone();
        proof {
            assert(files@ =~= model.elements@[s as int].files@);
        }
        let ghost before = files@;
        files.push(file.id);
        proof {
            assert(files@ == before.push(file.id));
            assert(files@.to_set() =~= before.to_set().insert(file.id)) by {
                assert forall|x: usize| files@.to_set().contains(x) <==> before.to_set().insert(file.id).contains(x) by {
                    if files@.contains(x) && x != file.id {
                        let w = choose|w: int| 0 <= w < files@.len() && files@[w] == x;
                        assert(before[w] == x);
                    }
                    if before.contains(x) {
                        let w = choose|w: int| 0 <= w < before.len() && before[w] == x;
                        assert(files@[w] == x);
                    }
                    if x == file.id {
                        assert(files@[before.len() as int] == x);
                    }
                }
            }
        }
        model.replace_files(s, files);
        Ok(())
    }

    /// Takes this element out of `file`.
    pub fn remove_from_file(&self, model: &mut AutosarModel, file: &ArxmlFile) -> (r: Result<(), AutosarDataError>)
        requires
            old(model).wf(),
        ensures
            final(model).wf(),
            !old(model).is_live(self.id as int) ==> r == Err::<(), AutosarDataError>(AutosarDataError::DetachedElement),
            old(model).is_live(self.id as int) && file.id >= old(model).files@.len() ==> r == Err::<(), AutosarDataError>(AutosarDataError::InvalidFile),
            old(model).is_live(self.id as int) && file.id < old(model).files@.len() ==> r is Ok,
            r is Err ==> *final(model) == *old(model),
            r is Ok ==> final(model).elements@[self.id as int].files@.to_set() == old(model).elements@[self.id as int].files@.to_set().remove(file.id)
                && forall|i: int| 0 <= i < final(model).elements@.len() && i != self.id ==> final(model).elements@[i] == old(model).elements@[i],
            final(model).links() == old(model).links(),
    {
        let s = self.id;
        if s >= model.elements.len() || !model.elements[s].alive {
            return Err(AutosarDataError::DetachedElement);
        }
        if file.id >= model.files.len() {
            return Err(AutosarDataError::InvalidFile);
        }
        proof {
            assert(model.elem_wf(s as int));
        }
        let old_files = &model.elements[s].files;
        let ghost of = old_files@;
        let n = old_files.len();
        let mut files: Vec<usize> = Vec::new();
        let mut k: usize = 0;
        while k < n
            invariant
                of == old_files@,
                of == model.elements@[s as int].files@,
                n == of.len(),
                k <= n,
                forall|j: int| 0 <= j < of.len() ==> #[trigger] of[j] < model.files@.len(),
                forall|j: int| 0 <= j < files@.len() ==> #[trigger] files@[j] < model.files@.len(),
                files@.to_set() =~= of.subrange(0, k as int).to_set().remove(file.id),
            decreases n - k,
        {
            let x = old_files[k];
            proof {
                assert(of.subrange(0, k as int + 1) =~= of.subrange(0, k as int).push(x));
                of.subrange(0, k as int).lemma_push_to_set_commute(x);
            }
            if x != file.id {
                proof {
                    files@.lemma_push_to_set_commute(x);
                }
                files.push(x);
            }
            k += 1;
        }
        proof {
            assert(of.subrange(0, n as int) =~= of);
        }
        model.replace_files(s, files);
        Ok(())
    }

    /// Renames this identifiable element. References to its old path are not rewritten.
    pub fn set_item_name(&self, model: &mut AutosarModel, new_name: &str) -> (r: Result<(), AutosarDataError>)
        requires
            old(model).wf(),
        ensures
            final(model).wf(),
            match r {
                Ok(()) => old(model).rename_error(self.id as int, new_name@) is None
                    && final(model).links() == old(model).renamed_links(self.id as int, new_name@)
                    && final(model).same_but_name(old(model), self.id as int),
                Err(err) => old(model).rename_error(self.id as int, new_name@) == Some(err) && final(model).unchanged(old(model)),
            },
    {
        model.rename_impl(self.id, new_name)
    }

    /// Moves `move_element` (with its subtree) to the end of the content of this element.
    /// File membership stays as it was.
    pub fn move_element_here(&self, model: &mut AutosarModel, move_element: &Element) -> (r: Result<Element, AutosarDataError>)
        requires
            old(model).wf(),
        ensures
            final(model).wf(),
            match r {
                Ok(el) => old(model).move_error(self.id as int, move_element.id as int, None) is None && el == *move_element
                    && final(model).links() == old(model).moved_links(self.id as int, move_element.id as int)
                    && final(model).schema == old(model).schema
                    && final(model).files == old(model).files
                    && final(model).elements@.len() == old(model).elements@.len()
                    && (forall|i: int| 0 <= i < final(model).elements@.len() ==> (#[trigger] final(model).elements@[i]).files == old(model).elements@[i].files
                        && final(model).elements@[i].element_type == old(model).elements@[i].element_type
                        && final(model).elements@[i].attributes == old(model).elements@[i].attributes)
                    && final(model).elements@[self.id as int].content@.contains(ElementContent::Element(el)),
                Err(err) => old(model).move_error(self.id as int, move_element.id as int, None) == Some(err) && final(model).unchanged(old(model)),
            },
    {
        model.move_element_impl(self.id, move_element.id, None)
    }

    /// Moves `move_element` (with its subtree) to `position` in the content of this element.
    /// File membership stays as it was.
    pub fn move_element_here_at(&self, model: &mut AutosarModel, move_element: &Element, position: usize) -> (r: Result<Element, AutosarDataError>)
        requires
            old(model).wf(),
        ensures
            final(model).wf(),
            match r {
                Ok(el) => old(model).move_error(self.id as int, move_element.id as int, Some(position)) is None && el == *move_element
                    && final(model).links() == old(model).moved_links(self.id as int, move_element.id as int)
                    && final(model).schema == old(model).schema
                    && final(model).files == old(model).files
                    && final(model).elements@.len() == old(model).elements@.len()
                    && (forall|i: int| 0 <= i < final(model).elements@.len() ==> (#[trigger] final(model).elements@[i]).files == old(model).elements@[i].files
                        && final(model).elements@[i].element_type == old(model).elements@[i].element_type
                        && final(model).elements@[i].attributes == old(model).elements@[i].attributes)
                    && final(model).elements@[self.id as int].content@.contains(ElementContent::Element(el)),
                Err(err) => old(model).move_error(self.id as int, move_element.id as int, Some(position)) == Some(err) && final(model).unchanged(old(model)),
            },
    {
        model.move_element_impl(self.id, move_element.id, Some(position))
    }

    /// Inserts the text run `chardata` at `position` in the mixed content of this element.
    pub fn insert_character_content_item(&self, model: &mut AutosarModel, chardata: &str, position: usize) -> (r: Result<(), AutosarDataError>)
        requires
            old(model).wf(),
        ensures
            final(model).wf(),
            !old(model).is_live(self.id as int) ==> r == Err::<(), AutosarDataError>(AutosarDataError::DetachedElement),
            old(model).is_live(self.id as int) ==> ({
                let ty = old(model).schema.types@[old(model).elements@[self.id as int].element_type as int];
                if ty.content_type != ContentType::Mixed {
                    r == Err::<(), AutosarDataError>(AutosarDataError::InvalidStructure)
                } else if position > old(model).elements@[self.id as int].content@.len() {
                    r == Err::<(), AutosarDataError>(AutosarDataError::InvalidPosition)
                } else {
                    r is Ok
                }
            }),
            r is Err ==> *final(model) == *old(model),
            r is Ok ==> final(model).same_but_content(old(model), self.id as int)
                && final(model).elements@[self.id as int].content@.len() == old(model).elements@[self.id as int].content@.len() + 1
                && (final(model).elements@[self.id as int].content@[position as int] matches ElementContent::CharacterData(CharacterData::Text(t)) && t@ == chardata@)
                && (forall|k: int| 0 <= k < position ==> final(model).elements@[self.id as int].content@[k] == old(model).elements@[self.id as int].content@[k])
                && (forall|k: int| position < k < final(model).elements@[self.id as int].content@.len()
                    ==> final(model).elements@[self.id as int].content@[k] == old(model).elements@[self.id as int].content@[k - 1]),
    {
        let s = self.id;
        if s >= model.elements.len() || !model.elements[s].alive {
            return Err(AutosarDataError::DetachedElement);
        }
        proof {
            assert(model.elem_wf(s as int));
        }
        if model.schema.types[model.elements[s].element_type].content_type != ContentType::Mixed {
            return Err(AutosarDataError::InvalidStructure);
        }
        if position > model.elements[s].content.len() {
            return Err(AutosarDataError::InvalidPosition);
        }
        model.insert_text_item(s, position, String::from_str(chardata));
        Ok(())
    }

    /// Removes the text run at `position` from the mixed content of this element.
    pub fn remove_character_content_item(&self, model: &mut AutosarModel, position: usize) -> (r: Result<(), AutosarDataError>)
        requires
            old(model).wf(),
        ensures
            final(model).wf(),
            !old(model).is_live(self.id as int) ==> r == Err::<(), AutosarDataError>(AutosarDataError::DetachedElement),
            old(model).is_live(self.id as int) ==> ({
                let ty = old(model).schema.types@[old(model).elements@[self.id as int].element_type as int];
                let c = old(model).elements@[self.id as int].content@;
                if ty.content_type != ContentType::Mixed {
                    r == Err::<(), AutosarDataError>(AutosarDataError::InvalidStructure)
                } else if position >= c.len() || !(c[position as int] is CharacterData) {
                    r == Err::<(), AutosarDataError>(AutosarDataError::InvalidPosition)
                } else {
                    r is Ok
                }
            }),
            r is Err ==> *final(model) == *old(model),
            r is Ok ==> final(model).same_but_content(old(model), self.id as int)
                && final(model).elements@[self.id as int].content@ == old(model).elements@[self.id as int].content@.remove(position as int),
    {
        let s = self.id;
        if s >= model.elements.len() || !model.elements[s].alive {
            return Err(AutosarDataError::DetachedElement);
        }
        proof {
            assert(model.elem_wf(s as int));
        }
        if model.schema.types[model.elements[s].element_type].content_type != ContentType::Mixed {
            return Err(AutosarDataError::InvalidStructure);
        }
        if position >= model.elements[s].content.len() {
            return Err(AutosarDataError::InvalidPosition);
        }
        if let ElementContent::Element(_) = &model.elements[s].content[position] {
            return Err(AutosarDataError::InvalidPosition);
        }
        model.remove_text_item(s, position);
        Ok(())
    }

    /// The content of this element, in order.
    pub fn content(&self, model: &AutosarModel) -> (r: Vec<ElementContent>)
        requires
            self.id < model.elements@.len(),
        ensures
            r@ == model.elements@[self.id as int].content@,
    {
        let c = &model.elements[self.id].content;
        let n = c.len();
        let mut r: Vec<ElementContent> = Vec::new();
        let mut i: usize = 0;
        while i < n
            invariant
                c@ == model.elements@[self.id as int].content@,
                n == c@.len(),
                i <= n,
                r@ == c@.subrange(0, i as int),
            decreases n - i,
        {
            r.push(c[i].duplicate());
            proof {
                assert(c@.subrange(0, i as int + 1) =~= c@.subrange(0, i as int).push(c@[i as int]));
            }
            i += 1;
        }
        proof {
            assert(c@.subrange(0, n as int) =~= c@);
        }
        r
    }

    /// The attributes of this element, in order.
    pub fn attributes(&self, model: &AutosarModel) -> (r: Vec<Attribute>)
        requires
            self.id < model.elements@.len(),
        ensures
            r@ == model.elements@[self.id as int].attributes@,
    {
        let a = &model.elements[self.id].attributes;
        let n = a.len();
        let mut r: Vec<Attribute> = Vec::new();
        let mut i: usize = 0;
        while i < n
            invariant
                a@ == model.elements@[self.id as int].attributes@,
                n == a@.len(),
                i <= n,
                r@ == a@.subrange(0, i as int),
            decreases n - i,
        {
            r.push(a[i].duplicate());
            proof {
                assert(a@.subrange(0, i as int + 1) =~= a@.subrange(0, i as int).push(a@[i as int]));
            }
            i += 1;
        }
        proof {
            assert(a@.subrange(0, n as int) =~= a@);
        }
        r
    }

    /// The value of attribute `attrname`, if this element has it.
    pub fn attribute_value(&self, model: &AutosarModel, attrname: u32) -> (r: Option<CharacterData>)
        requires
            self.id < model.elements@.len(),
        ensures
            ({
                let a = model.elements@[self.id as int].attributes@;
                &&& r matches Some(v) ==> exists|k: int| first_attribute(a, attrname, k) && a[k].value == v
                &&& r is None ==> lacks_attribute(a, attrname)
            }),
    {
        let a = &model.elements[self.id].attributes;
        match find_attribute(a, attrname) {
            Some(k) => Some(a[k].value.duplicate()),
            None => None,
        }
    }

    /// Sets attribute `attrname` to `value`: the schema must admit the name, with values of that kind.
    pub fn set_attribute(&self, model: &mut AutosarModel, attrname: u32, value: CharacterData) -> (r: Result<(), AutosarDataError>)
        requires
            old(model).wf(),
        ensures
            final(model).wf(),
            !old(model).is_live(self.id as int) ==> r == Err::<(), AutosarDataError>(AutosarDataError::DetachedElement),
            old(model).is_live(self.id as int) ==> ({
                let t = old(model).elements@[self.id as int].element_type as int;
                if !old(model).attribute_known(t, attrname) {
                    r == Err::<(), AutosarDataError>(AutosarDataError::InvalidStructure)
                } else if !old(model).attribute_fits(t, attrname, value.kind()) {
                    r == Err::<(), AutosarDataError>(AutosarDataError::TypeMismatch)
                } else {
                    r is Ok
                }
            }),
            r is Err ==> *final(model) == *old(model),
            r is Ok ==> ({
                let a0 = old(model).elements@[self.id as int].attributes@;
                let a1 = final(model).elements@[self.id as int].attributes@;
                let at = Attribute { name: attrname, value };
                &&& (exists|k: int| first_attribute(a0, attrname, k) && a1 == a0.update(k, at))
                    || (lacks_attribute(a0, attrname) && a1 == a0.push(at))
                &&& final(model).links() == old(model).links()
                &&& forall|i: int| 0 <= i < final(model).elements@.len() && i != self.id ==> final(model).elements@[i] == old(model).elements@[i]
            }),
    {
        let s = self.id;
        if s >= model.elements.len() || !model.elements[s].alive {
            return Err(AutosarDataError::DetachedElement);
        }
        proof {
            assert(model.elem_wf(s as int));
        }
        let (known, fits) = model.check_attribute(model.elements[s].element_type, attrname, value.kind());
        if !known {
            return Err(AutosarDataError::InvalidStructure);
        }
        if !fits {
            return Err(AutosarDataError::TypeMismatch);
        }
        let old_attrs = &model.elements[s].attributes;
        let n = old_attrs.len();
        let mut attrs: Vec<Attribute> = Vec::new();
        let mut i: usize = 0;
        while i < n
            invariant
                old_attrs@ == model.elements@[s as int].attributes@,
                n == old_attrs@.len(),
                i <= n,
                attrs@ == old_attrs@.subrange(0, i as int),
            decreases n - i,
        {
            attrs.push(old_attrs[i].duplicate());
            proof {
                assert(old_attrs@.subrange(0, i as int + 1) =~= old_attrs@.subrange(0, i as int).push(old_attrs@[i as int]));
            }
            i += 1;
        }
        proof {
            assert(old_attrs@.subrange(0, n as int) =~= old_attrs@);
        }
        match find_attribute(&attrs, attrname) {
            Some(k) => {
                attrs.set(k, Attribute { name: attrname, value });
            },
            None => {
                attrs.push(Attribute { name: attrname, value });
            },
        }
        model.replace_attributes(s, attrs);
        Ok(())
    }

    /// Removes attribute `attrname`; says whether it was there.
    pub fn remove_attribute(&self, model: &mut AutosarModel, attrname: u32) -> (r: bool)
        requires
            old(model).wf(),
        ensures
            final(model).wf(),
            r == (old(model).is_live(self.id as int) && !lacks_attribute(old(model).elements@[self.id as int].attributes@, attrname)),
            !r ==> *final(model) == *old(model),
            r ==> ({
                let a0 = old(model).elements@[self.id as int].attributes@;
                let a1 = final(model).elements@[self.id as int].attributes@;
                &&& exists|k: int| first_attribute(a0, attrname, k) && a1 == a0.remove(k)
                &&& final(model).links() == old(model).links()
                &&& forall|i: int| 0 <= i < final(model).elements@.len() && i != self.id ==> final(model).elements@[i] == old(model).elements@[i]
            }),
    {
        let s = self.id;
        if s >= model.elements.len() || !model.elements[s].alive {
            return false;
        }
        let old_attrs = &model.elements[s].attributes;
        let k = match find_attribute(old_attrs, attrname) {
            None => {
                return false;
            },
            Some(k) => k,
        };
        let n = old_attrs.len();
        let mut attrs: Vec<Attribute> = Vec::new();
        let mut i: usize = 0;
        while i < n
            invariant
                old_attrs@ == model.elements@[s as int].attributes@,
                n == old_attrs@.len(),
                k < n,
                i <= n,
                attrs@ == old_attrs@.remove(k as int).subrange(0, if i <= k { i as int } else { i - 1 }),
            decreases n - i,
        {
            if i != k {
                attrs.push(old_attrs[i].duplicate());
                proof {
                    let rm = old_attrs@.remove(k as int);
                    let j = if i < k { i as int } else { i - 1 };
                    assert(rm[j] == old_attrs@[i as int]);
                    assert(rm.subrange(0, j + 1) =~= rm.subrange(0, j).push(rm[j]));
                }
            }
            i += 1;
        }
        proof {
            assert(old_attrs@.remove(k as int).subrange(0, n - 1) =~= old_attrs@.remove(k as int));
        }
        model.replace_attributes(s, attrs);
        true
    }

    /// Copies `other` with its subtree (type, item name, attributes and content, but not its
    /// file membership, which comes from this element) into a new sub-element; a copy into
    /// `other`'s own subtree is refused. The new sub-element goes at the end of the content.
    pub fn create_copied_sub_element(&self, model: &mut AutosarModel, other: &Element) -> (r: Result<Element, AutosarDataError>)
        requires
            old(model).wf(),
            old(model).elements@.len() < usize::MAX,
        ensures
            final(model).wf(),
            r is Err ==> final(model).same_state(old(model)),
            !old(model).is_live(other.id as int) ==> r == Err::<Element, AutosarDataError>(AutosarDataError::DetachedElement),
            old(model).is_live(other.id as int) && old(model).in_subtree(self.id as int, other.id as int)
                ==> r == Err::<Element, AutosarDataError>(AutosarDataError::CycleDetected),
            old(model).is_live(other.id as int) && !old(model).in_subtree(self.id as int, other.id as int) ==> ({
                let nm = name_view(old(model).elements@[other.id as int].item_name);
                let t = old(model).elements@[other.id as int].element_type;
                old(model).create_error(self.id as int, t, nm, None) matches Some(e) ==> r == Err::<Element, AutosarDataError>(e)
            }),
            r matches Ok(el) ==> ({
                let n0 = old(model).elements@.len();
                let at = old(model).insert_at(self.id as int, old(model).elements@[self.id as int].content@, old(model).elements@[other.id as int].element_type, None);
                &&& el.id == n0
                &&& old(model).create_error(self.id as int, old(model).elements@[other.id as int].element_type,
                    name_view(old(model).elements@[other.id as int].item_name), None) is None
                &&& final(model).schema == old(model).schema
                &&& final(model).files == old(model).files
                &&& forall|i: int| 0 <= i < n0 && i != self.id ==> same_data(#[trigger] final(model).elements@[i], old(model).elements@[i])
                &&& same_but_content_data(final(model).elements@[self.id as int], old(model).elements@[self.id as int])
                &&& final(model).elements@[self.id as int].content@ == old(model).elements@[self.id as int].content@.insert(at, ElementContent::Element(el))
                &&& final(model).elements@[el.id as int].parent == Some(self.id)
                &&& final(model).elements@[el.id as int].element_type == old(model).elements@[other.id as int].element_type
                &&& name_view(final(model).elements@[el.id as int].item_name) == name_view(old(model).elements@[other.id as int].item_name)
                &&& final(model).elements@[el.id as int].alive
                &&& final(model).elements@[el.id as int].files@ == old(model).elements@[self.id as int].files@
                &&& final(model).elements@[el.id as int].attributes@ == old(model).elements@[other.id as int].attributes@
            }),
    {
        if other.id >= model.elements.len() || !model.elements[other.id].alive {
            return Err(AutosarDataError::DetachedElement);
        }
        if self.id < model.elements.len() && model.is_in_subtree(self.id, other.id) {
            proof {
                model.lemma_same_state_refl();
            }
            return Err(AutosarDataError::CycleDetected);
        }
        let fuel = model.elements.len();
        model.copy_subtree(other.id, self.id, None, fuel)
    }

    /// Copies `other` with its subtree (type, item name, attributes and content, but not its
    /// file membership, which comes from this element) into a new sub-element; a copy into
    /// `other`'s own subtree is refused. The new sub-element goes at `position` in the content.
    pub fn create_copied_sub_element_at(&self, model: &mut AutosarModel, other: &Element, position: usize) -> (r: Result<Element, AutosarDataError>)
        requires
            old(model).wf(),
            old(model).elements@.len() < usize::MAX,
        ensures
            final(model).wf(),
            r is Err ==> final(model).same_state(old(model)),
            !old(model).is_live(other.id as int) ==> r == Err::<Element, AutosarDataError>(AutosarDataError::DetachedElement),
            old(model).is_live(other.id as int) && old(model).in_subtree(self.id as int, other.id as int)
                ==> r == Err::<Element, AutosarDataError>(AutosarDataError::CycleDetected),
            old(model).is_live(other.id as int) && !old(model).in_subtree(self.id as int, other.id as int) ==> ({
                let nm = name_view(old(model).elements@[other.id as int].item_name);
                let t = old(model).elements@[other.id as int].element_type;
                old(model).create_error(self.id as int, t, nm, Some(position)) matches Some(e) ==> r == Err::<Element, AutosarDataError>(e)
            }),
            r matches Ok(el) ==> ({
                let n0 = old(model).elements@.len();
                let at = old(model).insert_at(self.id as int, old(model).elements@[self.id as int].content@, old(model).elements@[other.id as int].element_type, Some(position));
                &&& el.id == n0
                &&& old(model).create_error(self.id as int, old(model).elements@[other.id as int].element_type,
                    name_view(old(model).elements@[other.id as int].item_name), Some(position)) is None
                &&& final(model).schema == old(model).schema
                &&& final(model).files == old(model).files
                &&& forall|i: int| 0 <= i < n0 && i != self.id ==> same_data(#[trigger] final(model).elements@[i], old(model).elements@[i])
                &&& same_but_content_data(final(model).elements@[self.id as int], old(model).elements@[self.id as int])
                &&& final(model).elements@[self.id as int].content@ == old(model).elements@[self.id as int].content@.insert(at, ElementContent::Element(el))
                &&& final(model).elements@[el.id as int].parent == Some(self.id)
                &&& final(model).elements@[el.id as int].element_type == old(model).elements@[other.id as int].element_type
                &&& name_view(final(model).elements@[el.id as int].item_name) == name_view(old(model).elements@[other.id as int].item_name)
                &&& final(model).elements@[el.id as int].alive
                &&& final(model).elements@[el.id as int].files@ == old(model).elements@[self.id as int].files@
                &&& final(model).elements@[el.id as int].attributes@ == old(model).elements@[other.id as int].attributes@
            }),
    {
        if other.id >= model.elements.len() || !model.elements[other.id].alive {
            return Err(AutosarDataError::DetachedElement);
        }
        if self.id < model.elements.len() && model.is_in_subtree(self.id, other.id) {
            proof {
                model.lemma_same_state_refl();
            }
            return Err(AutosarDataError::CycleDetected);
        }
        let fuel = model.elements.len();
        model.copy_subtree(other.id, self.id, Some(position), fuel)
    }

    /// Puts the sub-elements of this element into the schema's canonical order; content that
    /// is in that order already stays exactly as it is. Content that holds text is left alone,
    /// since moving text against elements would change its meaning.
    pub fn sort(&self, model: &mut AutosarModel)
        requires
            old(model).wf(),
        ensures
            final(model).wf(),
            final(model).links() == old(model).links(),
            ({
                let sorts = old(model).is_live(self.id as int) && !exists|k: int|
                    0 <= k < old(model).elements@[self.id as int].content@.len()
                    && (#[trigger] old(model).elements@[self.id as int].content@[k]) is CharacterData;
                &&& !sorts ==> *final(model) == *old(model)
                &&& sorts ==> final(model).same_but_content(old(model), self.id as int)
                    && final(model).elements@[self.id as int].content@.to_multiset() == old(model).elements@[self.id as int].content@.to_multiset()
                    && final(model).sorted_between(self.id as int, 0, final(model).elements@[self.id as int].content@.len() as int)
                    && (old(model).sorted_between(self.id as int, 0, old(model).elements@[self.id as int].content@.len() as int)
                        ==> final(model).elements@[self.id as int].content@ == old(model).elements@[self.id as int].content@)
            }),
    {
        if self.id >= model.elements.len() || !model.elements[self.id].alive || model.has_text(self.id) {
            return;
        }
        proof {
            assert(model.elem_wf(self.id as int));
        }
        model.sort_content(self.id);
    }

    /// This element and its live descendants, depth first, each parent before its children.
    pub fn elements_dfs(&self, model: &AutosarModel) -> (r: Vec<Element>)
        requires
            model.wf(),
        ensures
            !model.is_live(self.id as int) ==> r@.len() == 0,
            model.is_live(self.id as int) ==> r@.len() > 0 && r@[0] == *self,
            forall|k: int| 0 <= k < r@.len() ==> model.is_live((#[trigger] r@[k]).id as int)
                && model.in_subtree(r@[k].id as int, self.id as int),
    {
        let mut out: Vec<Element> = Vec::new();
        if self.id >= model.elements.len() || !model.elements[self.id].alive {
            return out;
        }
        proof {
            assert(model.in_subtree(self.id as int, self.id as int));
        }
        model.collect_dfs(self.id, Ghost(self.id as int), model.elements.len(), &mut out);
        out
    }

    /// The content mode that the schema gives this element's type.
    pub fn content_type(&self, model: &AutosarModel) -> (r: ContentType)
        requires
            model.wf(),
            self.id < model.elements@.len(),
        ensures
            r == model.schema.types@[model.elements@[self.id as int].element_type as int].content_type,
    {
        proof {
            assert(model.elem_wf(self.id as int));
        }
        model.schema.types[model.elements[self.id].element_type].content_type
    }

    /// Makes this element part of exactly the files in `files`; an empty list takes it out
    /// of every file while it stays in the tree.
    pub fn set_file_membership(&self, model: &mut AutosarModel, files: &Vec<ArxmlFile>) -> (r: Result<(), AutosarDataError>)
        requires
            old(model).wf(),
        ensures
            final(model).wf(),
            !old(model).is_live(self.id as int) ==> r == Err::<(), AutosarDataError>(AutosarDataError::DetachedElement),
            old(model).is_live(self.id as int) ==> ((r is Ok) == forall|k: int| 0 <= k < files@.len() ==> (#[trigger] files@[k]).id < old(model).files@.len()),
            r is Err ==> *final(model) == *old(model),
            r is Err && old(model).is_live(self.id as int) ==> r == Err::<(), AutosarDataError>(AutosarDataError::InvalidFile),
            r is Ok ==> final(model).elements@[self.id as int].files@.to_set() == files@.map_values(|f: ArxmlFile| f.id).to_set()
                && final(model).links() == old(model).links()
                && final(model).elements@[self.id as int].content == old(model).elements@[self.id as int].content
                && forall|i: int| 0 <= i < final(model).elements@.len() && i != self.id ==> final(model).elements@[i] == old(model).elements@[i],
    {
        let s = self.id;
        if s >= model.elements.len() || !model.elements[s].alive {
            return Err(AutosarDataError::DetachedElement);
        }
        let n = files.len();
        let mut ids: Vec<usize> = Vec::new();
        let mut k: usize = 0;
        while k < n
            invariant
                *model == *old(model),
                model.wf(),
                model.is_live(s as int),
                s == self.id,
                n == files@.len(),
                k <= n,
                ids@.len() == k,
                forall|j: int| 0 <= j < k ==> ids@[j] == (#[trigger] files@[j]).id,
                forall|j: int| 0 <= j < k ==> (#[trigger] files@[j]).id < model.files@.len(),
                forall|j: int| 0 <= j < k ==> #[trigger] ids@[j] < model.files@.len(),
            decreases n - k,
        {
            if files[k].id >= model.files.len() {
                proof {
                    assert(!((files@[k as int]).id < old(model).files@.len()));
                }
                return Err(AutosarDataError::InvalidFile);
            }
            ids.push(files[k].id);
            k += 1;
        }
        proof {
            assert(ids@ =~= files@.map_values(|f: ArxmlFile| f.id));
        }
        model.replace_files(s, ids);
        Ok(())
    }

    /// Sets attribute `attrname` from `text`, read as the kind that the schema's first
    /// declaration of the attribute gives: text as it is, a decimal `i64`, or the index of
    /// an enumeration token.
    pub fn set_attribute_string(&self, model: &mut AutosarModel, attrname: u32, text: &str) -> (r: Result<(), AutosarDataError>)
        requires
            old(model).wf(),
        ensures
            final(model).wf(),
            r is Err ==> *final(model) == *old(model),
            !old(model).is_live(self.id as int) ==> r == Err::<(), AutosarDataError>(AutosarDataError::DetachedElement),
            old(model).is_live(self.id as int) ==> ({
                let specs = old(model).schema.types@[old(model).elements@[self.id as int].element_type as int].attributes@;
                &&& (forall|k: int| 0 <= k < specs.len() ==> specs[k].name != attrname)
                    ==> r == Err::<(), AutosarDataError>(AutosarDataError::InvalidStructure)
                &&& forall|k: int| first_attr_spec(specs, attrname, k) ==> match read_error(specs[k], text@) {
                    Some(e) => r == Err::<(), AutosarDataError>(e),
                    None => r is Ok,
                }
                &&& r is Ok ==> exists|k: int, v: CharacterData| first_attr_spec(specs, attrname, k) && #[trigger] reads_as(specs[k], text@, v) && {
                    let a0 = old(model).elements@[self.id as int].attributes@;
                    let a1 = final(model).elements@[self.id as int].attributes@;
                    let at = Attribute { name: attrname, value: v };
                    &&& (exists|q: int| first_attribute(a0, attrname, q) && a1 == a0.update(q, at))
                        || (lacks_attribute(a0, attrname) && a1 == a0.push(at))
                }
                &&& r is Ok ==> final(model).links() == old(model).links()
                    && forall|i: int| 0 <= i < final(model).elements@.len() && i != self.id ==> final(model).elements@[i] == old(model).elements@[i]
            }),
    {
        let s = self.id;
        if s >= model.elements.len() || !model.elements[s].alive {
            return Err(AutosarDataError::DetachedElement);
        }
        proof {
            assert(model.elem_wf(s as int));
        }
        let t = model.elements[s].element_type;
        let k = match find_attr_spec(&model.schema.types[t].attributes, attrname) {
            None => {
                return Err(AutosarDataError::InvalidStructure);
            },
            Some(k) => k,
        };
        let ghost specs = model.schema.types@[t as int].attributes@;
        proof {
            assert forall|w: int| first_attr_spec(specs, attrname, w) implies w == k by {
                if w < k {
                } else if w > k {
                    assert(specs[k as int].name == attrname);
                }
            }
        }
        let value = match read_value(&model.schema.types[t].attributes[k], text) {
            Ok(v) => v,
            Err(e) => {
                return Err(e);
            },
        };
        let ghost v = value;
        proof {
            assert(model.attribute_fits(t as int, attrname, value.kind()));
        }
        let r = self.set_attribute(model, attrname, value);
        proof {
            assert(r is Ok);
            assert(reads_as(specs[k as int], text@, v));
        }
        r
    }
}

} // verus!
