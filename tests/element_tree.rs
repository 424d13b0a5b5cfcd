use arxml_model::{
    AttributeSpec, AutosarDataError, AutosarModel, CharacterData, CharacterDataKind, ContentType,
    Element, ElementContent, ElementType, Schema, SubElementSpec, TypeSpec,
};

const ROOT: usize = 0;
const PACKAGE: usize = 1;
const REF: usize = 2;
const VALUE: usize = 3;
const OTHER: usize = 4;
const MIXED: usize = 5;
const UUID: u32 = 1;
const SIZE: u32 = 2;
const COLOR: u32 = 3;

fn type_spec(identifiable: bool, content_type: ContentType, kind: CharacterDataKind, subs: Vec<(usize, usize)>) -> TypeSpec {
    TypeSpec {
        identifiable,
        content_type,
        character_data: kind,
        reference_dest: None,
        sub_elements: subs
            .into_iter()
            .map(|(element_type, max_occurs)| SubElementSpec { element_type, max_occurs })
            .collect(),
        attributes: Vec::new(),
    }
}

fn schema() -> Schema {
    let root = type_spec(false, ContentType::Elements, CharacterDataKind::Text, vec![(PACKAGE, 10)]);
    let mut package = type_spec(
        true,
        ContentType::Elements,
        CharacterDataKind::Text,
        vec![(PACKAGE, 10), (REF, 1), (VALUE, 2), (OTHER, 3), (MIXED, 1)],
    );
    package.attributes = vec![
        AttributeSpec { name: UUID, kind: CharacterDataKind::Text, tokens: vec![] },
        AttributeSpec { name: SIZE, kind: CharacterDataKind::Integer, tokens: vec![] },
        AttributeSpec { name: COLOR, kind: CharacterDataKind::Enum, tokens: vec!["red".to_string(), "green".to_string()] },
    ];
    let mixed = type_spec(false, ContentType::Mixed, CharacterDataKind::Text, vec![(VALUE, 3)]);
    let mut reference = type_spec(false, ContentType::CharacterData, CharacterDataKind::Text, vec![]);
    reference.reference_dest = Some(vec![PACKAGE]);
    let value = type_spec(false, ContentType::CharacterData, CharacterDataKind::Integer, vec![]);
    let other = type_spec(true, ContentType::Elements, CharacterDataKind::Text, vec![]);
    Schema { types: vec![root, package, reference, value, other, mixed] }
}

fn model() -> AutosarModel {
    AutosarModel::new(schema(), ElementType { id: ROOT }).unwrap()
}

fn ty(id: usize) -> ElementType {
    ElementType { id }
}

#[test]
fn package_paths_duplicates_and_removal() {
    let mut m = model();
    let root = m.root_element();
    let a = root.create_named_sub_element(&mut m, ty(PACKAGE), "Pkg1").unwrap();
    let b = a.create_named_sub_element(&mut m, ty(PACKAGE), "Pkg2").unwrap();
    assert_eq!(b.path(&m).unwrap(), "/Pkg1/Pkg2");
    assert_eq!(a.path(&m).unwrap(), "/Pkg1");
    assert_eq!(
        a.create_named_sub_element(&mut m, ty(PACKAGE), "Pkg2"),
        Err(AutosarDataError::DuplicateItemName)
    );
    root.remove_sub_element(&mut m, a).unwrap();
    assert_eq!(m.get_element_by_path("/Pkg1"), None);
    assert_eq!(m.get_element_by_path("/Pkg1/Pkg2"), None);
    assert_eq!(b.path(&m), Err(AutosarDataError::DetachedElement));
}

#[test]
fn reference_becomes_dangling_after_removal() {
    let mut m = model();
    let root = m.root_element();
    let a = root.create_named_sub_element(&mut m, ty(PACKAGE), "Pkg1").unwrap();
    let b = a.create_named_sub_element(&mut m, ty(PACKAGE), "Pkg2").unwrap();
    let r = a.create_sub_element(&mut m, ty(REF)).unwrap();
    assert!(r.is_reference(&m));
    r.set_reference_target(&mut m, b).unwrap();
    assert_eq!(r.get_reference_target(&m), Ok(b));
    a.remove_sub_element(&mut m, b).unwrap();
    assert_eq!(r.get_reference_target(&m), Err(AutosarDataError::InvalidReference));
}

#[test]
fn reference_round_trip_and_refused_target() {
    let mut m = model();
    let root = m.root_element();
    let a = root.create_named_sub_element(&mut m, ty(PACKAGE), "Pkg1").unwrap();
    let b = a.create_named_sub_element(&mut m, ty(PACKAGE), "Pkg2").unwrap();
    let o = a.create_named_sub_element(&mut m, ty(OTHER), "Thing").unwrap();
    let r = a.create_sub_element(&mut m, ty(REF)).unwrap();
    assert_eq!(r.get_reference_target(&m), Err(AutosarDataError::InvalidReference));
    r.set_reference_target(&mut m, b).unwrap();
    assert_eq!(r.get_reference_target(&m), Ok(b));
    match r.character_data(&m) {
        Some(CharacterData::Text(s)) => assert_eq!(s, "/Pkg1/Pkg2"),
        other => panic!("unexpected {:?}", other),
    }
    assert_eq!(r.set_reference_target(&mut m, o), Err(AutosarDataError::InvalidReference));
    assert_eq!(r.get_reference_target(&m), Ok(b));
    assert_eq!(a.set_reference_target(&mut m, b), Err(AutosarDataError::InvalidReference));
    let v = a.create_sub_element(&mut m, ty(VALUE)).unwrap();
    assert_eq!(r.set_reference_target(&mut m, v), Err(AutosarDataError::InvalidReference));
    assert_eq!(r.get_reference_target(&m), Ok(b));
}

#[test]
fn lookup_by_path_finds_each_named_element() {
    let mut m = model();
    let root = m.root_element();
    let a = root.create_named_sub_element(&mut m, ty(PACKAGE), "A").unwrap();
    let b = a.create_named_sub_element(&mut m, ty(PACKAGE), "B").unwrap();
    let c = root.create_named_sub_element(&mut m, ty(PACKAGE), "B").unwrap();
    for e in [a, b, c] {
        let p = e.path(&m).unwrap();
        assert_eq!(m.get_element_by_path(&p), Some(e));
    }
    assert_eq!(c.path(&m).unwrap(), "/B");
    assert_eq!(m.get_element_by_path("/A/C"), None);
}

#[test]
fn same_name_allowed_under_different_parents() {
    let mut m = model();
    let root = m.root_element();
    let a = root.create_named_sub_element(&mut m, ty(PACKAGE), "A").unwrap();
    let b = root.create_named_sub_element(&mut m, ty(PACKAGE), "B").unwrap();
    let x1 = a.create_named_sub_element(&mut m, ty(PACKAGE), "X").unwrap();
    let x2 = b.create_named_sub_element(&mut m, ty(PACKAGE), "X").unwrap();
    assert_ne!(x1, x2);
    assert_eq!(x2.path(&m).unwrap(), "/B/X");
    assert_eq!(
        root.create_named_sub_element(&mut m, ty(PACKAGE), "A"),
        Err(AutosarDataError::DuplicateItemName)
    );
}

#[test]
fn cardinality_is_reported_and_enforced() {
    let mut m = model();
    let root = m.root_element();
    let a = root.create_named_sub_element(&mut m, ty(PACKAGE), "A").unwrap();
    let allowed = |m: &AutosarModel| {
        a.list_valid_sub_elements(m)
            .into_iter()
            .find(|(t, _, _)| t.id == VALUE)
            .map(|(_, allowed, ident)| (allowed, ident))
            .unwrap()
    };
    assert_eq!(allowed(&m), (true, false));
    a.create_sub_element(&mut m, ty(VALUE)).unwrap();
    assert_eq!(allowed(&m), (true, false));
    a.create_sub_element(&mut m, ty(VALUE)).unwrap();
    assert_eq!(allowed(&m), (false, false));
    assert_eq!(a.create_sub_element(&mut m, ty(VALUE)), Err(AutosarDataError::InvalidStructure));
    let list = a.list_valid_sub_elements(&m);
    assert_eq!(list.len(), 5);
    assert_eq!(list[0], (ty(PACKAGE), true, true));
}

#[test]
fn creation_errors() {
    let mut m = model();
    let root = m.root_element();
    assert_eq!(root.create_sub_element(&mut m, ty(PACKAGE)), Err(AutosarDataError::ItemNameRequired));
    assert_eq!(root.create_sub_element(&mut m, ty(VALUE)), Err(AutosarDataError::InvalidStructure));
    assert_eq!(root.create_sub_element(&mut m, ty(99)), Err(AutosarDataError::InvalidStructure));
    assert_eq!(
        root.create_named_sub_element_at(&mut m, ty(PACKAGE), "P", 1),
        Err(AutosarDataError::InvalidPosition)
    );
    let a = root.create_named_sub_element(&mut m, ty(PACKAGE), "A").unwrap();
    assert_eq!(
        a.create_named_sub_element(&mut m, ty(VALUE), "V"),
        Err(AutosarDataError::NotIdentifiable)
    );
    let gone = Element { id: 77 };
    assert_eq!(gone.create_sub_element(&mut m, ty(PACKAGE)), Err(AutosarDataError::DetachedElement));
    assert_eq!(root.remove_sub_element(&mut m, gone), Err(AutosarDataError::DetachedElement));
}

#[test]
fn create_at_position_orders_content() {
    let mut m = model();
    let root = m.root_element();
    let a = root.create_named_sub_element(&mut m, ty(PACKAGE), "A").unwrap();
    let c = root.create_named_sub_element(&mut m, ty(PACKAGE), "C").unwrap();
    let b = root.create_named_sub_element_at(&mut m, ty(PACKAGE), "B", 1).unwrap();
    assert_eq!(root.sub_elements(&m), vec![a, b, c]);
    assert_eq!(b.parent(&m), Ok(Some(root)));
    assert_eq!(root.parent(&m), Ok(None));
    assert_eq!(b.item_name(&m), Some("B".to_string()));
    assert_eq!(root.item_name(&m), None);
    assert!(b.is_identifiable(&m));
    assert!(!root.is_identifiable(&m));
    assert_eq!(b.element_type(&m), ty(PACKAGE));
    assert_eq!(root.path(&m), Err(AutosarDataError::NotIdentifiable));
}

#[test]
fn character_data_is_typed() {
    let mut m = model();
    let root = m.root_element();
    let a = root.create_named_sub_element(&mut m, ty(PACKAGE), "A").unwrap();
    let v = a.create_sub_element(&mut m, ty(VALUE)).unwrap();
    assert!(v.character_data(&m).is_none());
    v.set_character_data(&mut m, CharacterData::Integer(-5)).unwrap();
    assert!(matches!(v.character_data(&m), Some(CharacterData::Integer(-5))));
    assert_eq!(
        v.set_character_data(&mut m, CharacterData::Text("x".to_string())),
        Err(AutosarDataError::TypeMismatch)
    );
    assert!(matches!(v.character_data(&m), Some(CharacterData::Integer(-5))));
    assert_eq!(
        a.set_character_data(&mut m, CharacterData::Integer(1)),
        Err(AutosarDataError::TypeMismatch)
    );
    v.remove_character_data(&mut m).unwrap();
    assert!(v.character_data(&m).is_none());
    assert_eq!(a.remove_character_data(&mut m), Err(AutosarDataError::TypeMismatch));
}

#[test]
fn file_membership_is_inherited_and_adjusted() {
    let mut m = model();
    let f1 = m.create_file("one.arxml");
    let f2 = m.create_file("two.arxml");
    let root = m.root_element();
    assert_eq!(root.file_membership(&m).unwrap(), vec![f1, f2]);
    let a = root.create_named_sub_element(&mut m, ty(PACKAGE), "A").unwrap();
    assert_eq!(a.file_membership(&m).unwrap(), vec![f1, f2]);
    a.remove_from_file(&mut m, &f1).unwrap();
    assert_eq!(a.file_membership(&m).unwrap(), vec![f2]);
    a.add_to_file(&mut m, &f1).unwrap();
    a.add_to_file(&mut m, &f1).unwrap();
    assert_eq!(a.file_membership(&m).unwrap(), vec![f2, f1]);
    let bogus = arxml_model::ArxmlFile { id: 9 };
    assert_eq!(a.add_to_file(&mut m, &bogus), Err(AutosarDataError::InvalidFile));
    let b = a.create_named_sub_element(&mut m, ty(PACKAGE), "B").unwrap();
    assert_eq!(b.file_membership(&m).unwrap(), vec![f2, f1]);
    root.remove_sub_element(&mut m, a).unwrap();
    assert_eq!(b.file_membership(&m), Err(AutosarDataError::DetachedElement));
    assert_eq!(m.elements[b.id].files.len(), 0);
}

#[test]
fn invalid_schema_or_root_is_refused() {
    assert!(AutosarModel::new(schema(), ty(PACKAGE)).is_err());
    assert!(AutosarModel::new(schema(), ty(42)).is_err());
    let mut bad = schema();
    bad.types[0].sub_elements.push(SubElementSpec { element_type: 50, max_occurs: 1 });
    assert!(!bad.is_valid());
    assert_eq!(AutosarModel::new(bad, ty(ROOT)).err(), Some(AutosarDataError::InvalidStructure));
}

#[test]
fn move_keeps_file_membership_and_updates_paths() {
    let mut m = model();
    let f1 = m.create_file("one.arxml");
    let root = m.root_element();
    let a = root.create_named_sub_element(&mut m, ty(PACKAGE), "A").unwrap();
    let b = root.create_named_sub_element(&mut m, ty(PACKAGE), "B").unwrap();
    let x = a.create_named_sub_element(&mut m, ty(PACKAGE), "X").unwrap();
    let y = x.create_named_sub_element(&mut m, ty(PACKAGE), "Y").unwrap();
    let f2 = m.create_file("two.arxml");
    b.add_to_file(&mut m, &f2).unwrap();
    x.remove_from_file(&mut m, &f1).unwrap();
    let before = x.file_membership(&m).unwrap();
    assert_eq!(b.move_element_here(&mut m, &x), Ok(x));
    assert_eq!(x.file_membership(&m).unwrap(), before);
    assert_eq!(x.path(&m).unwrap(), "/B/X");
    assert_eq!(y.path(&m).unwrap(), "/B/X/Y");
    assert_eq!(x.parent(&m), Ok(Some(b)));
    assert_eq!(a.sub_elements(&m), vec![]);
    assert_eq!(b.sub_elements(&m), vec![x]);
    assert_eq!(m.get_element_by_path("/A/X"), None);
    assert_eq!(m.get_element_by_path("/B/X/Y"), Some(y));
}

#[test]
fn move_errors() {
    let mut m = model();
    let root = m.root_element();
    let a = root.create_named_sub_element(&mut m, ty(PACKAGE), "A").unwrap();
    let b = a.create_named_sub_element(&mut m, ty(PACKAGE), "B").unwrap();
    let c = root.create_named_sub_element(&mut m, ty(PACKAGE), "C").unwrap();
    let b2 = c.create_named_sub_element(&mut m, ty(PACKAGE), "B").unwrap();
    assert_eq!(b.move_element_here(&mut m, &a), Err(AutosarDataError::CycleDetected));
    assert_eq!(a.move_element_here(&mut m, &a), Err(AutosarDataError::CycleDetected));
    assert_eq!(a.move_element_here(&mut m, &b2), Err(AutosarDataError::DuplicateItemName));
    assert_eq!(b2.path(&m).unwrap(), "/C/B");
    assert_eq!(a.move_element_here(&mut m, &root), Err(AutosarDataError::DetachedElement));
    let v = a.create_sub_element(&mut m, ty(VALUE)).unwrap();
    assert_eq!(root.move_element_here(&mut m, &v), Err(AutosarDataError::InvalidStructure));
    assert_eq!(root.move_element_here_at(&mut m, &b, 5), Err(AutosarDataError::InvalidPosition));
    assert_eq!(root.move_element_here_at(&mut m, &b, 0), Ok(b));
    assert_eq!(root.sub_elements(&m), vec![b, a, c]);
    assert_eq!(root.move_element_here_at(&mut m, &c, 1), Ok(c));
    assert_eq!(root.sub_elements(&m), vec![b, c, a]);
}

#[test]
fn rename_checks_uniqueness_and_keeps_references() {
    let mut m = model();
    let root = m.root_element();
    let a = root.create_named_sub_element(&mut m, ty(PACKAGE), "A").unwrap();
    let b = a.create_named_sub_element(&mut m, ty(PACKAGE), "B").unwrap();
    let c = a.create_named_sub_element(&mut m, ty(PACKAGE), "C").unwrap();
    let r = a.create_sub_element(&mut m, ty(REF)).unwrap();
    r.set_reference_target(&mut m, b).unwrap();
    assert_eq!(c.set_item_name(&mut m, "B"), Err(AutosarDataError::DuplicateItemName));
    assert_eq!(c.item_name(&m), Some("C".to_string()));
    assert_eq!(r.set_item_name(&mut m, "R"), Err(AutosarDataError::NotIdentifiable));
    b.set_item_name(&mut m, "B2").unwrap();
    assert_eq!(b.path(&m).unwrap(), "/A/B2");
    assert_eq!(r.get_reference_target(&m), Err(AutosarDataError::InvalidReference));
    a.set_item_name(&mut m, "Top").unwrap();
    assert_eq!(c.path(&m).unwrap(), "/Top/C");
    assert_eq!(m.get_element_by_path("/Top/B2"), Some(b));
}

#[test]
fn copy_duplicates_subtree_with_new_membership() {
    let mut m = model();
    let f1 = m.create_file("one.arxml");
    let root = m.root_element();
    let a = root.create_named_sub_element(&mut m, ty(PACKAGE), "A").unwrap();
    let x = a.create_named_sub_element(&mut m, ty(PACKAGE), "X").unwrap();
    let v = x.create_sub_element(&mut m, ty(VALUE)).unwrap();
    v.set_character_data(&mut m, CharacterData::Integer(7)).unwrap();
    x.set_attribute(&mut m, UUID, CharacterData::Text("u-1".to_string())).unwrap();
    let b = root.create_named_sub_element(&mut m, ty(PACKAGE), "B").unwrap();
    b.remove_from_file(&mut m, &f1).unwrap();
    let copy = b.create_copied_sub_element(&mut m, &x).unwrap();
    assert_ne!(copy, x);
    assert_eq!(copy.path(&m).unwrap(), "/B/X");
    assert_eq!(copy.file_membership(&m).unwrap(), vec![]);
    assert_eq!(x.file_membership(&m).unwrap(), vec![f1]);
    let kids = copy.sub_elements(&m);
    assert_eq!(kids.len(), 1);
    assert_ne!(kids[0], v);
    assert!(matches!(kids[0].character_data(&m), Some(CharacterData::Integer(7))));
    assert!(matches!(copy.attribute_value(&m, UUID), Some(CharacterData::Text(ref s)) if s == "u-1"));
    assert_eq!(a.create_copied_sub_element(&mut m, &x), Err(AutosarDataError::DuplicateItemName));
    assert_eq!(a.create_copied_sub_element_at(&mut m, &v, 0), Err(AutosarDataError::InvalidPosition));
    let y = a.create_copied_sub_element_at(&mut m, &v, 1).unwrap();
    assert_eq!(a.sub_elements(&m), vec![x, y]);
    root.remove_sub_element(&mut m, a).unwrap();
    assert_eq!(b.create_copied_sub_element(&mut m, &x), Err(AutosarDataError::DetachedElement));
}

#[test]
fn attributes_follow_the_schema() {
    let mut m = model();
    let root = m.root_element();
    let a = root.create_named_sub_element(&mut m, ty(PACKAGE), "A").unwrap();
    assert!(a.attributes(&m).is_empty());
    a.set_attribute(&mut m, SIZE, CharacterData::Integer(3)).unwrap();
    a.set_attribute(&mut m, UUID, CharacterData::Text("id".to_string())).unwrap();
    a.set_attribute(&mut m, SIZE, CharacterData::Integer(4)).unwrap();
    let attrs = a.attributes(&m);
    assert_eq!(attrs.len(), 2);
    assert_eq!(attrs[0].name, SIZE);
    assert!(matches!(a.attribute_value(&m, SIZE), Some(CharacterData::Integer(4))));
    assert_eq!(
        a.set_attribute(&mut m, SIZE, CharacterData::Text("4".to_string())),
        Err(AutosarDataError::TypeMismatch)
    );
    assert_eq!(a.set_attribute(&mut m, 99, CharacterData::Integer(1)), Err(AutosarDataError::InvalidStructure));
    assert!(a.remove_attribute(&mut m, SIZE));
    assert!(!a.remove_attribute(&mut m, SIZE));
    assert!(a.attribute_value(&m, SIZE).is_none());
    assert_eq!(a.attributes(&m).len(), 1);
}

#[test]
fn mixed_content_text_runs() {
    let mut m = model();
    let root = m.root_element();
    let a = root.create_named_sub_element(&mut m, ty(PACKAGE), "A").unwrap();
    let mx = a.create_sub_element(&mut m, ty(MIXED)).unwrap();
    mx.insert_character_content_item(&mut m, "hello ", 0).unwrap();
    let v = mx.create_sub_element(&mut m, ty(VALUE)).unwrap();
    mx.insert_character_content_item(&mut m, " world", 2).unwrap();
    let c = mx.content(&m);
    assert_eq!(c.len(), 3);
    assert!(matches!(&c[0], ElementContent::CharacterData(CharacterData::Text(s)) if s == "hello "));
    assert!(matches!(&c[1], ElementContent::Element(e) if *e == v));
    assert_eq!(mx.insert_character_content_item(&mut m, "x", 9), Err(AutosarDataError::InvalidPosition));
    assert_eq!(mx.remove_character_content_item(&mut m, 1), Err(AutosarDataError::InvalidPosition));
    mx.remove_character_content_item(&mut m, 0).unwrap();
    assert_eq!(mx.content(&m).len(), 2);
    assert_eq!(a.insert_character_content_item(&mut m, "x", 0), Err(AutosarDataError::InvalidStructure));
    assert_eq!(mx.model(&m).is_ok(), true);
}

#[test]
fn sort_orders_by_schema_and_skips_text() {
    let mut m = model();
    let root = m.root_element();
    let a = root.create_named_sub_element(&mut m, ty(PACKAGE), "A").unwrap();
    let o = a.create_named_sub_element(&mut m, ty(OTHER), "o").unwrap();
    let v1 = a.create_sub_element(&mut m, ty(VALUE)).unwrap();
    let p = a.create_named_sub_element(&mut m, ty(PACKAGE), "p").unwrap();
    let v2 = a.create_sub_element(&mut m, ty(VALUE)).unwrap();
    a.sort(&mut m);
    assert_eq!(a.sub_elements(&m), vec![p, v1, v2, o]);
    let mx = a.create_sub_element(&mut m, ty(MIXED)).unwrap();
    mx.insert_character_content_item(&mut m, "t", 0).unwrap();
    let w = mx.create_sub_element(&mut m, ty(VALUE)).unwrap();
    mx.sort(&mut m);
    assert_eq!(mx.content(&m).len(), 2);
    assert_eq!(mx.sub_elements(&m), vec![w]);
}

#[test]
fn depth_first_walk_lists_parents_before_children() {
    let mut m = model();
    let root = m.root_element();
    let a = root.create_named_sub_element(&mut m, ty(PACKAGE), "A").unwrap();
    let b = a.create_named_sub_element(&mut m, ty(PACKAGE), "B").unwrap();
    let c = b.create_named_sub_element(&mut m, ty(PACKAGE), "C").unwrap();
    let d = a.create_named_sub_element(&mut m, ty(PACKAGE), "D").unwrap();
    let e = root.create_named_sub_element(&mut m, ty(PACKAGE), "E").unwrap();
    assert_eq!(root.elements_dfs(&m), vec![root, a, b, c, d, e]);
    assert_eq!(a.elements_dfs(&m), vec![a, b, c, d]);
    a.remove_sub_element(&mut m, b).unwrap();
    assert_eq!(root.elements_dfs(&m), vec![root, a, d, e]);
    assert_eq!(c.elements_dfs(&m), vec![]);
}

#[test]
fn set_file_membership_replaces_the_set() {
    let mut m = model();
    let f1 = m.create_file("one.arxml");
    let f2 = m.create_file("two.arxml");
    let root = m.root_element();
    let a = root.create_named_sub_element(&mut m, ty(PACKAGE), "A").unwrap();
    a.set_file_membership(&mut m, &vec![f2]).unwrap();
    assert_eq!(a.file_membership(&m).unwrap(), vec![f2]);
    a.set_file_membership(&mut m, &vec![]).unwrap();
    assert_eq!(a.file_membership(&m).unwrap(), vec![]);
    assert_eq!(a.path(&m).unwrap(), "/A");
    let bogus = arxml_model::ArxmlFile { id: 5 };
    assert_eq!(a.set_file_membership(&mut m, &vec![f1, bogus]), Err(AutosarDataError::InvalidFile));
    assert_eq!(a.file_membership(&m).unwrap(), vec![]);
    let gone = Element { id: 99 };
    assert_eq!(gone.set_file_membership(&mut m, &vec![f1]), Err(AutosarDataError::DetachedElement));
}

#[test]
fn set_attribute_string_reads_declared_kind() {
    let mut m = model();
    let root = m.root_element();
    let a = root.create_named_sub_element(&mut m, ty(PACKAGE), "A").unwrap();
    a.set_attribute_string(&mut m, SIZE, "-42").unwrap();
    assert!(matches!(a.attribute_value(&m, SIZE), Some(CharacterData::Integer(-42))));
    a.set_attribute_string(&mut m, SIZE, "9223372036854775807").unwrap();
    assert!(matches!(a.attribute_value(&m, SIZE), Some(CharacterData::Integer(i64::MAX))));
    a.set_attribute_string(&mut m, SIZE, "-9223372036854775808").unwrap();
    assert!(matches!(a.attribute_value(&m, SIZE), Some(CharacterData::Integer(i64::MIN))));
    assert_eq!(a.set_attribute_string(&mut m, SIZE, "9223372036854775808"), Err(AutosarDataError::ParseError));
    assert_eq!(a.set_attribute_string(&mut m, SIZE, "12a"), Err(AutosarDataError::ParseError));
    assert_eq!(a.set_attribute_string(&mut m, SIZE, "-"), Err(AutosarDataError::ParseError));
    assert_eq!(a.set_attribute_string(&mut m, SIZE, ""), Err(AutosarDataError::ParseError));
    assert!(matches!(a.attribute_value(&m, SIZE), Some(CharacterData::Integer(i64::MIN))));
    a.set_attribute_string(&mut m, COLOR, "green").unwrap();
    assert!(matches!(a.attribute_value(&m, COLOR), Some(CharacterData::Enum(1))));
    assert_eq!(a.set_attribute_string(&mut m, COLOR, "blue"), Err(AutosarDataError::ParseError));
    a.set_attribute_string(&mut m, UUID, "x-1").unwrap();
    assert!(matches!(a.attribute_value(&m, UUID), Some(CharacterData::Text(ref s)) if s == "x-1"));
    assert_eq!(a.set_attribute_string(&mut m, 77, "1"), Err(AutosarDataError::InvalidStructure));
}

#[test]
fn failed_copy_changes_nothing() {
    let mut m = model();
    let root = m.root_element();
    let a = root.create_named_sub_element(&mut m, ty(PACKAGE), "A").unwrap();
    let x = a.create_named_sub_element(&mut m, ty(PACKAGE), "X").unwrap();
    let before = a.content(&m).len();
    assert_eq!(a.create_copied_sub_element(&mut m, &x), Err(AutosarDataError::DuplicateItemName));
    assert_eq!(a.content(&m).len(), before);
    assert_eq!(a.create_copied_sub_element_at(&mut m, &x, 9), Err(AutosarDataError::InvalidPosition));
    assert_eq!(a.sub_elements(&m), vec![x]);
    assert_eq!(a.content_type(&m), ContentType::Elements);
    assert_eq!(Element { id: 500 }.list_valid_sub_elements(&m), vec![]);
}

#[test]
fn positions_follow_schema_order() {
    let mut m = model();
    let root = m.root_element();
    let a = root.create_named_sub_element(&mut m, ty(PACKAGE), "A").unwrap();
    let o = a.create_named_sub_element(&mut m, ty(OTHER), "o").unwrap();
    let p = a.create_named_sub_element(&mut m, ty(PACKAGE), "p").unwrap();
    let v = a.create_sub_element(&mut m, ty(VALUE)).unwrap();
    assert_eq!(a.sub_elements(&m), vec![p, v, o]);
    assert_eq!(a.create_sub_element_at(&mut m, ty(VALUE), 0), Err(AutosarDataError::InvalidPosition));
    assert_eq!(a.create_sub_element_at(&mut m, ty(VALUE), 3), Err(AutosarDataError::InvalidPosition));
    let w = a.create_sub_element_at(&mut m, ty(VALUE), 1).unwrap();
    assert_eq!(a.sub_elements(&m), vec![p, w, v, o]);
    let b = root.create_named_sub_element(&mut m, ty(PACKAGE), "B").unwrap();
    let q = b.create_named_sub_element(&mut m, ty(PACKAGE), "q").unwrap();
    assert_eq!(a.move_element_here_at(&mut m, &q, 4), Err(AutosarDataError::InvalidPosition));
    assert_eq!(a.move_element_here(&mut m, &q), Ok(q));
    assert_eq!(a.sub_elements(&m), vec![p, q, w, v, o]);
}

#[test]
fn copy_into_own_subtree_is_refused() {
    let mut m = model();
    let root = m.root_element();
    let a = root.create_named_sub_element(&mut m, ty(PACKAGE), "A").unwrap();
    let b = a.create_named_sub_element(&mut m, ty(PACKAGE), "B").unwrap();
    assert_eq!(b.create_copied_sub_element(&mut m, &a), Err(AutosarDataError::CycleDetected));
    assert_eq!(a.create_copied_sub_element(&mut m, &a), Err(AutosarDataError::CycleDetected));
    assert_eq!(b.sub_elements(&m), vec![]);
    assert_eq!(a.sub_elements(&m), vec![b]);
}
