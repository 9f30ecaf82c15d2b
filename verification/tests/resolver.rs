use structdiff::ast::{DeclaredType, FieldSpec};
use structdiff::resolver::{resolve, resolve_batch};

fn field(name: &str, ty: &str, order: usize) -> FieldSpec {
    FieldSpec {
        name: name.as_bytes().to_vec(),
        ty: ty.as_bytes().to_vec(),
        source_order: order,
    }
}

fn decl(
    name: &str,
    is_base: bool,
    optional_inherited: bool,
    added: Vec<FieldSpec>,
    removed: Vec<&str>,
) -> DeclaredType {
    DeclaredType {
        name: name.as_bytes().to_vec(),
        metadata: Vec::new(),
        generics: Vec::new(),
        is_base,
        optional_inherited,
        added,
        removed: removed.into_iter().map(|r| r.as_bytes().to_vec()).collect(),
    }
}

fn base_two_fields() -> DeclaredType {
    decl(
        "Base",
        true,
        false,
        vec![field("id", "Int", 0), field("name", "Text", 1)],
        vec![],
    )
}

#[test]
fn resolve_base_returns_added_fields_unchanged() {
    let base = base_two_fields();
    let r = resolve(&base, &base);
    assert_eq!(r.name, base.name);
    assert_eq!(r.fields, base.added);
}

#[test]
fn resolve_base_ignores_its_removed_set() {
    let base = decl("Base", true, false, vec![field("id", "Int", 0)], vec!["id"]);
    let r = resolve(&base, &base);
    assert_eq!(r.fields, base.added);
}

#[test]
fn removed_name_never_appears() {
    let base = base_two_fields();
    let v = decl(
        "V",
        false,
        false,
        vec![field("name", "Blob", 0), field("extra", "Int", 1)],
        vec!["name"],
    );
    let r = resolve(&base, &v);
    assert!(r.fields.iter().all(|f| f.name != b"name".to_vec()));
    let names: Vec<Vec<u8>> = r.fields.iter().map(|f| f.name.clone()).collect();
    assert_eq!(names, vec![b"extra".to_vec(), b"id".to_vec()]);
}

#[test]
fn own_field_beats_inherited_one() {
    let base = base_two_fields();
    let v = decl("V", false, false, vec![field("name", "Blob", 0)], vec![]);
    let r = resolve(&base, &v);
    let hits: Vec<&FieldSpec> = r.fields.iter().filter(|f| f.name == b"name".to_vec()).collect();
    assert_eq!(hits.len(), 1);
    assert_eq!(hits[0].ty, b"Blob".to_vec());
    assert_eq!(r.fields[0].name, b"name".to_vec());
}

#[test]
fn wrapping_touches_inherited_fields_only() {
    let base = base_two_fields();
    let own = vec![field("nick", "Text", 0)];
    let with_marker = decl("V", false, true, own.clone(), vec![]);
    let without_marker = decl("V", false, false, own, vec![]);
    let wrapped = resolve(&base, &with_marker);
    let plain = resolve(&base, &without_marker);
    assert_eq!(wrapped.fields.len(), plain.fields.len());
    // own prefix untouched
    assert_eq!(wrapped.fields[0], plain.fields[0]);
    // inherited tail is the plain tail, each type wrapped
    for (w, p) in wrapped.fields[1..].iter().zip(plain.fields[1..].iter()) {
        assert_eq!(w.name, p.name);
        let mut expect = b"Option<".to_vec();
        expect.extend_from_slice(&p.ty);
        expect.push(b'>');
        assert_eq!(w.ty, expect);
    }
}

#[test]
fn resolve_batch_keeps_declaration_order() {
    let base = base_two_fields();
    let v1 = decl("V1", false, false, vec![field("email", "Text", 0)], vec![]);
    let v2 = decl("V2", false, false, vec![], vec!["name"]);
    let batch = vec![base, v1, v2];
    let rs = resolve_batch(&batch);
    assert_eq!(rs.len(), 3);
    assert_eq!(rs[0].name, b"Base".to_vec());
    assert_eq!(rs[1].name, b"V1".to_vec());
    assert_eq!(rs[2].name, b"V2".to_vec());
    assert_eq!(rs[1].fields.len(), 3);
    assert_eq!(rs[2].fields.len(), 1);
    assert_eq!(rs[2].fields[0].name, b"id".to_vec());
}
