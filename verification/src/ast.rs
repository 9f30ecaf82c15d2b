//! Data model: parsed declarations and resolved types, with their
//! mathematical models.

use vstd::prelude::*;

verus! {

/// One field of a declared type: a name, an opaque type expression, and the
/// position among the declaration's added fields.
#[derive(Debug, Clone, PartialEq, Eq)]
pub struct FieldSpec {
    pub name: Vec<u8>,
    pub ty: Vec<u8>,
    pub source_order: usize,
}

/// Model of a field.
#[verifier::ext_equal]
pub struct FieldModel {
    pub name: Seq<u8>,
    pub ty: Seq<u8>,
    pub source_order: nat,
}

impl View for FieldSpec {
    type V = FieldModel;

    open spec fn view(&self) -> FieldModel {
        FieldModel { name: self.name@, ty: self.ty@, source_order: self.source_order as nat }
    }
}

/// The models of a field sequence.
pub open spec fn fields_model(fs: Seq<FieldSpec>) -> Seq<FieldModel> {
    fs.map_values(|f: FieldSpec| f@)
}

/// The models of a sequence of names.
pub open spec fn names_model(ns: Seq<Vec<u8>>) -> Seq<Seq<u8>> {
    ns.map_values(|n: Vec<u8>| n@)
}

/// One type declaration of an input batch: added fields, removed inherited
/// field names, and opaque pass-through metadata.
#[derive(Debug, Clone, PartialEq, Eq)]
pub struct DeclaredType {
    pub name: Vec<u8>,
    /// Leading visibility or other metadata, kept opaquely for the emitter.
    pub metadata: Vec<u8>,
    /// A generic parameter list, kept opaquely for the emitter.
    pub generics: Vec<u8>,
    /// True only for the first declaration of a batch.
    pub is_base: bool,
    /// True when the declaration carries the optional-inherited marker.
    pub optional_inherited: bool,
    pub added: Vec<FieldSpec>,
    pub removed: Vec<Vec<u8>>,
}

/// Model of a declaration.
#[verifier::ext_equal]
pub struct DeclModel {
    pub name: Seq<u8>,
    pub metadata: Seq<u8>,
    pub generics: Seq<u8>,
    pub is_base: bool,
    pub optional_inherited: bool,
    pub added: Seq<FieldModel>,
    pub removed: Seq<Seq<u8>>,
}

impl View for DeclaredType {
    type V = DeclModel;

    open spec fn view(&self) -> DeclModel {
        DeclModel {
            name: self.name@,
            metadata: self.metadata@,
            generics: self.generics@,
            is_base: self.is_base,
            optional_inherited: self.optional_inherited,
            added: fields_model(self.added@),
            removed: names_model(self.removed@),
        }
    }
}

/// The models of a declaration sequence.
pub open spec fn decls_model(ds: Seq<DeclaredType>) -> Seq<DeclModel> {
    ds.map_values(|d: DeclaredType| d@)
}

/// A fully resolved type: its fields in final order, ready for emission.
#[derive(Debug, Clone, PartialEq, Eq)]
pub struct ResolvedType {
    pub name: Vec<u8>,
    pub metadata: Vec<u8>,
    pub generics: Vec<u8>,
    pub fields: Vec<FieldSpec>,
}

/// Model of a resolved type.
#[verifier::ext_equal]
pub struct ResolvedModel {
    pub name: Seq<u8>,
    pub metadata: Seq<u8>,
    pub generics: Seq<u8>,
    pub fields: Seq<FieldModel>,
}

impl View for ResolvedType {
    type V = ResolvedModel;

    open spec fn view(&self) -> ResolvedModel {
        ResolvedModel {
            name: self.name@,
            metadata: self.metadata@,
            generics: self.generics@,
            fields: fields_model(self.fields@),
        }
    }
}

/// The models of a resolved-type sequence.
pub open spec fn resolved_models(rs: Seq<ResolvedType>) -> Seq<ResolvedModel> {
    rs.map_values(|r: ResolvedType| r@)
}

/// No two fields of the sequence share a name.
pub open spec fn distinct_names(fs: Seq<FieldModel>) -> bool {
    forall|j: int, k: int| 0 <= j < k < fs.len() ==> fs[j].name != fs[k].name
}

/// The parser guarantees this of every declaration it returns: added field
/// names are unique within the declaration.
pub open spec fn distinct_added(d: DeclModel) -> bool {
    distinct_names(d.added)
}

/// Whether some field of the sequence bears the given name.
pub open spec fn fields_contain_name(fs: Seq<FieldModel>, n: Seq<u8>) -> bool {
    exists|k: int| 0 <= k < fs.len() && fs[k].name == n
}

/// Whether some field of the vector bears the given name.
pub fn contains_field_name(fs: &Vec<FieldSpec>, n: &Vec<u8>) -> (r: bool)
    ensures
        r == fields_contain_name(fields_model(fs@), n@),
{
    let mut i: usize = 0;
    while i < fs.len()
        invariant
            i <= fs@.len(),
            forall|k: int| 0 <= k < i ==> fields_model(fs@)[k].name != n@,
        decreases fs@.len() - i,
    {
        if crate::bytes::bytes_eq(&fs[i].name, n) {
            proof {
                assert(fields_model(fs@)[i as int].name == n@);
            }
            return true;
        }
        proof {
            assert(fields_model(fs@)[i as int].name == fs@[i as int].name@);
        }
        i += 1;
    }
    false
}

} // verus!
