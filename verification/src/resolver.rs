//! Resolver: computes the final field list of every declaration.
//!
//! A variant's resolved fields are its own added fields (minus any name it
//! removes), followed by the base's fields that it neither removes nor
//! shadows, in the base's order. A variant marked optional-inherited has
//! the inherited fields, and only those, wrapped as optional. The base
//! resolves to its own added fields unchanged.

use vstd::prelude::*;

use crate::ast::{contains_field_name, decls_model, distinct_added, distinct_names,
    fields_contain_name, fields_model, DeclModel, DeclaredType, FieldModel, FieldSpec,
    ResolvedModel, ResolvedType, resolved_models};
use crate::bytes::{bytes_eq, copy_bytes, push_all};

verus! {

broadcast use vstd::prelude::Seq::lemma_filter_push, vstd::prelude::Seq::lemma_push_map_commute;

/// The bytes of "Option<".
pub open spec fn opt_open() -> Seq<u8> {
    seq![79u8, 112u8, 116u8, 105u8, 111u8, 110u8, 60u8]
}

/// A type expression wrapped in the optional qualifier.
pub open spec fn opt_wrap(t: Seq<u8>) -> Seq<u8> {
    opt_open() + t + seq![62u8]
}

/// A field with its type wrapped as optional; name and order are kept.
pub open spec fn wrap_field(f: FieldModel) -> FieldModel {
    FieldModel { name: f.name, ty: opt_wrap(f.ty), source_order: f.source_order }
}

/// The variant's own surviving fields: its added fields, in source order,
/// minus any whose name the variant also removes (removal wins over an
/// addition in the same declaration).
pub open spec fn own_kept(v: DeclModel) -> Seq<FieldModel> {
    v.added.filter(|f: FieldModel| !v.removed.contains(f.name))
}

/// The surviving inherited fields: the base's added fields, in the base's
/// order, minus any the variant removes or shadows with an addition of the
/// same name.
pub open spec fn inherited_kept(b: DeclModel, v: DeclModel) -> Seq<FieldModel> {
    b.added.filter(
        |f: FieldModel| !v.removed.contains(f.name) && !fields_contain_name(v.added, f.name),
    )
}

/// The resolved field list of a declaration. The base maps to its own added
/// fields unchanged; a variant to its own surviving fields followed by the
/// surviving inherited ones, wrapped as optional when the variant asks.
pub open spec fn resolved_fields(b: DeclModel, v: DeclModel) -> Seq<FieldModel> {
    if v.is_base {
        v.added
    } else if v.optional_inherited {
        own_kept(v) + inherited_kept(b, v).map_values(|f: FieldModel| wrap_field(f))
    } else {
        own_kept(v) + inherited_kept(b, v)
    }
}

/// The resolved form of one declaration, metadata passed through opaquely.
pub open spec fn resolve_model(b: DeclModel, v: DeclModel) -> ResolvedModel {
    ResolvedModel {
        name: v.name,
        metadata: v.metadata,
        generics: v.generics,
        fields: resolved_fields(b, v),
    }
}

/// Every declaration of a batch resolved against the batch's first.
pub open spec fn resolve_models(ds: Seq<DeclModel>) -> Seq<ResolvedModel> {
    Seq::new(ds.len(), |i: int| resolve_model(ds[0], ds[i]))
}

/// Whether the declaration removes the given field name.
fn removed_contains(v: &DeclaredType, n: &Vec<u8>) -> (r: bool)
    ensures
        r == v@.removed.contains(n@),
{
    let mut i: usize = 0;
    while i < v.removed.len()
        invariant
            i <= v.removed@.len(),
            forall|k: int| 0 <= k < i ==> v@.removed[k] != n@,
        decreases v.removed@.len() - i,
    {
        if bytes_eq(&v.removed[i], n) {
            proof {
                assert(v@.removed[i as int] == n@);
            }
            return true;
        }
        proof {
            assert(v@.removed[i as int] == v.removed@[i as int]@);
        }
        i += 1;
    }
    false
}

/// The optional wrapping of a type expression.
fn wrap_optional(t: &Vec<u8>) -> (r: Vec<u8>)
    ensures
        r@ == opt_wrap(t@),
{
    let mut out: Vec<u8> = Vec::new();
    out.push(79);
    out.push(112);
    out.push(116);
    out.push(105);
    out.push(111);
    out.push(110);
    out.push(60);
    proof {
        assert(out@ =~= opt_open());
    }
    push_all(&mut out, t);
    out.push(62);
    proof {
        assert(out@ =~= opt_wrap(t@));
    }
    out
}

/// A fresh copy of a field.
fn copy_field(f: &FieldSpec) -> (r: FieldSpec)
    ensures
        r@ == f@,
{
    let r = FieldSpec {
        name: copy_bytes(&f.name),
        ty: copy_bytes(&f.ty),
        source_order: f.source_order,
    };
    proof {
        assert(r@ =~= f@);
    }
    r
}

/// Resolves one declaration against the base.
pub fn resolve(base: &DeclaredType, variant: &DeclaredType) -> (r: ResolvedType)
    ensures
        r@ == resolve_model(base@, variant@),
{
    let ghost vm = variant@;
    let ghost bm = base@;
    let mut fields: Vec<FieldSpec> = Vec::new();
    if variant.is_base {
        let mut i: usize = 0;
        proof {
            assert(fields_model(fields@) =~= vm.added.subrange(0, 0));
        }
        while i < variant.added.len()
            invariant
                i <= variant.added@.len(),
                vm == variant@,
                fields_model(fields@) == vm.added.subrange(0, i as int),
            decreases variant.added@.len() - i,
        {
            let cf = copy_field(&variant.added[i]);
            proof {
                assert(cf@ == vm.added[i as int]);
            }
            fields.push(cf);
            proof {
                assert(vm.added.subrange(0, i + 1) =~= vm.added.subrange(0, i as int).push(
                    vm.added[i as int],
                ));
                assert(fields_model(fields@) =~= vm.added.subrange(0, i as int).push(
                    vm.added[i as int],
                ));
            }
            i += 1;
        }
        proof {
            assert(vm.added.subrange(0, vm.added.len() as int) =~= vm.added);
        }
    } else {
        let ghost own_pred = |f: FieldModel| !vm.removed.contains(f.name);
        let ghost inh_pred = |f: FieldModel|
            !vm.removed.contains(f.name) && !fields_contain_name(vm.added, f.name);
        let mut i: usize = 0;
        proof {
            assert(vm.added.subrange(0, 0) =~= Seq::<FieldModel>::empty());
            assert(vm.added.subrange(0, 0).filter(own_pred) =~= Seq::<FieldModel>::empty());
            assert(fields_model(fields@) =~= vm.added.subrange(0, 0).filter(own_pred));
        }
        while i < variant.added.len()
            invariant
                i <= variant.added@.len(),
                vm == variant@,
                own_pred == (|f: FieldModel| !vm.removed.contains(f.name)),
                fields_model(fields@) == vm.added.subrange(0, i as int).filter(own_pred),
            decreases variant.added@.len() - i,
        {
            let ghost pre = vm.added.subrange(0, i as int);
            proof {
                assert(vm.added.subrange(0, i + 1) =~= pre.push(vm.added[i as int]));
            }
            if !removed_contains(variant, &variant.added[i].name) {
                let cf = copy_field(&variant.added[i]);
                proof {
                    assert(cf@ == vm.added[i as int]);
                    assert(own_pred(vm.added[i as int]));
                    assert(pre.push(vm.added[i as int]).filter(own_pred) == pre.filter(
                        own_pred,
                    ).push(vm.added[i as int]));
                }
                fields.push(cf);
                proof {
                    assert(fields_model(fields@) =~= pre.filter(own_pred).push(
                        vm.added[i as int],
                    ));
                }
            } else {
                proof {
                    assert(!own_pred(vm.added[i as int]));
                    assert(pre.push(vm.added[i as int]).filter(own_pred) == pre.filter(own_pred));
                }
            }
            i += 1;
        }
        proof {
            assert(vm.added.subrange(0, vm.added.len() as int) =~= vm.added);
            assert(fields_model(fields@) == own_kept(vm));
        }
        // inherited fields, in the base's order
        let mut j: usize = 0;
        proof {
            assert(bm.added.subrange(0, 0) =~= Seq::<FieldModel>::empty());
            assert(bm.added.subrange(0, 0).filter(inh_pred) =~= Seq::<FieldModel>::empty());
            assert(bm.added.subrange(0, 0).filter(inh_pred).map_values(
                |f: FieldModel| wrap_field(f),
            ) =~= Seq::<FieldModel>::empty());
            assert(own_kept(vm) + Seq::<FieldModel>::empty() =~= own_kept(vm));
        }
        while j < base.added.len()
            invariant
                j <= base.added@.len(),
                vm == variant@,
                bm == base@,
                inh_pred == (|f: FieldModel|
                    !vm.removed.contains(f.name) && !fields_contain_name(vm.added, f.name)),
                fields_model(fields@) == own_kept(vm) + (if vm.optional_inherited {
                    bm.added.subrange(0, j as int).filter(inh_pred).map_values(
                        |f: FieldModel| wrap_field(f),
                    )
                } else {
                    bm.added.subrange(0, j as int).filter(inh_pred)
                }),
            decreases base.added@.len() - j,
        {
            let ghost pre = bm.added.subrange(0, j as int);
            proof {
                assert(bm.added.subrange(0, j + 1) =~= pre.push(bm.added[j as int]));
            }
            let keep = !removed_contains(variant, &base.added[j].name) && !contains_field_name(
                &variant.added,
                &base.added[j].name,
            );
            if keep {
                proof {
                    assert(inh_pred(bm.added[j as int]));
                    assert(pre.push(bm.added[j as int]).filter(inh_pred) == pre.filter(
                        inh_pred,
                    ).push(bm.added[j as int]));
                }
                if variant.optional_inherited {
                    let cf = FieldSpec {
                        name: copy_bytes(&base.added[j].name),
                        ty: wrap_optional(&base.added[j].ty),
                        source_order: base.added[j].source_order,
                    };
                    proof {
                        assert(cf@ =~= wrap_field(bm.added[j as int]));
                        assert(pre.filter(inh_pred).push(bm.added[j as int]).map_values(
                            |f: FieldModel| wrap_field(f),
                        ) =~= pre.filter(inh_pred).map_values(
                            |f: FieldModel| wrap_field(f),
                        ).push(wrap_field(bm.added[j as int])));
                    }
                    fields.push(cf);
                    proof {
                        assert(fields_model(fields@) =~= own_kept(vm) + pre.filter(
                            inh_pred,
                        ).map_values(|f: FieldModel| wrap_field(f)).push(
                            wrap_field(bm.added[j as int]),
                        ));
                        assert(own_kept(vm) + pre.filter(inh_pred).map_values(
                            |f: FieldModel| wrap_field(f),
                        ).push(wrap_field(bm.added[j as int])) =~= own_kept(vm) + pre.push(
                            bm.added[j as int],
                        ).filter(inh_pred).map_values(|f: FieldModel| wrap_field(f)));
                    }
                } else {
                    let cf = copy_field(&base.added[j]);
                    proof {
                        assert(cf@ == bm.added[j as int]);
                    }
                    fields.push(cf);
                    proof {
                        assert(fields_model(fields@) =~= own_kept(vm) + pre.push(
                            bm.added[j as int],
                        ).filter(inh_pred));
                    }
                }
            } else {
                proof {
                    assert(!inh_pred(bm.added[j as int]));
                    assert(pre.push(bm.added[j as int]).filter(inh_pred) == pre.filter(inh_pred));
                }
            }
            j += 1;
        }
        proof {
            assert(bm.added.subrange(0, bm.added.len() as int) =~= bm.added);
        }
    }
    let r = ResolvedType {
        name: copy_bytes(&variant.name),
        metadata: copy_bytes(&variant.metadata),
        generics: copy_bytes(&variant.generics),
        fields,
    };
    proof {
        assert(r@ =~= resolve_model(bm, vm));
    }
    r
}

/// Resolves a whole batch: every declaration against the batch's first, in
/// declaration order.
pub fn resolve_batch(decls: &Vec<DeclaredType>) -> (r: Vec<ResolvedType>)
    ensures
        resolved_models(r@) == resolve_models(decls_model(decls@)),
{
    let mut out: Vec<ResolvedType> = Vec::new();
    if decls.len() == 0 {
        proof {
            assert(resolved_models(out@) =~= resolve_models(decls_model(decls@)));
        }
        return out;
    }
    let mut i: usize = 0;
    while i < decls.len()
        invariant
            i <= decls@.len(),
            out@.len() == i,
            forall|k: int|
                0 <= k < i ==> out@[k]@ == resolve_model(decls@[0]@, decls@[k]@),
        decreases decls@.len() - i,
    {
        let r = resolve(&decls[0], &decls[i]);
        out.push(r);
        i += 1;
    }
    proof {
        assert(resolved_models(out@) =~= resolve_models(decls_model(decls@)));
    }
    out
}

/// Law: resolving the base declaration yields exactly its own added fields,
/// in order, unmodified.
pub proof fn lemma_base_identity(b: DeclModel)
    requires
        b.is_base,
    ensures
        resolve_model(b, b).fields == b.added,
{
}

/// Law: a field name the variant removes never appears in its resolved
/// output, whether the name came from the variant's own additions or from
/// the base.
pub proof fn lemma_removal_precedence(b: DeclModel, v: DeclModel, n: Seq<u8>, i: int)
    requires
        !v.is_base,
        v.removed.contains(n),
        0 <= i < resolve_model(b, v).fields.len(),
    ensures
        resolve_model(b, v).fields[i].name != n,
{
    broadcast use vstd::prelude::Seq::lemma_filter_pred;

    let own = own_kept(v);
    let inh = inherited_kept(b, v);
    let fs = resolve_model(b, v).fields;
    if i < own.len() {
        assert(fs[i] == own[i]);
    } else {
        if v.optional_inherited {
            let w = inh.map_values(|f: FieldModel| wrap_field(f));
            assert(fs[i] == w[i - own.len()]);
            assert(w[i - own.len()] == wrap_field(inh[i - own.len()]));
        } else {
            assert(fs[i] == inh[i - own.len()]);
        }
    }
}

/// Filtering keeps names distinct and introduces no new elements.
proof fn lemma_filter_distinct(s: Seq<FieldModel>, p: spec_fn(FieldModel) -> bool)
    ensures
        distinct_names(s) ==> distinct_names(s.filter(p)),
        forall|x: FieldModel| #[trigger] s.filter(p).contains(x) ==> s.contains(x),
    decreases s.len(),
{
    reveal(Seq::filter);
    if s.len() == 0 {
    } else {
        let rest = s.drop_last();
        lemma_filter_distinct(rest, p);
        let fs = s.filter(p);
        assert forall|x: FieldModel| #[trigger] fs.contains(x) implies s.contains(x) by {
            if rest.filter(p).contains(x) {
                let k = choose|k: int| 0 <= k < rest.len() && rest[k] == x;
                assert(s[k] == x);
            } else {
                assert(x == s.last());
                assert(s[s.len() - 1] == x);
            }
        }
        if distinct_names(s) {
            assert(distinct_names(rest));
            let rf = rest.filter(p);
            assert forall|j: int, k: int| 0 <= j < k < fs.len() implies fs[j].name
                != fs[k].name by {
                if p(s.last()) {
                    assert(fs == rf.push(s.last()));
                    if k < fs.len() - 1 {
                        assert(fs[j] == rf[j] && fs[k] == rf[k]);
                    } else {
                        assert(fs[k] == s.last());
                        assert(fs[j] == rf[j]);
                        assert(rf.contains(rf[j]));
                        assert(rest.contains(rf[j]));
                        let m = choose|m: int| 0 <= m < rest.len() && rest[m] == rf[j];
                        assert(s[m] == rf[j]);
                        assert(s[m].name != s[s.len() - 1].name);
                    }
                } else {
                    assert(fs == rf);
                }
            }
        }
    }
}

/// Law: a field the variant adds and does not remove appears exactly once
/// in the resolved output: among the variant's own fields, with the
/// variant's own type, never wrapped.
pub proof fn lemma_own_field_precedence(b: DeclModel, v: DeclModel, i: int)
    requires
        !v.is_base,
        distinct_added(v),
        0 <= i < v.added.len(),
        !v.removed.contains(v.added[i].name),
    ensures
        own_kept(v).contains(v.added[i]),
        exists|j: int|
            0 <= j < own_kept(v).len() && #[trigger] resolve_model(b, v).fields[j] == v.added[i],
        forall|j: int, k: int|
            0 <= j < resolve_model(b, v).fields.len() && 0 <= k < resolve_model(b, v).fields.len()
                && resolve_model(b, v).fields[j].name == v.added[i].name && resolve_model(
                b,
                v,
            ).fields[k].name == v.added[i].name ==> j == k,
{
    broadcast use vstd::prelude::Seq::lemma_filter_pred, vstd::prelude::Seq::lemma_filter_contains;

    let n = v.added[i].name;
    let own = own_kept(v);
    let inh = inherited_kept(b, v);
    let fs = resolve_model(b, v).fields;
    assert(own.contains(v.added[i]));
    assert(exists|j: int| 0 <= j < own.len() && #[trigger] fs[j] == v.added[i]) by {
        let j = choose|j: int| 0 <= j < own.len() && own[j] == v.added[i];
        assert(fs[j] == own[j]);
    }
    lemma_filter_distinct(v.added, |f: FieldModel| !v.removed.contains(f.name));
    assert forall|j: int, k: int|
        0 <= j < fs.len() && 0 <= k < fs.len() && fs[j].name == n && fs[k].name == n implies j
        == k by {
        assert(fields_contain_name(v.added, n)) by {
            assert(v.added[i].name == n);
        }
        if j >= own.len() || k >= own.len() {
            let m = if j >= own.len() {
                j
            } else {
                k
            };
            if v.optional_inherited {
                let w = inh.map_values(|f: FieldModel| wrap_field(f));
                assert(fs[m] == w[m - own.len()]);
                assert(w[m - own.len()] == wrap_field(inh[m - own.len()]));
                assert(!fields_contain_name(v.added, inh[m - own.len()].name));
            } else {
                assert(fs[m] == inh[m - own.len()]);
                assert(!fields_contain_name(v.added, inh[m - own.len()].name));
            }
        } else {
            assert(fs[j] == own[j] && fs[k] == own[k]);
            assert(distinct_names(own));
            if j < k {
                assert(own[j].name != own[k].name);
            } else if k < j {
                assert(own[k].name != own[j].name);
            }
        }
    }
}

/// Law: the optional-inherited marker is local to inherited fields. The own
/// prefix matches a marker-off resolution of the same declaration, and the
/// inherited tail is the marker-off tail with each field, and nothing else,
/// wrapped as optional.
pub proof fn lemma_optional_wrapping_locality(b: DeclModel, v: DeclModel)
    requires
        !v.is_base,
        v.optional_inherited,
    ensures
        ({
            let plain = DeclModel { optional_inherited: false, ..v };
            let on = own_kept(v).len() as int;
            let with_marker = resolve_model(b, v).fields;
            let without = resolve_model(b, plain).fields;
            &&& with_marker.len() == without.len()
            &&& on <= with_marker.len()
            &&& with_marker.subrange(0, on) == without.subrange(0, on)
            &&& with_marker.subrange(on, with_marker.len() as int) == without.subrange(
                on,
                without.len() as int,
            ).map_values(|f: FieldModel| wrap_field(f))
        }),
{
    let plain = DeclModel { optional_inherited: false, ..v };
    assert(own_kept(plain) == own_kept(v));
    assert(inherited_kept(b, plain) == inherited_kept(b, v));
    let own = own_kept(v);
    let inh = inherited_kept(b, v);
    let w = inh.map_values(|f: FieldModel| wrap_field(f));
    let on = own.len() as int;
    let with_marker = resolve_model(b, v).fields;
    let without = resolve_model(b, plain).fields;
    assert(with_marker == own + w);
    assert(without == own + inh);
    assert(with_marker.subrange(0, on) =~= own);
    assert(without.subrange(0, on) =~= own);
    assert(with_marker.subrange(on, with_marker.len() as int) =~= w);
    assert(without.subrange(on, without.len() as int) =~= inh);
}

} // verus!
