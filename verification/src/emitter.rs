//! Emitter: renders resolved types as struct declarations, one per line.
//!
//! The rendering is diagnostic output for the surrounding generator; the
//! authoritative result is the ordered resolved-type records themselves.

use vstd::prelude::*;

use crate::ast::{FieldModel, ResolvedModel, ResolvedType, resolved_models};
use crate::bytes::push_all;
use crate::lexer::kw_struct;

verus! {

/// One field rendered as `name: type`.
pub open spec fn render_field(f: FieldModel) -> Seq<u8> {
    f.name + seq![58u8, 32u8] + f.ty
}

/// A field list rendered with `, ` between fields.
pub open spec fn render_fields(fs: Seq<FieldModel>) -> Seq<u8>
    decreases fs.len(),
{
    if fs.len() == 0 {
        Seq::empty()
    } else if fs.len() == 1 {
        render_field(fs[0])
    } else {
        render_fields(fs.drop_last()) + seq![44u8, 32u8] + render_field(fs.last())
    }
}

/// One resolved type rendered as a struct declaration, metadata and
/// generics passed through.
pub open spec fn render_type(r: ResolvedModel) -> Seq<u8> {
    (if r.metadata.len() > 0 {
        r.metadata + seq![32u8]
    } else {
        Seq::<u8>::empty()
    }) + kw_struct() + seq![32u8] + r.name + r.generics + (if r.fields.len() == 0 {
        seq![32u8, 123u8, 125u8]
    } else {
        seq![32u8, 123u8, 32u8] + render_fields(r.fields) + seq![32u8, 125u8]
    })
}

/// A batch rendered as one declaration per line.
pub open spec fn render_batch(rs: Seq<ResolvedModel>) -> Seq<u8>
    decreases rs.len(),
{
    if rs.len() == 0 {
        Seq::empty()
    } else {
        render_batch(rs.drop_last()) + render_type(rs.last()) + seq![10u8]
    }
}

/// Renders one resolved type.
pub fn render_type_decl(r: &ResolvedType) -> (out: Vec<u8>)
    ensures
        out@ == render_type(r@),
{
    let mut out: Vec<u8> = Vec::new();
    if r.metadata.len() > 0 {
        push_all(&mut out, &r.metadata);
        out.push(32);
    }
    let ghost head = if r@.metadata.len() > 0 {
        r@.metadata + seq![32u8]
    } else {
        Seq::<u8>::empty()
    };
    proof {
        assert(out@ =~= head);
    }
    out.push(115);
    out.push(116);
    out.push(114);
    out.push(117);
    out.push(99);
    out.push(116);
    out.push(32);
    proof {
        assert(out@ =~= head + kw_struct() + seq![32u8]);
    }
    push_all(&mut out, &r.name);
    push_all(&mut out, &r.generics);
    let ghost mid = head + kw_struct() + seq![32u8] + r@.name + r@.generics;
    proof {
        assert(out@ =~= mid);
    }
    if r.fields.len() == 0 {
        out.push(32);
        out.push(123);
        out.push(125);
        proof {
            assert(out@ =~= mid + seq![32u8, 123u8, 125u8]);
            assert(out@ =~= render_type(r@));
        }
    } else {
        let mut ftxt: Vec<u8> = Vec::new();
        let mut i: usize = 0;
        proof {
            assert(r@.fields.subrange(0, 0) =~= Seq::<FieldModel>::empty());
            assert(ftxt@ =~= render_fields(r@.fields.subrange(0, 0)));
        }
        while i < r.fields.len()
            invariant
                i <= r.fields@.len(),
                ftxt@ == render_fields(r@.fields.subrange(0, i as int)),
            decreases r.fields@.len() - i,
        {
            let ghost pre = r@.fields.subrange(0, i as int);
            let ghost s2 = r@.fields.subrange(0, i + 1);
            proof {
                assert(s2.drop_last() =~= pre);
                assert(s2.last() == r@.fields[i as int]);
            }
            if i > 0 {
                ftxt.push(44);
                ftxt.push(32);
            }
            push_all(&mut ftxt, &r.fields[i].name);
            ftxt.push(58);
            ftxt.push(32);
            push_all(&mut ftxt, &r.fields[i].ty);
            proof {
                assert(r@.fields[i as int] == r.fields@[i as int]@);
                if i == 0 {
                    assert(s2.len() == 1);
                    assert(render_fields(s2) == render_field(s2[0]));
                    assert(ftxt@ =~= render_field(r@.fields[0]));
                } else {
                    assert(render_fields(s2) == render_fields(pre) + seq![44u8, 32u8]
                        + render_field(s2.last()));
                    assert(ftxt@ =~= render_fields(pre) + seq![44u8, 32u8] + render_field(
                        r@.fields[i as int],
                    ));
                }
            }
            i += 1;
        }
        proof {
            assert(r@.fields.subrange(0, r@.fields.len() as int) =~= r@.fields);
        }
        out.push(32);
        out.push(123);
        out.push(32);
        push_all(&mut out, &ftxt);
        out.push(32);
        out.push(125);
        proof {
            assert(out@ =~= mid + (seq![32u8, 123u8, 32u8] + render_fields(r@.fields) + seq![
                32u8,
                125u8,
            ]));
            assert(out@ =~= render_type(r@));
        }
    }
    out
}

/// Renders a whole batch, base first, one declaration per line.
pub fn emit(rs: &Vec<ResolvedType>) -> (out: Vec<u8>)
    ensures
        out@ == render_batch(resolved_models(rs@)),
{
    let ghost ms = resolved_models(rs@);
    let mut out: Vec<u8> = Vec::new();
    let mut k: usize = 0;
    proof {
        assert(ms.subrange(0, 0) =~= Seq::<ResolvedModel>::empty());
        assert(out@ =~= render_batch(ms.subrange(0, 0)));
    }
    while k < rs.len()
        invariant
            k <= rs@.len(),
            ms == resolved_models(rs@),
            out@ == render_batch(ms.subrange(0, k as int)),
        decreases rs@.len() - k,
    {
        let ghost pre = ms.subrange(0, k as int);
        let ghost s2 = ms.subrange(0, k + 1);
        proof {
            assert(s2.drop_last() =~= pre);
            assert(s2.last() == ms[k as int]);
            assert(ms[k as int] == rs@[k as int]@);
        }
        let t = render_type_decl(&rs[k]);
        push_all(&mut out, &t);
        out.push(10);
        proof {
            assert(render_batch(s2) == render_batch(pre) + render_type(ms[k as int]) + seq![10u8]);
            assert(out@ =~= render_batch(pre) + render_type(ms[k as int]) + seq![10u8]);
        }
        k += 1;
    }
    proof {
        assert(ms.subrange(0, ms.len() as int) =~= ms);
    }
    out
}

} // verus!
