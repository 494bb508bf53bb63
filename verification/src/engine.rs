//! The extension engine: locate the tagged union and the dispatch
//! functions, synthesize the new variant and its arm, enforce the
//! placeholder and duplicate rules, and re-emit canonical text.

use vstd::prelude::*;
use crate::ast::{
    bytes_eq, check_ident, is_ident, Arm, ArmV, Decl, DeclV, DispatchFn, Field, FieldV, FnV,
    SourceTree, TreeV, UnionDecl, UnionV, Variant, VariantV,
};
use crate::parser::{first_bad_byte, parse, parse_text};
use crate::printer::{print, print_text};
use crate::text::{dup_bytes, dvs, text_dv_lemmas};
use crate::types::TransactionField;

verus! {

/// The placeholder variant's name.
pub open spec fn noop_name() -> Seq<u8> {
    seq![78u8, 111u8, 111u8, 112u8]
}

/// The tagged union the engine extends.
pub open spec fn union_type_name() -> Seq<u8> {
    seq![
        84u8,
        114u8,
        97u8,
        110u8,
        115u8,
        97u8,
        99u8,
        116u8,
        105u8,
        111u8,
        110u8,
        84u8,
        121u8,
        112u8,
        101u8,
    ]
}

/// The dispatch function expected in the type-declaration file.
pub open spec fn verify_fn_name() -> Seq<u8> {
    seq![118u8, 101u8, 114u8, 105u8, 102u8, 121u8]
}

/// The validation dispatch function expected in the logic file.
pub open spec fn validate_fn_name() -> Seq<u8> {
    seq![118u8, 97u8, 108u8, 105u8, 100u8, 97u8, 116u8, 101u8, 95u8, 116u8, 120u8]
}

/// The processing dispatch function expected in the logic file.
pub open spec fn process_fn_name() -> Seq<u8> {
    seq![112u8, 114u8, 111u8, 99u8, 101u8, 115u8, 115u8, 95u8, 116u8, 120u8]
}

/// The fixed placeholder body of every synthesized arm.
pub open spec fn accept_body() -> Seq<u8> {
    seq![97u8, 99u8, 99u8, 101u8, 112u8, 116u8]
}

/// The default scalar type reference substituted for unparsable type text.
pub open spec fn default_type_name() -> Seq<u8> {
    seq![83u8, 116u8, 114u8, 105u8, 110u8, 103u8]
}

/// A type reference the dialect accepts.
pub open spec fn is_type_ref(w: Seq<u8>) -> bool {
    is_ident(w)
}

pub fn word_noop() -> (r: Vec<u8>)
    ensures
        r@ == noop_name(),
{
    let mut v: Vec<u8> = Vec::new();
    v.push(78);
    v.push(111);
    v.push(111);
    v.push(112);
    proof {
        assert(v@ =~= noop_name());
    }
    v
}

pub fn word_union_type() -> (r: Vec<u8>)
    ensures
        r@ == union_type_name(),
{
    let mut v: Vec<u8> = Vec::new();
    v.push(84);
    v.push(114);
    v.push(97);
    v.push(110);
    v.push(115);
    v.push(97);
    v.push(99);
    v.push(116);
    v.push(105);
    v.push(111);
    v.push(110);
    v.push(84);
    v.push(121);
    v.push(112);
    v.push(101);
    proof {
        assert(v@ =~= union_type_name());
    }
    v
}

pub fn word_verify() -> (r: Vec<u8>)
    ensures
        r@ == verify_fn_name(),
{
    let mut v: Vec<u8> = Vec::new();
    v.push(118);
    v.push(101);
    v.push(114);
    v.push(105);
    v.push(102);
    v.push(121);
    proof {
        assert(v@ =~= verify_fn_name());
    }
    v
}

pub fn word_validate_tx() -> (r: Vec<u8>)
    ensures
        r@ == validate_fn_name(),
{
    let mut v: Vec<u8> = Vec::new();
    v.push(118);
    v.push(97);
    v.push(108);
    v.push(105);
    v.push(100);
    v.push(97);
    v.push(116);
    v.push(101);
    v.push(95);
    v.push(116);
    v.push(120);
    proof {
        assert(v@ =~= validate_fn_name());
    }
    v
}

pub fn word_process_tx() -> (r: Vec<u8>)
    ensures
        r@ == process_fn_name(),
{
    let mut v: Vec<u8> = Vec::new();
    v.push(112);
    v.push(114);
    v.push(111);
    v.push(99);
    v.push(101);
    v.push(115);
    v.push(115);
    v.push(95);
    v.push(116);
    v.push(120);
    proof {
        assert(v@ =~= process_fn_name());
    }
    v
}

pub fn word_accept() -> (r: Vec<u8>)
    ensures
        r@ == accept_body(),
{
    let mut v: Vec<u8> = Vec::new();
    v.push(97);
    v.push(99);
    v.push(99);
    v.push(101);
    v.push(112);
    v.push(116);
    proof {
        assert(v@ =~= accept_body());
    }
    v
}

pub fn word_default_type() -> (r: Vec<u8>)
    ensures
        r@ == default_type_name(),
{
    let mut v: Vec<u8> = Vec::new();
    v.push(83);
    v.push(116);
    v.push(114);
    v.push(105);
    v.push(110);
    v.push(103);
    proof {
        assert(v@ =~= default_type_name());
    }
    v
}

/// How one extension attempt can fail; on any failure no output text
/// exists, so the caller writes nothing.
#[derive(Debug, PartialEq, Eq)]
pub enum EngineError {
    /// A byte the dialect does not accept, at this offset.
    Parse { offset: usize },
    /// The union or an expected dispatch function is absent or malformed.
    SchemaNotFound,
    /// The requested variant name already exists in the union.
    DuplicateVariant,
}

// --- specification-level transformation ---

pub open spec fn build_field_v(name: Seq<u8>, ty: Seq<u8>) -> FieldV {
    FieldV {
        name,
        ty: if is_type_ref(ty) {
            ty
        } else {
            default_type_name()
        },
    }
}

pub open spec fn build_variant_v(name: Seq<u8>, fields: Seq<FieldV>) -> VariantV {
    VariantV { name, fields: fields.map(|i: int, f: FieldV| build_field_v(f.name, f.ty)) }
}

pub open spec fn build_arm_v(v: VariantV) -> ArmV {
    ArmV {
        variant: v.name,
        bindings: v.fields.map(|i: int, f: FieldV| f.name),
        body: accept_body(),
    }
}

pub open spec fn has_variant(u: UnionV, n: Seq<u8>) -> bool {
    exists|i: int| 0 <= i < u.variants.len() && u.variants[i].name == n
}

pub open spec fn only_placeholder(u: UnionV) -> bool {
    forall|i: int| 0 <= i < u.variants.len() ==> u.variants[i].name == noop_name()
}

/// Append the new variant; when nothing but the placeholder exists, the
/// placeholder is removed in the same step.
pub open spec fn extend_union_v(u: UnionV, v: VariantV) -> UnionV {
    UnionV {
        name: u.name,
        variants: (if only_placeholder(u) {
            Seq::<VariantV>::empty()
        } else {
            u.variants
        }).push(v),
    }
}

pub open spec fn drop_noop_arms(arms: Seq<ArmV>) -> Seq<ArmV>
    decreases arms.len(),
{
    if arms.len() == 0 {
        Seq::<ArmV>::empty()
    } else if arms[0].variant == noop_name() {
        drop_noop_arms(arms.skip(1))
    } else {
        seq![arms[0]] + drop_noop_arms(arms.skip(1))
    }
}

/// Synchronize one dispatch function: placeholder arms go, the new arm is
/// matched first.
pub open spec fn sync_fn_v(f: FnV, target: Seq<u8>, arm: ArmV) -> FnV {
    if f.union_name == target {
        FnV {
            name: f.name,
            param: f.param,
            union_name: f.union_name,
            arms: seq![arm] + drop_noop_arms(f.arms),
        }
    } else {
        f
    }
}

pub open spec fn sync_decl_v(d: DeclV, target: Seq<u8>, arm: ArmV) -> DeclV {
    match d {
        DeclV::Dispatch(f) => DeclV::Dispatch(sync_fn_v(f, target, arm)),
        _ => d,
    }
}

pub open spec fn sync_tree_v(t: TreeV, target: Seq<u8>, arm: ArmV) -> TreeV {
    t.map(|i: int, d: DeclV| sync_decl_v(d, target, arm))
}

/// Index of the first union declaration with this name, or the length.
pub open spec fn find_union_at(t: TreeV, name: Seq<u8>, i: int) -> int
    decreases t.len() - i,
{
    if i < 0 || i >= t.len() {
        t.len() as int
    } else if t[i] is Union && t[i]->Union_0.name == name {
        i
    } else {
        find_union_at(t, name, i + 1)
    }
}

pub open spec fn find_union_idx(t: TreeV, name: Seq<u8>) -> int {
    find_union_at(t, name, 0)
}

/// Index of the first dispatch function with this name whose match is
/// over the target union, or the length; a function of another shape is
/// not found rather than corrupted.
pub open spec fn find_fn_at(t: TreeV, name: Seq<u8>, target: Seq<u8>, i: int) -> int
    decreases t.len() - i,
{
    if i < 0 || i >= t.len() {
        t.len() as int
    } else if t[i] is Dispatch && t[i]->Dispatch_0.name == name && t[i]->Dispatch_0.union_name
        == target {
        i
    } else {
        find_fn_at(t, name, target, i + 1)
    }
}

pub open spec fn find_fn_idx(t: TreeV, name: Seq<u8>, target: Seq<u8>) -> int {
    find_fn_at(t, name, target, 0)
}

/// The tree transformation of the type-declaration file.
pub open spec fn tx_transform(t: TreeV, name: Seq<u8>, fields: Seq<FieldV>) -> Result<
    TreeV,
    EngineError,
> {
    let ui = find_union_idx(t, union_type_name());
    let fi = find_fn_idx(t, verify_fn_name(), union_type_name());
    if ui == t.len() || fi == t.len() {
        Err(EngineError::SchemaNotFound)
    } else {
        let u = t[ui]->Union_0;
        if has_variant(u, name) {
            Err(EngineError::DuplicateVariant)
        } else {
            let v = build_variant_v(name, fields);
            Ok(
                sync_tree_v(
                    t.update(ui, DeclV::Union(extend_union_v(u, v))),
                    union_type_name(),
                    build_arm_v(v),
                ),
            )
        }
    }
}

/// The tree transformation of the logic file.
pub open spec fn state_transform(t: TreeV, name: Seq<u8>, fields: Seq<FieldV>) -> Result<
    TreeV,
    EngineError,
> {
    let vi = find_fn_idx(t, validate_fn_name(), union_type_name());
    let pi = find_fn_idx(t, process_fn_name(), union_type_name());
    if vi == t.len() || pi == t.len() {
        Err(EngineError::SchemaNotFound)
    } else {
        Ok(sync_tree_v(t, union_type_name(), build_arm_v(build_variant_v(name, fields))))
    }
}

pub open spec fn spec_modify_tx(text: Seq<u8>, name: Seq<u8>, fields: Seq<FieldV>) -> Result<
    Seq<u8>,
    EngineError,
> {
    match parse_text(text) {
        None => Err(EngineError::Parse { offset: first_bad_byte(text) as usize }),
        Some(t) => match tx_transform(t, name, fields) {
            Err(e) => Err(e),
            Ok(t2) => Ok(print_text(t2)),
        },
    }
}

pub open spec fn spec_modify_state(text: Seq<u8>, name: Seq<u8>, fields: Seq<FieldV>) -> Result<
    Seq<u8>,
    EngineError,
> {
    match parse_text(text) {
        None => Err(EngineError::Parse { offset: first_bad_byte(text) as usize }),
        Some(t) => match state_transform(t, name, fields) {
            Err(e) => Err(e),
            Ok(t2) => Ok(print_text(t2)),
        },
    }
}

/// The whole extension over the file pair: the type-declaration file
/// first, then the logic file; the first failure wins and yields no text.
pub open spec fn spec_create_transaction(
    tx_text: Seq<u8>,
    state_text: Seq<u8>,
    name: Seq<u8>,
    fields: Seq<FieldV>,
) -> Result<(Seq<u8>, Seq<u8>), EngineError> {
    match spec_modify_tx(tx_text, name, fields) {
        Err(e) => Err(e),
        Ok(tx_out) => match spec_modify_state(state_text, name, fields) {
            Err(e) => Err(e),
            Ok(state_out) => Ok((tx_out, state_out)),
        },
    }
}

// --- executable engine ---

/// First union declaration with the given name, by declaration order.
pub fn find_union(tree: &SourceTree, name: &Vec<u8>) -> (r: Option<usize>)
    ensures
        ({
            let tv = tree.deep_view();
            match r {
                Some(i) => i < tv.len() && find_union_idx(tv, name@) == i,
                None => find_union_idx(tv, name@) == tv.len(),
            }
        }),
{
    broadcast use text_dv_lemmas;

    let ghost tv = tree.deep_view();
    let mut k: usize = 0;
    while k < tree.decls.len()
        invariant
            k <= tree.decls.len(),
            tv == tree.deep_view(),
            find_union_idx(tv, name@) == find_union_at(tv, name@, k as int),
        decreases tree.decls.len() - k,
    {
        proof {
            assert(tv[k as int] == tree.decls@[k as int].deep_view());
        }
        match &tree.decls[k] {
            Decl::Union(u) => {
                if bytes_eq(&u.name, name) {
                    proof {
                        assert(find_union_at(tv, name@, k as int) == k as int);
                    }
                    return Some(k);
                }
            },
            _ => {},
        }
        proof {
            assert(find_union_at(tv, name@, k as int) == find_union_at(tv, name@, k as int + 1));
        }
        k += 1;
    }
    None
}

/// First dispatch function with the given name over the target union, by
/// declaration order.
pub fn find_function(tree: &SourceTree, name: &Vec<u8>, target: &Vec<u8>) -> (r: Option<usize>)
    ensures
        ({
            let tv = tree.deep_view();
            match r {
                Some(i) => i < tv.len() && find_fn_idx(tv, name@, target@) == i,
                None => find_fn_idx(tv, name@, target@) == tv.len(),
            }
        }),
{
    broadcast use text_dv_lemmas;

    let ghost tv = tree.deep_view();
    let mut k: usize = 0;
    while k < tree.decls.len()
        invariant
            k <= tree.decls.len(),
            tv == tree.deep_view(),
            find_fn_idx(tv, name@, target@) == find_fn_at(tv, name@, target@, k as int),
        decreases tree.decls.len() - k,
    {
        proof {
            assert(tv[k as int] == tree.decls@[k as int].deep_view());
        }
        match &tree.decls[k] {
            Decl::Dispatch(f) => {
                if bytes_eq(&f.name, name) && bytes_eq(&f.union_name, target) {
                    proof {
                        assert(find_fn_at(tv, name@, target@, k as int) == k as int);
                    }
                    return Some(k);
                }
            },
            _ => {},
        }
        proof {
            assert(find_fn_at(tv, name@, target@, k as int) == find_fn_at(
                tv,
                name@,
                target@,
                k as int + 1,
            ));
        }
        k += 1;
    }
    None
}

/// Build the new variant from the caller's field list; the second result
/// reports whether any type text was replaced by the default scalar.
pub fn build_variant(name: &Vec<u8>, fields: &Vec<TransactionField>) -> (r: (Variant, bool))
    requires
        forall|i: int|
            0 <= i < fields.deep_view().len() ==> is_ident(
                (#[trigger] fields.deep_view()[i]).name,
            ),
    ensures
        r.0.deep_view() == build_variant_v(name@, fields.deep_view()),
        r.1 == exists|i: int|
            0 <= i < fields.deep_view().len() && !is_type_ref(
                #[trigger] fields.deep_view()[i].ty,
            ),
{
    broadcast use text_dv_lemmas;

    let ghost fv = fields.deep_view();
    let mut out: Vec<Field> = Vec::new();
    let mut substituted = false;
    let mut k: usize = 0;
    proof {
        assert(out.deep_view() =~~= fv.take(0).map(
            |i: int, f: FieldV| build_field_v(f.name, f.ty),
        ));
    }
    while k < fields.len()
        invariant
            k <= fields.len(),
            fv == fields.deep_view(),
            forall|i: int|
                0 <= i < fields.deep_view().len() ==> is_ident(
                    (#[trigger] fields.deep_view()[i]).name,
                ),
            out.deep_view() == fv.take(k as int).map(
                |i: int, f: FieldV| build_field_v(f.name, f.ty),
            ),
            substituted == exists|i: int|
                0 <= i < k && !is_type_ref(#[trigger] fv[i].ty),
        decreases fields.len() - k,
    {
        broadcast use text_dv_lemmas;

        let tf = &fields[k];
        proof {
            assert(fv[k as int] == fields@[k as int].deep_view());
            assert(tf.deep_view() == fv[k as int]);
            assert(is_ident((fields.deep_view()[k as int]).name));
        }
        let f = tf.to_field();
        let ok = check_ident(&tf.field_type);
        if !ok {
            substituted = true;
        }
        proof {
            assert(fv[k as int].ty == tf.field_type@);
        }
        out.push(f);
        proof {
            assert(fv.take(k as int).push(fv[k as int]) =~= fv.take(k + 1));
            assert(out.deep_view() =~~= fv.take(k + 1).map(
                |i: int, f: FieldV| build_field_v(f.name, f.ty),
            ));
        }
        k += 1;
    }
    proof {
        assert(fv.take(fields@.len() as int) =~= fv);
    }
    let v = Variant { name: dup_bytes(name), fields: out };
    proof {
        assert(v.deep_view() =~~= build_variant_v(name@, fv));
    }
    (v, substituted)
}

/// Build the dispatch arm for a variant: every field bound by name, in
/// declared order, with the fixed placeholder body.
pub fn build_arm(v: &Variant) -> (r: Arm)
    ensures
        r.deep_view() == build_arm_v(v.deep_view()),
{
    broadcast use text_dv_lemmas;

    let ghost vv = v.deep_view();
    let mut bindings: Vec<Vec<u8>> = Vec::new();
    let mut k: usize = 0;
    proof {
        assert(bindings.deep_view() =~~= vv.fields.take(0).map(|i: int, f: FieldV| f.name));
    }
    while k < v.fields.len()
        invariant
            k <= v.fields.len(),
            vv == v.deep_view(),
            bindings.deep_view() == vv.fields.take(k as int).map(|i: int, f: FieldV| f.name),
        decreases v.fields.len() - k,
    {
        broadcast use text_dv_lemmas;

        proof {
            assert(vv.fields[k as int] == v.fields@[k as int].deep_view());
        }
        bindings.push(dup_bytes(&v.fields[k].name));
        proof {
            assert(vv.fields.take(k as int).push(vv.fields[k as int]) =~= vv.fields.take(k + 1));
            assert(bindings.deep_view() =~~= vv.fields.take(k + 1).map(
                |i: int, f: FieldV| f.name,
            ));
        }
        k += 1;
    }
    proof {
        assert(vv.fields.take(v.fields@.len() as int) =~= vv.fields);
    }
    let r = Arm { variant: dup_bytes(&v.name), bindings, body: word_accept() };
    proof {
        assert(r.deep_view() =~~= build_arm_v(vv));
    }
    r
}

fn dup_arm(a: &Arm) -> (r: Arm)
    ensures
        r.deep_view() == a.deep_view(),
{
    broadcast use text_dv_lemmas;

    let mut bindings: Vec<Vec<u8>> = Vec::new();
    let mut k: usize = 0;
    while k < a.bindings.len()
        invariant
            k <= a.bindings.len(),
            bindings.deep_view() == a.deep_view().bindings.take(k as int),
        decreases a.bindings.len() - k,
    {
        broadcast use text_dv_lemmas;

        proof {
            assert(a.deep_view().bindings[k as int] == a.bindings@[k as int]@);
        }
        bindings.push(dup_bytes(&a.bindings[k]));
        proof {
            assert(bindings.deep_view() =~~= a.deep_view().bindings.take(k + 1));
        }
        k += 1;
    }
    proof {
        assert(a.deep_view().bindings.take(a.bindings@.len() as int) =~= a.deep_view().bindings);
    }
    let r = Arm {
        variant: dup_bytes(&a.variant),
        bindings,
        body: dup_bytes(&a.body),
    };
    proof {
        assert(r.deep_view() =~~= a.deep_view());
    }
    r
}

pub proof fn lemma_drop_noop_push(arms: Seq<ArmV>, a: ArmV)
    ensures
        drop_noop_arms(arms.push(a)) == drop_noop_arms(arms) + (if a.variant == noop_name() {
            Seq::<ArmV>::empty()
        } else {
            seq![a]
        }),
    decreases arms.len(),
{
    let tail: Seq<ArmV> = if a.variant == noop_name() {
        Seq::<ArmV>::empty()
    } else {
        seq![a]
    };
    if arms.len() == 0 {
        assert(arms.push(a)[0] == a);
        assert(arms.push(a).skip(1) =~= Seq::<ArmV>::empty());
        assert(drop_noop_arms(Seq::<ArmV>::empty()) =~= Seq::<ArmV>::empty());
        assert(drop_noop_arms(arms.push(a)) =~= tail);
        assert(drop_noop_arms(arms) + tail =~= tail);
    } else {
        lemma_drop_noop_push(arms.skip(1), a);
        assert(arms.push(a)[0] == arms[0]);
        assert(arms.push(a).skip(1) =~= arms.skip(1).push(a));
        if arms[0].variant == noop_name() {
        } else {
            assert(seq![arms[0]] + (drop_noop_arms(arms.skip(1)) + tail) =~= (seq![arms[0]]
                + drop_noop_arms(arms.skip(1))) + tail);
        }
    }
}

/// Synchronize one dispatch function in place of its old value.
fn sync_fn(f: &DispatchFn, target: &Vec<u8>, arm: &Arm) -> (r: DispatchFn)
    ensures
        r.deep_view() == sync_fn_v(f.deep_view(), target@, arm.deep_view()),
{
    broadcast use text_dv_lemmas;

    let ghost fv = f.deep_view();
    let mut arms: Vec<Arm> = Vec::new();
    if !bytes_eq(&f.union_name, target) {
        let mut k: usize = 0;
        while k < f.arms.len()
            invariant
                k <= f.arms.len(),
                fv == f.deep_view(),
                arms.deep_view() == fv.arms.take(k as int),
            decreases f.arms.len() - k,
        {
            broadcast use text_dv_lemmas;

            proof {
                assert(fv.arms[k as int] == f.arms@[k as int].deep_view());
            }
            let a = dup_arm(&f.arms[k]);
            arms.push(a);
            proof {
                assert(arms.deep_view() =~~= fv.arms.take(k + 1));
            }
            k += 1;
        }
        proof {
            assert(fv.arms.take(f.arms@.len() as int) =~= fv.arms);
        }
        let r = DispatchFn {
            name: dup_bytes(&f.name),
            param: dup_bytes(&f.param),
            union_name: dup_bytes(&f.union_name),
            arms,
        };
        proof {
            assert(r.deep_view() =~~= fv);
        }
        return r;
    }
    let noop = word_noop();
    arms.push(dup_arm(arm));
    proof {
        assert(arms.deep_view() =~~= seq![arm.deep_view()] + drop_noop_arms(fv.arms.take(0)));
    }
    let mut k: usize = 0;
    while k < f.arms.len()
        invariant
            k <= f.arms.len(),
            fv == f.deep_view(),
            noop@ == noop_name(),
            arms.deep_view() == seq![arm.deep_view()] + drop_noop_arms(fv.arms.take(k as int)),
        decreases f.arms.len() - k,
    {
        broadcast use text_dv_lemmas;

        proof {
            assert(fv.arms[k as int] == f.arms@[k as int].deep_view());
            assert(fv.arms.take(k as int).push(fv.arms[k as int]) =~= fv.arms.take(k + 1));
            lemma_drop_noop_push(fv.arms.take(k as int), fv.arms[k as int]);
        }
        if !bytes_eq(&f.arms[k].variant, &noop) {
            let a = dup_arm(&f.arms[k]);
            arms.push(a);
            proof {
                assert(arms.deep_view() =~~= seq![arm.deep_view()] + (drop_noop_arms(
                    fv.arms.take(k as int),
                ) + seq![fv.arms[k as int]]));
                assert(arms.deep_view() =~~= seq![arm.deep_view()] + drop_noop_arms(
                    fv.arms.take(k + 1),
                ));
            }
        } else {
            proof {
                assert(drop_noop_arms(fv.arms.take(k + 1)) =~= drop_noop_arms(
                    fv.arms.take(k as int),
                ) + Seq::<ArmV>::empty());
                assert(drop_noop_arms(fv.arms.take(k + 1)) =~= drop_noop_arms(
                    fv.arms.take(k as int),
                ));
            }
        }
        k += 1;
    }
    proof {
        assert(fv.arms.take(f.arms@.len() as int) =~= fv.arms);
    }
    let r = DispatchFn {
        name: dup_bytes(&f.name),
        param: dup_bytes(&f.param),
        union_name: dup_bytes(&f.union_name),
        arms,
    };
    proof {
        assert(r.deep_view() =~~= sync_fn_v(fv, target@, arm.deep_view()));
    }
    r
}

/// Synchronize every dispatch function over the target union.
fn sync_tree(tree: SourceTree, target: &Vec<u8>, arm: &Arm) -> (r: SourceTree)
    ensures
        r.deep_view() == sync_tree_v(tree.deep_view(), target@, arm.deep_view()),
{
    broadcast use text_dv_lemmas;

    let ghost tv = tree.deep_view();
    let ghost goal = sync_tree_v(tv, target@, arm.deep_view());
    let mut decls = tree.decls;
    let mut out: Vec<Decl> = Vec::new();
    proof {
        assert(out.deep_view() =~~= goal.take(0));
        assert(decls.deep_view() =~~= tv.skip(0));
    }
    while decls.len() > 0
        invariant
            out@.len() + decls@.len() == tv.len(),
            tv.len() == goal.len(),
            goal == sync_tree_v(tv, target@, arm.deep_view()),
            out.deep_view() == goal.take(out@.len() as int),
            decls.deep_view() == tv.skip(out@.len() as int),
        decreases decls.len(),
    {
        broadcast use text_dv_lemmas;

        let ghost k = out@.len() as int;
        let ghost dv0 = decls.deep_view();
        let ghost dseq0 = decls@;
        let d = decls.remove(0);
        proof {
            assert(dv0[0] == tv[k]);
            assert(d.deep_view() == dseq0[0].deep_view());
            assert(d.deep_view() == tv[k]);
            assert(dseq0.remove(0) =~= dseq0.skip(1));
            assert(decls.deep_view() =~~= dv0.skip(1));
            assert(dv0.skip(1) =~~= tv.skip(k + 1));
            assert(goal[k] == sync_decl_v(tv[k], target@, arm.deep_view()));
        }
        match d {
            Decl::Dispatch(f) => {
                let f2 = sync_fn(&f, target, arm);
                out.push(Decl::Dispatch(f2));
                proof {
                    assert(out.deep_view() =~~= goal.take(k + 1));
                }
            },
            other => {
                out.push(other);
                proof {
                    assert(out.deep_view() =~~= goal.take(k + 1));
                }
            },
        }
    }
    proof {
        assert(goal.take(tv.len() as int) =~= goal);
    }
    SourceTree { decls: out }
}

pub proof fn lemma_find_union_found(t: TreeV, name: Seq<u8>, i: int)
    requires
        0 <= i <= t.len(),
    ensures
        i <= find_union_at(t, name, i) <= t.len(),
        find_union_at(t, name, i) < t.len() ==> {
            &&& t[find_union_at(t, name, i)] is Union
            &&& t[find_union_at(t, name, i)]->Union_0.name == name
        },
    decreases t.len() - i,
{
    if i < t.len() {
        if t[i] is Union && t[i]->Union_0.name == name {
        } else {
            lemma_find_union_found(t, name, i + 1);
        }
    }
}

pub proof fn lemma_find_fn_found(t: TreeV, name: Seq<u8>, target: Seq<u8>, i: int)
    requires
        0 <= i <= t.len(),
    ensures
        i <= find_fn_at(t, name, target, i) <= t.len(),
        find_fn_at(t, name, target, i) < t.len() ==> {
            &&& t[find_fn_at(t, name, target, i)] is Dispatch
            &&& t[find_fn_at(t, name, target, i)]->Dispatch_0.name == name
            &&& t[find_fn_at(t, name, target, i)]->Dispatch_0.union_name == target
        },
    decreases t.len() - i,
{
    if i < t.len() {
        if t[i] is Dispatch && t[i]->Dispatch_0.name == name && t[i]->Dispatch_0.union_name
            == target {
        } else {
            lemma_find_fn_found(t, name, target, i + 1);
        }
    }
}

/// Whether the union already holds a variant with this name.
pub fn union_has_variant(u: &UnionDecl, name: &Vec<u8>) -> (r: bool)
    ensures
        r == has_variant(u.deep_view(), name@),
{
    broadcast use text_dv_lemmas;

    let ghost uv = u.deep_view();
    let mut k: usize = 0;
    while k < u.variants.len()
        invariant
            k <= u.variants.len(),
            uv == u.deep_view(),
            forall|i: int| 0 <= i < k ==> uv.variants[i].name != name@,
        decreases u.variants.len() - k,
    {
        proof {
            assert(uv.variants[k as int] == u.variants@[k as int].deep_view());
        }
        if bytes_eq(&u.variants[k].name, name) {
            proof {
                assert(uv.variants[k as int].name == name@);
            }
            return true;
        }
        k += 1;
    }
    proof {
        if has_variant(uv, name@) {
            let i = choose|i: int| 0 <= i < uv.variants.len() && uv.variants[i].name == name@;
            assert(false);
        }
    }
    false
}

/// Append the new variant to the union, removing the placeholder when it
/// is all the union holds.
fn extend_union(u: UnionDecl, v: Variant) -> (r: UnionDecl)
    ensures
        r.deep_view() == extend_union_v(u.deep_view(), v.deep_view()),
{
    broadcast use text_dv_lemmas;

    let ghost uv = u.deep_view();
    let noop = word_noop();
    let mut only = true;
    let mut k: usize = 0;
    while k < u.variants.len()
        invariant
            k <= u.variants.len(),
            uv == u.deep_view(),
            noop@ == noop_name(),
            only == (forall|i: int| 0 <= i < k ==> uv.variants[i].name == noop_name()),
        decreases u.variants.len() - k,
    {
        proof {
            assert(uv.variants[k as int] == u.variants@[k as int].deep_view());
        }
        if !bytes_eq(&u.variants[k].name, &noop) {
            only = false;
        }
        k += 1;
    }
    proof {
        assert(only == only_placeholder(uv));
    }
    let mut variants = if only {
        Vec::new()
    } else {
        u.variants
    };
    variants.push(v);
    let r = UnionDecl { name: u.name, variants };
    proof {
        assert(r.deep_view() =~~= extend_union_v(uv, v.deep_view()));
    }
    r
}

/// Extend the type-declaration file: locate the union and its
/// verification dispatch function, reject duplicates, remove the
/// placeholder when it stands alone, append the variant, synchronize
/// every dispatch function, and print.
pub fn modify_tx_file(tx_text: &Vec<u8>, tx_name: &Vec<u8>, fields: &Vec<TransactionField>) -> (r:
    Result<Vec<u8>, EngineError>)
    requires
        is_ident(tx_name@),
        forall|i: int|
            0 <= i < fields.deep_view().len() ==> is_ident(
                (#[trigger] fields.deep_view()[i]).name,
            ),
    ensures
        ({
            let s = spec_modify_tx(tx_text@, tx_name@, fields.deep_view());
            match r {
                Ok(out) => s == Ok::<Seq<u8>, EngineError>(out@),
                Err(e) => s == Err::<Seq<u8>, EngineError>(e),
            }
        }),
{
    broadcast use text_dv_lemmas;

    let mut tree = match parse(tx_text) {
        Err(off) => {
            return Err(EngineError::Parse { offset: off });
        },
        Ok(t) => t,
    };
    let ghost tv = tree.deep_view();
    let target = word_union_type();
    let vname = word_verify();
    let ui = match find_union(&tree, &target) {
        None => {
            return Err(EngineError::SchemaNotFound);
        },
        Some(i) => i,
    };
    match find_function(&tree, &vname, &target) {
        None => {
            return Err(EngineError::SchemaNotFound);
        },
        Some(_) => {},
    }
    proof {
        lemma_find_union_found(tv, target@, 0);
        assert(tv[ui as int] is Union);
    }
    let ghost dseq0 = tree.decls@;
    let d = tree.decls.remove(ui);
    proof {
        assert(d.deep_view() == dseq0[ui as int].deep_view());
        assert(d.deep_view() == tv[ui as int]);
    }
    let u = match d {
        Decl::Union(u) => u,
        _ => {
            proof {
                assert(false);
            }
            return Err(EngineError::SchemaNotFound);
        },
    };
    proof {
        assert(tv[ui as int] == DeclV::Union(u.deep_view()));
        assert(tv[ui as int]->Union_0 == u.deep_view());
    }
    if union_has_variant(&u, tx_name) {
        return Err(EngineError::DuplicateVariant);
    }
    let (v, _substituted) = build_variant(tx_name, fields);
    let arm = build_arm(&v);
    let ghost uv = u.deep_view();
    let ghost vv = v.deep_view();
    let u2 = extend_union(u, v);
    let ghost dseq1 = tree.decls@;
    tree.decls.insert(ui, Decl::Union(u2));
    proof {
        assert(dseq1 =~= dseq0.remove(ui as int));
        assert(tree.decls@ =~= dseq1.insert(ui as int, Decl::Union(u2)));
        let goal = tv.update(ui as int, DeclV::Union(extend_union_v(uv, vv)));
        assert(tree.deep_view().len() == goal.len());
        assert forall|j: int| 0 <= j < goal.len() implies tree.deep_view()[j] == goal[j] by {
            assert(tree.deep_view()[j] == tree.decls@[j].deep_view());
            if j < ui as int {
                assert(tree.decls@[j] == dseq0[j]);
            } else if j == ui as int {
                assert(tree.decls@[j] == Decl::Union(u2));
                assert(u2.deep_view() == extend_union_v(uv, vv));
            } else {
                assert(tree.decls@[j] == dseq1[j - 1]);
                assert(dseq1[j - 1] == dseq0[j]);
            }
        }
        assert(tree.deep_view() =~~= goal);
    }
    let tree2 = sync_tree(tree, &target, &arm);
    let out = print(&tree2);
    proof {
        let s = spec_modify_tx(tx_text@, tx_name@, fields.deep_view());
        assert(tree2.deep_view() == sync_tree_v(
            tv.update(ui as int, DeclV::Union(extend_union_v(uv, vv))),
            union_type_name(),
            build_arm_v(vv),
        ));
        assert(s == Ok::<Seq<u8>, EngineError>(out@));
    }
    Ok(out)
}

/// Extend the logic file: locate the validation and processing dispatch
/// functions, synchronize every dispatch function, and print.
pub fn modify_state_file(
    state_text: &Vec<u8>,
    tx_name: &Vec<u8>,
    fields: &Vec<TransactionField>,
) -> (r: Result<Vec<u8>, EngineError>)
    requires
        is_ident(tx_name@),
        forall|i: int|
            0 <= i < fields.deep_view().len() ==> is_ident(
                (#[trigger] fields.deep_view()[i]).name,
            ),
    ensures
        ({
            let s = spec_modify_state(state_text@, tx_name@, fields.deep_view());
            match r {
                Ok(out) => s == Ok::<Seq<u8>, EngineError>(out@),
                Err(e) => s == Err::<Seq<u8>, EngineError>(e),
            }
        }),
{
    broadcast use text_dv_lemmas;

    let tree = match parse(state_text) {
        Err(off) => {
            return Err(EngineError::Parse { offset: off });
        },
        Ok(t) => t,
    };
    let target = word_union_type();
    let vname = word_validate_tx();
    let pname = word_process_tx();
    match find_function(&tree, &vname, &target) {
        None => {
            return Err(EngineError::SchemaNotFound);
        },
        Some(_) => {},
    }
    match find_function(&tree, &pname, &target) {
        None => {
            return Err(EngineError::SchemaNotFound);
        },
        Some(_) => {},
    }
    let (v, _substituted) = build_variant(tx_name, fields);
    let arm = build_arm(&v);
    let tree2 = sync_tree(tree, &target, &arm);
    let out = print(&tree2);
    Ok(out)
}

/// The extended texts of the two files, with a warning flag set when any
/// caller-supplied type text was replaced by the default scalar.
#[derive(Debug)]
pub struct Extension {
    pub tx_text: Vec<u8>,
    pub state_text: Vec<u8>,
    pub type_defaulted: bool,
}

/// Extend the file pair.  Nothing is produced unless both texts succeed,
/// so a caller that writes only on success leaves both files untouched on
/// any error.
pub fn create_transaction(
    tx_text: &Vec<u8>,
    state_text: &Vec<u8>,
    tx_name: &Vec<u8>,
    fields: &Vec<TransactionField>,
) -> (r: Result<Extension, EngineError>)
    requires
        is_ident(tx_name@),
        forall|i: int|
            0 <= i < fields.deep_view().len() ==> is_ident(
                (#[trigger] fields.deep_view()[i]).name,
            ),
    ensures
        ({
            let s = spec_create_transaction(tx_text@, state_text@, tx_name@, fields.deep_view());
            match r {
                Ok(ext) => {
                    &&& s == Ok::<(Seq<u8>, Seq<u8>), EngineError>((ext.tx_text@, ext.state_text@))
                    &&& ext.type_defaulted == exists|i: int|
                        0 <= i < fields.deep_view().len() && !is_type_ref(
                            #[trigger] fields.deep_view()[i].ty,
                        )
                },
                Err(e) => s == Err::<(Seq<u8>, Seq<u8>), EngineError>(e),
            }
        }),
{
    let tx_out = match modify_tx_file(tx_text, tx_name, fields) {
        Err(e) => {
            return Err(e);
        },
        Ok(out) => out,
    };
    let state_out = match modify_state_file(state_text, tx_name, fields) {
        Err(e) => {
            return Err(e);
        },
        Ok(out) => out,
    };
    let substituted = any_type_defaulted(fields);
    Ok(Extension { tx_text: tx_out, state_text: state_out, type_defaulted: substituted })
}

/// Whether any caller-supplied type text fails to parse as a type
/// reference, so the default scalar will stand in for it.
fn any_type_defaulted(fields: &Vec<TransactionField>) -> (r: bool)
    ensures
        r == exists|i: int|
            0 <= i < fields.deep_view().len() && !is_type_ref(
                #[trigger] fields.deep_view()[i].ty,
            ),
{
    broadcast use text_dv_lemmas;

    let ghost fv = fields.deep_view();
    let mut k: usize = 0;
    while k < fields.len()
        invariant
            k <= fields.len(),
            fv == fields.deep_view(),
            forall|i: int| 0 <= i < k ==> is_type_ref(#[trigger] fv[i].ty),
        decreases fields.len() - k,
    {
        proof {
            assert(fv[k as int] == fields@[k as int].deep_view());
        }
        if !check_ident(&fields[k].field_type) {
            proof {
                assert(!is_type_ref(fv[k as int].ty));
            }
            return true;
        }
        k += 1;
    }
    proof {
        if exists|i: int| 0 <= i < fv.len() && !is_type_ref(#[trigger] fv[i].ty) {
            let i = choose|i: int| 0 <= i < fv.len() && !is_type_ref(#[trigger] fv[i].ty);
            assert(is_type_ref(fv[i].ty));
        }
    }
    false
}

} // verus!
