//! The engine's behavioral guarantees, stated and proved over the tree
//! transformations: exhaustiveness of every dispatch function, placeholder
//! elimination, duplicate rejection, field-order preservation, and
//! uniqueness of variant names.

use vstd::prelude::*;
use crate::ast::{ArmV, DeclV, FieldV, FnV, TreeV, UnionV, VariantV};
use crate::engine::{
    build_arm_v, build_variant_v, drop_noop_arms, extend_union_v, find_fn_idx, find_union_idx,
    has_variant, noop_name, only_placeholder, spec_create_transaction, state_transform, sync_decl_v,
    sync_fn_v, sync_tree_v, tx_transform, union_type_name, verify_fn_name, EngineError,
};
use crate::parser::parse_text;

verus! {

pub open spec fn arms_have(arms: Seq<ArmV>, n: Seq<u8>) -> bool {
    exists|i: int| 0 <= i < arms.len() && arms[i].variant == n
}

pub open spec fn arm_has(f: FnV, n: Seq<u8>) -> bool {
    arms_have(f.arms, n)
}

/// The exhaustiveness relation: a dispatch function covers exactly the
/// variant names of the union.
pub open spec fn fn_covers(f: FnV, u: UnionV) -> bool {
    forall|n: Seq<u8>| #[trigger] arm_has(f, n) <==> has_variant(u, n)
}

pub open spec fn dispatches_over(d: DeclV, target: Seq<u8>) -> bool {
    d is Dispatch && d->Dispatch_0.union_name == target
}

/// Every dispatch function over the union's name covers the union.
pub open spec fn tree_covers(t: TreeV, u: UnionV) -> bool {
    forall|i: int|
        0 <= i < t.len() && dispatches_over(#[trigger] t[i], u.name) ==> fn_covers(
            t[i]->Dispatch_0,
            u,
        )
}

/// The placeholder exists only while it is the only variant.
pub open spec fn placeholder_alone(u: UnionV) -> bool {
    has_variant(u, noop_name()) ==> u.variants.len() == 1
}

pub open spec fn unique_variant_names(u: UnionV) -> bool {
    forall|i: int, j: int|
        0 <= i < j < u.variants.len() ==> u.variants[i].name != u.variants[j].name
}

pub proof fn lemma_arms_have_cons(a: ArmV, rest: Seq<ArmV>, n: Seq<u8>)
    ensures
        arms_have(seq![a] + rest, n) <==> (a.variant == n || arms_have(rest, n)),
{
    let s = seq![a] + rest;
    if arms_have(s, n) {
        let i = choose|i: int| 0 <= i < s.len() && s[i].variant == n;
        if i == 0 {
            assert(a.variant == n);
        } else {
            assert(rest[i - 1].variant == n);
            assert(arms_have(rest, n));
        }
    }
    if a.variant == n {
        assert(s[0].variant == n);
        assert(arms_have(s, n));
    }
    if arms_have(rest, n) {
        let i = choose|i: int| 0 <= i < rest.len() && rest[i].variant == n;
        assert(s[i + 1].variant == n);
        assert(arms_have(s, n));
    }
}

pub proof fn lemma_arms_have_skip(arms: Seq<ArmV>, n: Seq<u8>)
    requires
        arms.len() > 0,
    ensures
        arms_have(arms, n) <==> (arms[0].variant == n || arms_have(arms.skip(1), n)),
{
    if arms_have(arms, n) {
        let i = choose|i: int| 0 <= i < arms.len() && arms[i].variant == n;
        if i > 0 {
            assert(arms.skip(1)[i - 1].variant == n);
            assert(arms_have(arms.skip(1), n));
        }
    }
    if arms_have(arms.skip(1), n) {
        let i = choose|i: int| 0 <= i < arms.skip(1).len() && arms.skip(1)[i].variant == n;
        assert(arms[i + 1].variant == n);
        assert(arms_have(arms, n));
    }
}

/// Membership after placeholder-arm removal: exactly the old names other
/// than the placeholder's.
pub proof fn lemma_drop_noop_membership(arms: Seq<ArmV>, n: Seq<u8>)
    ensures
        arms_have(drop_noop_arms(arms), n) <==> (arms_have(arms, n) && n != noop_name()),
    decreases arms.len(),
{
    if arms.len() == 0 {
        assert(!arms_have(arms, n));
        assert(!arms_have(drop_noop_arms(arms), n));
    } else {
        lemma_drop_noop_membership(arms.skip(1), n);
        lemma_arms_have_skip(arms, n);
        if arms[0].variant == noop_name() {
            if arms_have(drop_noop_arms(arms), n) {
                assert(arms_have(arms.skip(1), n) && n != noop_name());
            }
        } else {
            lemma_arms_have_cons(arms[0], drop_noop_arms(arms.skip(1)), n);
        }
    }
}

pub proof fn lemma_has_variant_push(base: Seq<VariantV>, v: VariantV, name2: Seq<u8>, n: Seq<u8>)
    ensures
        has_variant(UnionV { name: name2, variants: base.push(v) }, n) <==> (v.name == n
            || has_variant(UnionV { name: name2, variants: base }, n)),
{
    let u2 = UnionV { name: name2, variants: base.push(v) };
    let u1 = UnionV { name: name2, variants: base };
    if has_variant(u2, n) {
        let i = choose|i: int| 0 <= i < u2.variants.len() && u2.variants[i].name == n;
        if i < base.len() {
            assert(u1.variants[i].name == n);
            assert(has_variant(u1, n));
        } else {
            assert(v.name == n);
        }
    }
    if v.name == n {
        assert(u2.variants[base.len() as int].name == n);
        assert(has_variant(u2, n));
    }
    if has_variant(u1, n) {
        let i = choose|i: int| 0 <= i < base.len() && base[i].name == n;
        assert(u2.variants[i].name == n);
        assert(has_variant(u2, n));
    }
}

/// Synchronizing one covering dispatch function keeps it covering the
/// extended union.
pub proof fn lemma_sync_covers(f: FnV, u: UnionV, name: Seq<u8>, fields: Seq<FieldV>)
    requires
        fn_covers(f, u),
        f.union_name == u.name,
        placeholder_alone(u),
        !has_variant(u, name),
    ensures
        fn_covers(
            sync_fn_v(f, u.name, build_arm_v(build_variant_v(name, fields))),
            extend_union_v(u, build_variant_v(name, fields)),
        ),
{
    let v = build_variant_v(name, fields);
    let arm = build_arm_v(v);
    let f2 = sync_fn_v(f, u.name, arm);
    let u2 = extend_union_v(u, v);
    let base: Seq<VariantV> = if only_placeholder(u) {
        Seq::<VariantV>::empty()
    } else {
        u.variants
    };
    assert(f2.arms == seq![arm] + drop_noop_arms(f.arms));
    assert forall|n: Seq<u8>| #[trigger] arm_has(f2, n) <==> has_variant(u2, n) by {
        lemma_arms_have_cons(arm, drop_noop_arms(f.arms), n);
        lemma_drop_noop_membership(f.arms, n);
        lemma_has_variant_push(base, v, u.name, n);
        assert(arm_has(f2, n) <==> (n == name || (arm_has(f, n) && n != noop_name())));
        assert(arm_has(f, n) <==> has_variant(u, n));
        if only_placeholder(u) {
            if has_variant(u, n) {
                let i = choose|i: int| 0 <= i < u.variants.len() && u.variants[i].name == n;
                assert(n == noop_name());
            }
            assert(!has_variant(UnionV { name: u.name, variants: base }, n));
        } else {
            assert(!has_variant(u, noop_name())) by {
                if has_variant(u, noop_name()) {
                    assert(u.variants.len() == 1);
                    let i = choose|i: int|
                        0 <= i < u.variants.len() && u.variants[i].name == noop_name();
                    assert(i == 0);
                    assert(only_placeholder(u));
                }
            }
            assert(has_variant(UnionV { name: u.name, variants: base }, n) == has_variant(u, n));
        }
    }
}

/// Exhaustiveness preserved: after a successful extension of both trees,
/// every dispatch function over the union covers exactly the extended
/// union's variant names, in the type-declaration tree and the logic tree
/// alike.
pub proof fn lemma_exhaustiveness_preserved(
    t: TreeV,
    st: TreeV,
    name: Seq<u8>,
    fields: Seq<FieldV>,
)
    requires
        tx_transform(t, name, fields) is Ok,
        state_transform(st, name, fields) is Ok,
        tree_covers(t, t[find_union_idx(t, union_type_name())]->Union_0),
        tree_covers(st, t[find_union_idx(t, union_type_name())]->Union_0),
        placeholder_alone(t[find_union_idx(t, union_type_name())]->Union_0),
    ensures
        ({
            let u = t[find_union_idx(t, union_type_name())]->Union_0;
            let v = build_variant_v(name, fields);
            let u2 = extend_union_v(u, v);
            let t2 = tx_transform(t, name, fields)->Ok_0;
            let st2 = state_transform(st, name, fields)->Ok_0;
            &&& tree_covers(t2, u2)
            &&& tree_covers(st2, u2)
        }),
{
    let ui = find_union_idx(t, union_type_name());
    crate::engine::lemma_find_union_found(t, union_type_name(), 0);
    let u = t[ui]->Union_0;
    let v = build_variant_v(name, fields);
    let arm = build_arm_v(v);
    let u2 = extend_union_v(u, v);
    let t1 = t.update(ui, DeclV::Union(u2));
    let t2 = tx_transform(t, name, fields)->Ok_0;
    let st2 = state_transform(st, name, fields)->Ok_0;
    assert(u2.name == u.name);
    assert(u.name == union_type_name());
    assert(t2 == sync_tree_v(t1, union_type_name(), arm));
    assert forall|i: int|
        0 <= i < t2.len() && dispatches_over(#[trigger] t2[i], u2.name) implies fn_covers(
        t2[i]->Dispatch_0,
        u2,
    ) by {
        assert(t2[i] == sync_decl_v(t1[i], union_type_name(), arm));
        assert(i != ui);
        assert(t1[i] == t[i]);
        assert(t[i] is Dispatch);
        let f = t[i]->Dispatch_0;
        assert(f.union_name == u.name);
        assert(dispatches_over(t[i], u.name));
        assert(fn_covers(f, u));
        lemma_sync_covers(f, u, name, fields);
    }
    assert forall|i: int|
        0 <= i < st2.len() && dispatches_over(#[trigger] st2[i], u2.name) implies fn_covers(
        st2[i]->Dispatch_0,
        u2,
    ) by {
        assert(st2[i] == sync_decl_v(st[i], union_type_name(), arm));
        assert(st[i] is Dispatch);
        let f = st[i]->Dispatch_0;
        assert(f.union_name == u.name);
        assert(dispatches_over(st[i], u.name));
        assert(fn_covers(f, u));
        lemma_sync_covers(f, u, name, fields);
    }
}

/// Placeholder elimination: when the union held only the placeholder, a
/// successful extension leaves neither a placeholder variant nor a
/// placeholder arm anywhere.
pub proof fn lemma_placeholder_elimination(t: TreeV, st: TreeV, name: Seq<u8>, fields: Seq<FieldV>)
    requires
        tx_transform(t, name, fields) is Ok,
        state_transform(st, name, fields) is Ok,
        only_placeholder(t[find_union_idx(t, union_type_name())]->Union_0),
        t[find_union_idx(t, union_type_name())]->Union_0.variants.len() >= 1,
    ensures
        ({
            let t2 = tx_transform(t, name, fields)->Ok_0;
            let st2 = state_transform(st, name, fields)->Ok_0;
            let ui = find_union_idx(t, union_type_name());
            &&& !has_variant(t2[ui]->Union_0, noop_name())
            &&& forall|i: int|
                0 <= i < t2.len() && dispatches_over(#[trigger] t2[i], union_type_name())
                    ==> !arm_has(t2[i]->Dispatch_0, noop_name())
            &&& forall|i: int|
                0 <= i < st2.len() && dispatches_over(#[trigger] st2[i], union_type_name())
                    ==> !arm_has(st2[i]->Dispatch_0, noop_name())
        }),
{
    let ui = find_union_idx(t, union_type_name());
    crate::engine::lemma_find_union_found(t, union_type_name(), 0);
    let u = t[ui]->Union_0;
    let v = build_variant_v(name, fields);
    let arm = build_arm_v(v);
    let u2 = extend_union_v(u, v);
    let t1 = t.update(ui, DeclV::Union(u2));
    let t2 = tx_transform(t, name, fields)->Ok_0;
    let st2 = state_transform(st, name, fields)->Ok_0;
    assert(u.variants[0].name == noop_name());
    assert(has_variant(u, noop_name()));
    assert(!has_variant(u, name));
    assert(name != noop_name());
    assert(u2.variants =~= Seq::<VariantV>::empty().push(v));
    assert(!has_variant(u2, noop_name())) by {
        if has_variant(u2, noop_name()) {
            let i = choose|i: int| 0 <= i < u2.variants.len() && u2.variants[i].name == noop_name();
            assert(i == 0);
            assert(v.name == noop_name());
        }
    }
    assert(t2 == sync_tree_v(t1, union_type_name(), arm));
    assert(t2[ui] == sync_decl_v(t1[ui], union_type_name(), arm));
    assert(t2[ui]->Union_0 == u2);
    assert forall|i: int|
        0 <= i < t2.len() && dispatches_over(#[trigger] t2[i], union_type_name())
            implies !arm_has(t2[i]->Dispatch_0, noop_name()) by {
        assert(t2[i] == sync_decl_v(t1[i], union_type_name(), arm));
        let f2 = t2[i]->Dispatch_0;
        assert(f2.arms == seq![arm] + drop_noop_arms(t1[i]->Dispatch_0.arms));
        lemma_arms_have_cons(arm, drop_noop_arms(t1[i]->Dispatch_0.arms), noop_name());
        lemma_drop_noop_membership(t1[i]->Dispatch_0.arms, noop_name());
    }
    assert forall|i: int|
        0 <= i < st2.len() && dispatches_over(#[trigger] st2[i], union_type_name())
            implies !arm_has(st2[i]->Dispatch_0, noop_name()) by {
        assert(st2[i] == sync_decl_v(st[i], union_type_name(), arm));
        let f2 = st2[i]->Dispatch_0;
        assert(f2.arms == seq![arm] + drop_noop_arms(st[i]->Dispatch_0.arms));
        lemma_arms_have_cons(arm, drop_noop_arms(st[i]->Dispatch_0.arms), noop_name());
        lemma_drop_noop_membership(st[i]->Dispatch_0.arms, noop_name());
    }
}

/// Duplicate rejection: the whole extension fails with exactly the
/// duplicate error precisely when the located union already has the name;
/// since no output text exists on failure, a caller that writes only on
/// success leaves both files byte-for-byte unchanged.
pub proof fn lemma_duplicate_rejection(
    tx_text: Seq<u8>,
    state_text: Seq<u8>,
    name: Seq<u8>,
    fields: Seq<FieldV>,
)
    ensures
        (spec_create_transaction(tx_text, state_text, name, fields) == Err::<
            (Seq<u8>, Seq<u8>),
            EngineError,
        >(EngineError::DuplicateVariant)) <==> (parse_text(tx_text) is Some && {
            let t = parse_text(tx_text)->Some_0;
            let ui = find_union_idx(t, union_type_name());
            &&& ui < t.len()
            &&& find_fn_idx(t, verify_fn_name(), union_type_name()) < t.len()
            &&& has_variant(t[ui]->Union_0, name)
        }),
{
    match parse_text(tx_text) {
        None => {},
        Some(t) => {
            crate::engine::lemma_find_union_found(t, union_type_name(), 0);
            crate::engine::lemma_find_fn_found(t, verify_fn_name(), union_type_name(), 0);
            match tx_transform(t, name, fields) {
                Err(e) => {},
                Ok(t2) => {
                    match parse_text(state_text) {
                        None => {},
                        Some(st) => {
                            assert(state_transform(st, name, fields) != Err::<TreeV, EngineError>(
                                EngineError::DuplicateVariant,
                            ));
                        },
                    }
                },
            }
        },
    }
}

/// Field order preserved: the new variant's fields stand in caller order,
/// and in both trees every synchronized dispatch function starts with an
/// arm that binds exactly those field names in that order.
pub proof fn lemma_field_order_preserved(t: TreeV, st: TreeV, name: Seq<u8>, fields: Seq<FieldV>)
    requires
        tx_transform(t, name, fields) is Ok,
        state_transform(st, name, fields) is Ok,
    ensures
        ({
            let t2 = tx_transform(t, name, fields)->Ok_0;
            let st2 = state_transform(st, name, fields)->Ok_0;
            let ui = find_union_idx(t, union_type_name());
            let u2 = t2[ui]->Union_0;
            let v = u2.variants.last();
            &&& u2.variants.len() >= 1
            &&& v.name == name
            &&& v.fields.len() == fields.len()
            &&& forall|k: int| 0 <= k < fields.len() ==> (#[trigger] v.fields[k]).name
                == fields[k].name
            &&& forall|i: int|
                0 <= i < t2.len() && dispatches_over(#[trigger] t2[i], union_type_name()) ==> {
                    let arms = t2[i]->Dispatch_0.arms;
                    &&& arms.len() >= 1
                    &&& arms[0].variant == name
                    &&& arms[0].bindings.len() == fields.len()
                    &&& forall|k: int| 0 <= k < fields.len() ==> #[trigger] arms[0].bindings[k]
                        == fields[k].name
                }
            &&& forall|i: int|
                0 <= i < st2.len() && dispatches_over(#[trigger] st2[i], union_type_name()) ==> {
                    let arms = st2[i]->Dispatch_0.arms;
                    &&& arms.len() >= 1
                    &&& arms[0].variant == name
                    &&& arms[0].bindings.len() == fields.len()
                    &&& forall|k: int| 0 <= k < fields.len() ==> #[trigger] arms[0].bindings[k]
                        == fields[k].name
                }
        }),
{
    let ui = find_union_idx(t, union_type_name());
    crate::engine::lemma_find_union_found(t, union_type_name(), 0);
    let u = t[ui]->Union_0;
    let v = build_variant_v(name, fields);
    let arm = build_arm_v(v);
    let u2 = extend_union_v(u, v);
    let t1 = t.update(ui, DeclV::Union(u2));
    let t2 = tx_transform(t, name, fields)->Ok_0;
    let st2 = state_transform(st, name, fields)->Ok_0;
    assert(t2 == sync_tree_v(t1, union_type_name(), arm));
    assert(t2[ui] == sync_decl_v(t1[ui], union_type_name(), arm));
    assert(t2[ui]->Union_0 == u2);
    assert(u2.variants.last() == v);
    assert forall|i: int|
        0 <= i < t2.len() && dispatches_over(#[trigger] t2[i], union_type_name()) implies {
        let arms = t2[i]->Dispatch_0.arms;
        &&& arms.len() >= 1
        &&& arms[0].variant == name
        &&& arms[0].bindings.len() == fields.len()
        &&& forall|k: int| 0 <= k < fields.len() ==> #[trigger] arms[0].bindings[k]
            == fields[k].name
    } by {
        assert(t2[i] == sync_decl_v(t1[i], union_type_name(), arm));
        let arms = t2[i]->Dispatch_0.arms;
        assert(arms == seq![arm] + drop_noop_arms(t1[i]->Dispatch_0.arms));
        assert(arms[0] == arm);
    }
    assert forall|i: int|
        0 <= i < st2.len() && dispatches_over(#[trigger] st2[i], union_type_name()) implies {
        let arms = st2[i]->Dispatch_0.arms;
        &&& arms.len() >= 1
        &&& arms[0].variant == name
        &&& arms[0].bindings.len() == fields.len()
        &&& forall|k: int| 0 <= k < fields.len() ==> #[trigger] arms[0].bindings[k]
            == fields[k].name
    } by {
        assert(st2[i] == sync_decl_v(st[i], union_type_name(), arm));
        let arms = st2[i]->Dispatch_0.arms;
        assert(arms == seq![arm] + drop_noop_arms(st[i]->Dispatch_0.arms));
        assert(arms[0] == arm);
    }
}

/// The union's invariant survives extension: variant names stay unique.
pub proof fn lemma_uniqueness_preserved(t: TreeV, name: Seq<u8>, fields: Seq<FieldV>)
    requires
        tx_transform(t, name, fields) is Ok,
        unique_variant_names(t[find_union_idx(t, union_type_name())]->Union_0),
    ensures
        ({
            let t2 = tx_transform(t, name, fields)->Ok_0;
            let ui = find_union_idx(t, union_type_name());
            unique_variant_names(t2[ui]->Union_0)
        }),
{
    let ui = find_union_idx(t, union_type_name());
    crate::engine::lemma_find_union_found(t, union_type_name(), 0);
    let u = t[ui]->Union_0;
    let v = build_variant_v(name, fields);
    let arm = build_arm_v(v);
    let u2 = extend_union_v(u, v);
    let t1 = t.update(ui, DeclV::Union(u2));
    let t2 = tx_transform(t, name, fields)->Ok_0;
    assert(t2 == sync_tree_v(t1, union_type_name(), arm));
    assert(t2[ui] == sync_decl_v(t1[ui], union_type_name(), arm));
    assert(t2[ui]->Union_0 == u2);
    let base: Seq<VariantV> = if only_placeholder(u) {
        Seq::<VariantV>::empty()
    } else {
        u.variants
    };
    assert(!has_variant(u, name));
    assert forall|i: int, j: int|
        0 <= i < j < u2.variants.len() implies u2.variants[i].name != u2.variants[j].name by {
        if j < base.len() {
            assert(u.variants[i].name != u.variants[j].name);
        } else {
            assert(u2.variants[j] == v);
            assert(u2.variants[i] == base[i]);
            if !only_placeholder(u) {
                assert(base[i] == u.variants[i]);
                if u.variants[i].name == name {
                    assert(has_variant(u, name));
                }
            }
        }
    }
}

pub proof fn lemma_wf_drop_noop(arms: Seq<ArmV>)
    requires
        forall|i: int| 0 <= i < arms.len() ==> crate::ast::wf_arm(#[trigger] arms[i]),
    ensures
        forall|i: int|
            0 <= i < drop_noop_arms(arms).len() ==> crate::ast::wf_arm(
                #[trigger] drop_noop_arms(arms)[i],
            ),
    decreases arms.len(),
{
    if arms.len() == 0 {
    } else {
        assert(forall|i: int|
            0 <= i < arms.skip(1).len() ==> crate::ast::wf_arm(#[trigger] arms.skip(1)[i]));
        lemma_wf_drop_noop(arms.skip(1));
        let d = drop_noop_arms(arms);
        assert forall|i: int| 0 <= i < d.len() implies crate::ast::wf_arm(#[trigger] d[i]) by {
            if arms[0].variant == noop_name() {
                assert(d == drop_noop_arms(arms.skip(1)));
            } else {
                assert(d == seq![arms[0]] + drop_noop_arms(arms.skip(1)));
                if i == 0 {
                    assert(d[0] == arms[0]);
                } else {
                    assert(d[i] == drop_noop_arms(arms.skip(1))[i - 1]);
                }
            }
        }
    }
}

pub proof fn lemma_wf_built(name: Seq<u8>, fields: Seq<FieldV>)
    requires
        crate::ast::is_ident(name),
        forall|i: int|
            0 <= i < fields.len() ==> crate::ast::is_ident((#[trigger] fields[i]).name),
    ensures
        crate::ast::wf_variant(build_variant_v(name, fields)),
        crate::ast::wf_arm(build_arm_v(build_variant_v(name, fields))),
{
    let dt = crate::engine::default_type_name();
    assert(crate::ast::is_ident(dt)) by {
        assert(dt[0] == 83 && dt[1] == 116 && dt[2] == 114 && dt[3] == 105 && dt[4] == 110
            && dt[5] == 103);
        assert(forall|i: int| 0 <= i < dt.len() ==> crate::ast::is_ident_byte(#[trigger] dt[i]))
            by {
            assert(dt.len() == 6);
        }
    }
    crate::roundtrip::lemma_ident_not_token(dt);
    crate::ast::lemma_ident_is_plain(dt);
    let ab = crate::engine::accept_body();
    assert(crate::ast::is_ident(ab)) by {
        assert(ab[0] == 97 && ab[1] == 99 && ab[2] == 99 && ab[3] == 101 && ab[4] == 112 && ab[5]
            == 116);
        assert(forall|i: int| 0 <= i < ab.len() ==> crate::ast::is_ident_byte(#[trigger] ab[i]))
            by {
            assert(ab.len() == 6);
        }
    }
    crate::ast::lemma_ident_is_plain(ab);
    let v = build_variant_v(name, fields);
    assert forall|i: int| 0 <= i < v.fields.len() implies crate::ast::wf_field(
        #[trigger] v.fields[i],
    ) by {
        assert(v.fields[i] == crate::engine::build_field_v(fields[i].name, fields[i].ty));
        if crate::engine::is_type_ref(fields[i].ty) {
            crate::ast::lemma_ident_is_plain(fields[i].ty);
        }
    }
    let a = build_arm_v(v);
    assert forall|i: int| 0 <= i < a.bindings.len() implies crate::ast::is_ident(
        #[trigger] a.bindings[i],
    ) by {
        assert(a.bindings[i] == v.fields[i].name);
        assert(v.fields[i].name == fields[i].name);
    }
}

pub proof fn lemma_wf_sync_fn(f: FnV, target: Seq<u8>, arm: ArmV)
    requires
        crate::ast::wf_fn(f),
        crate::ast::wf_arm(arm),
    ensures
        crate::ast::wf_fn(sync_fn_v(f, target, arm)),
{
    if f.union_name == target {
        lemma_wf_drop_noop(f.arms);
        let arms2 = seq![arm] + drop_noop_arms(f.arms);
        assert(arms2[0] == arm);
        assert(forall|i: int|
            1 <= i < arms2.len() ==> arms2[i] == #[trigger] drop_noop_arms(f.arms)[i - 1]);
        assert(forall|i: int| 0 <= i < arms2.len() ==> crate::ast::wf_arm(#[trigger] arms2[i]));
    }
}

/// A successful extension of well-formed trees yields well-formed trees,
/// so both printed outputs parse back to exactly the extended trees: the
/// engine's own output is always a fixed point of parse-then-print.
pub proof fn lemma_extension_reparses(t: TreeV, st: TreeV, name: Seq<u8>, fields: Seq<FieldV>)
    requires
        crate::parser::wf_tree(t),
        crate::parser::wf_tree(st),
        tx_transform(t, name, fields) is Ok,
        state_transform(st, name, fields) is Ok,
        crate::ast::is_ident(name),
        forall|i: int|
            0 <= i < fields.len() ==> crate::ast::is_ident((#[trigger] fields[i]).name),
    ensures
        ({
            let t2 = tx_transform(t, name, fields)->Ok_0;
            let st2 = state_transform(st, name, fields)->Ok_0;
            &&& crate::parser::wf_tree(t2)
            &&& crate::parser::wf_tree(st2)
            &&& parse_text(crate::printer::print_text(t2)) == Some(t2)
            &&& parse_text(crate::printer::print_text(st2)) == Some(st2)
        }),
{
    let ui = find_union_idx(t, union_type_name());
    crate::engine::lemma_find_union_found(t, union_type_name(), 0);
    let u = t[ui]->Union_0;
    let v = build_variant_v(name, fields);
    let arm = build_arm_v(v);
    let u2 = extend_union_v(u, v);
    let t1 = t.update(ui, DeclV::Union(u2));
    let t2 = tx_transform(t, name, fields)->Ok_0;
    let st2 = state_transform(st, name, fields)->Ok_0;
    lemma_wf_built(name, fields);
    assert(crate::ast::wf_union(u2)) by {
        assert(crate::parser::wf_decl(t[ui]));
        assert(crate::ast::wf_union(u));
        let base: Seq<VariantV> = if crate::engine::only_placeholder(u) {
            Seq::<VariantV>::empty()
        } else {
            u.variants
        };
        assert forall|i: int| 0 <= i < u2.variants.len() implies crate::ast::wf_variant(
            #[trigger] u2.variants[i],
        ) by {
            if i < base.len() {
                assert(u2.variants[i] == u.variants[i]);
            } else {
                assert(u2.variants[i] == v);
            }
        }
    }
    assert(t2 == sync_tree_v(t1, union_type_name(), arm));
    assert forall|i: int| 0 <= i < t2.len() implies crate::parser::wf_decl(#[trigger] t2[i]) by {
        assert(t2[i] == sync_decl_v(t1[i], union_type_name(), arm));
        if i == ui {
            assert(t2[i] == DeclV::Union(u2));
        } else {
            assert(t1[i] == t[i]);
            assert(crate::parser::wf_decl(t[i]));
            match t[i] {
                DeclV::Dispatch(f) => {
                    lemma_wf_sync_fn(f, union_type_name(), arm);
                },
                _ => {},
            }
        }
    }
    assert(crate::parser::wf_tree(t2));
    assert forall|i: int| 0 <= i < st2.len() implies crate::parser::wf_decl(#[trigger] st2[i]) by {
        assert(st2[i] == sync_decl_v(st[i], union_type_name(), arm));
        assert(crate::parser::wf_decl(st[i]));
        match st[i] {
            DeclV::Dispatch(f) => {
                lemma_wf_sync_fn(f, union_type_name(), arm);
            },
            _ => {},
        }
    }
    assert(crate::parser::wf_tree(st2));
    crate::roundtrip::lemma_rt_tree(t2);
    crate::roundtrip::lemma_rt_tree(st2);
}

} // verus!
