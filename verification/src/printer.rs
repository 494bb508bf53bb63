//! Canonical printing: each declaration becomes one line, the words of a
//! recognized declaration joined by single spaces, opaque declarations
//! kept verbatim.  The style is fixed and independent of input whitespace.

use vstd::prelude::*;
use crate::ast::{
    is_word, kw_fn, kw_match, kw_union, wd_arrow, wd_colon, wd_comma, wd_lbrace, wd_lparen,
    wd_rbrace, wd_rparen, wf_arm, wf_field, wf_fn, wf_union, wf_variant, ArmV, Decl, DeclV,
    DispatchFn, FieldV, FnV, SourceTree, TreeV, UnionDecl, UnionV, Variant, VariantV,
};
use crate::text::{
    dup_bytes, dvs, join_pieces, join_with, no_byte, text_dv_lemmas, unwords, NEWLINE, SPACE,
};

verus! {

pub open spec fn pw_field(f: FieldV) -> Seq<Seq<u8>> {
    seq![f.name, wd_colon(), f.ty]
}

pub open spec fn pw_field_list(fs: Seq<FieldV>) -> Seq<Seq<u8>>
    decreases fs.len(),
{
    if fs.len() == 0 {
        Seq::<Seq<u8>>::empty()
    } else if fs.len() == 1 {
        pw_field(fs[0])
    } else {
        pw_field(fs[0]) + seq![wd_comma()] + pw_field_list(fs.skip(1))
    }
}

pub open spec fn pw_variant(v: VariantV) -> Seq<Seq<u8>> {
    if v.fields.len() == 0 {
        seq![v.name]
    } else {
        seq![v.name, wd_lbrace()] + pw_field_list(v.fields) + seq![wd_rbrace()]
    }
}

pub open spec fn pw_variant_list(vs: Seq<VariantV>) -> Seq<Seq<u8>>
    decreases vs.len(),
{
    if vs.len() == 0 {
        Seq::<Seq<u8>>::empty()
    } else {
        pw_variant(vs[0]) + seq![wd_comma()] + pw_variant_list(vs.skip(1))
    }
}

pub open spec fn pw_union(u: UnionV) -> Seq<Seq<u8>> {
    seq![kw_union(), u.name, wd_lbrace()] + pw_variant_list(u.variants) + seq![wd_rbrace()]
}

pub open spec fn pw_binding_list(bs: Seq<Seq<u8>>) -> Seq<Seq<u8>>
    decreases bs.len(),
{
    if bs.len() == 0 {
        Seq::<Seq<u8>>::empty()
    } else if bs.len() == 1 {
        seq![bs[0]]
    } else {
        seq![bs[0], wd_comma()] + pw_binding_list(bs.skip(1))
    }
}

pub open spec fn pw_arm(a: ArmV) -> Seq<Seq<u8>> {
    (if a.bindings.len() == 0 {
        seq![a.variant]
    } else {
        seq![a.variant, wd_lbrace()] + pw_binding_list(a.bindings) + seq![wd_rbrace()]
    }) + seq![wd_arrow(), a.body]
}

pub open spec fn pw_arm_list(arms: Seq<ArmV>) -> Seq<Seq<u8>>
    decreases arms.len(),
{
    if arms.len() == 0 {
        Seq::<Seq<u8>>::empty()
    } else {
        pw_arm(arms[0]) + seq![wd_comma()] + pw_arm_list(arms.skip(1))
    }
}

pub open spec fn pw_fn(f: FnV) -> Seq<Seq<u8>> {
    seq![
        kw_fn(),
        f.name,
        wd_lparen(),
        f.param,
        wd_colon(),
        f.union_name,
        wd_rparen(),
        wd_lbrace(),
        kw_match(),
        f.param,
        wd_lbrace(),
    ] + pw_arm_list(f.arms) + seq![wd_rbrace(), wd_rbrace()]
}

/// The canonical line of one declaration.
pub open spec fn print_decl(d: DeclV) -> Seq<u8> {
    match d {
        DeclV::Union(u) => unwords(pw_union(u)),
        DeclV::Dispatch(f) => unwords(pw_fn(f)),
        DeclV::Other(l) => l,
    }
}

/// The canonical text of a whole tree.
pub open spec fn print_text(t: TreeV) -> Seq<u8> {
    join_with(t.map(|i: int, d: DeclV| print_decl(d)), NEWLINE)
}

pub open spec fn all_words(ws: Seq<Seq<u8>>) -> bool {
    forall|k: int| 0 <= k < ws.len() ==> is_word(#[trigger] ws[k])
}

pub proof fn lemma_all_words_concat(a: Seq<Seq<u8>>, b: Seq<Seq<u8>>)
    requires
        all_words(a),
        all_words(b),
    ensures
        all_words(a + b),
{
    assert forall|k: int| 0 <= k < (a + b).len() implies is_word(#[trigger] (a + b)[k]) by {
        if k < a.len() {
            assert((a + b)[k] == a[k]);
        } else {
            assert((a + b)[k] == b[k - a.len()]);
        }
    }
}

pub proof fn lemma_pw_field_list_words(fs: Seq<FieldV>)
    requires
        forall|i: int| 0 <= i < fs.len() ==> wf_field(#[trigger] fs[i]),
    ensures
        all_words(pw_field_list(fs)),
    decreases fs.len(),
{
    if fs.len() == 0 {
    } else if fs.len() == 1 {
        assert(wf_field(fs[0]));
        assert(all_words(pw_field(fs[0])));
    } else {
        lemma_pw_field_list_words(fs.skip(1));
        assert(all_words(pw_field(fs[0])));
        lemma_all_words_concat(pw_field(fs[0]), seq![wd_comma()]);
        lemma_all_words_concat(pw_field(fs[0]) + seq![wd_comma()], pw_field_list(fs.skip(1)));
    }
}

pub proof fn lemma_pw_variant_words(v: VariantV)
    requires
        wf_variant(v),
    ensures
        all_words(pw_variant(v)),
{
    if v.fields.len() == 0 {
    } else {
        lemma_pw_field_list_words(v.fields);
        lemma_all_words_concat(seq![v.name, wd_lbrace()], pw_field_list(v.fields));
        lemma_all_words_concat(
            seq![v.name, wd_lbrace()] + pw_field_list(v.fields),
            seq![wd_rbrace()],
        );
    }
}

pub proof fn lemma_pw_variant_list_words(vs: Seq<VariantV>)
    requires
        forall|i: int| 0 <= i < vs.len() ==> wf_variant(#[trigger] vs[i]),
    ensures
        all_words(pw_variant_list(vs)),
    decreases vs.len(),
{
    if vs.len() == 0 {
    } else {
        lemma_pw_variant_list_words(vs.skip(1));
        lemma_pw_variant_words(vs[0]);
        lemma_all_words_concat(pw_variant(vs[0]), seq![wd_comma()]);
        lemma_all_words_concat(pw_variant(vs[0]) + seq![wd_comma()], pw_variant_list(vs.skip(1)));
    }
}

pub proof fn lemma_pw_union_words(u: UnionV)
    requires
        wf_union(u),
    ensures
        all_words(pw_union(u)),
{
    lemma_pw_variant_list_words(u.variants);
    lemma_all_words_concat(seq![kw_union(), u.name, wd_lbrace()], pw_variant_list(u.variants));
    lemma_all_words_concat(
        seq![kw_union(), u.name, wd_lbrace()] + pw_variant_list(u.variants),
        seq![wd_rbrace()],
    );
}

pub proof fn lemma_pw_binding_list_words(bs: Seq<Seq<u8>>)
    requires
        forall|i: int| 0 <= i < bs.len() ==> crate::ast::is_ident(#[trigger] bs[i]),
    ensures
        all_words(pw_binding_list(bs)),
    decreases bs.len(),
{
    if bs.len() <= 1 {
    } else {
        lemma_pw_binding_list_words(bs.skip(1));
        lemma_all_words_concat(seq![bs[0], wd_comma()], pw_binding_list(bs.skip(1)));
    }
}

pub proof fn lemma_pw_arm_words(a: ArmV)
    requires
        wf_arm(a),
    ensures
        all_words(pw_arm(a)),
{
    if a.bindings.len() == 0 {
        lemma_all_words_concat(seq![a.variant], seq![wd_arrow(), a.body]);
    } else {
        lemma_pw_binding_list_words(a.bindings);
        lemma_all_words_concat(seq![a.variant, wd_lbrace()], pw_binding_list(a.bindings));
        lemma_all_words_concat(
            seq![a.variant, wd_lbrace()] + pw_binding_list(a.bindings),
            seq![wd_rbrace()],
        );
        lemma_all_words_concat(
            seq![a.variant, wd_lbrace()] + pw_binding_list(a.bindings) + seq![wd_rbrace()],
            seq![wd_arrow(), a.body],
        );
    }
}

pub proof fn lemma_pw_arm_list_words(arms: Seq<ArmV>)
    requires
        forall|i: int| 0 <= i < arms.len() ==> wf_arm(#[trigger] arms[i]),
    ensures
        all_words(pw_arm_list(arms)),
    decreases arms.len(),
{
    if arms.len() == 0 {
    } else {
        lemma_pw_arm_list_words(arms.skip(1));
        lemma_pw_arm_words(arms[0]);
        lemma_all_words_concat(pw_arm(arms[0]), seq![wd_comma()]);
        lemma_all_words_concat(pw_arm(arms[0]) + seq![wd_comma()], pw_arm_list(arms.skip(1)));
    }
}

pub proof fn lemma_pw_fn_words(f: FnV)
    requires
        wf_fn(f),
    ensures
        all_words(pw_fn(f)),
{
    lemma_pw_arm_list_words(f.arms);
    let head = seq![
        kw_fn(),
        f.name,
        wd_lparen(),
        f.param,
        wd_colon(),
        f.union_name,
        wd_rparen(),
        wd_lbrace(),
        kw_match(),
        f.param,
        wd_lbrace(),
    ];
    assert(all_words(head));
    lemma_all_words_concat(head, pw_arm_list(f.arms));
    lemma_all_words_concat(head + pw_arm_list(f.arms), seq![wd_rbrace(), wd_rbrace()]);
}

/// A canonical line holds only printable bytes and no line separator.
pub proof fn lemma_unwords_bytes(ws: Seq<Seq<u8>>)
    requires
        all_words(ws),
    ensures
        no_byte(unwords(ws), NEWLINE),
        forall|i: int|
            0 <= i < unwords(ws).len() ==> crate::ast::is_src_byte(#[trigger] unwords(ws)[i]),
    decreases ws.len(),
{
    if ws.len() == 0 {
    } else if ws.len() == 1 {
        assert(unwords(ws) == ws[0]);
    } else {
        assert(all_words(ws.skip(1)));
        lemma_unwords_bytes(ws.skip(1));
        let tail = unwords(ws.skip(1));
        let s = ws[0] + seq![SPACE] + tail;
        assert(unwords(ws) == s);
        assert forall|i: int| 0 <= i < s.len() implies s[i] != NEWLINE && crate::ast::is_src_byte(
            #[trigger] s[i],
        ) by {
            if i < ws[0].len() {
                assert(s[i] == ws[0][i]);
            } else if i == ws[0].len() {
                assert(s[i] == SPACE);
            } else {
                assert(s[i] == tail[i - ws[0].len() - 1]);
            }
        }
    }
}

// --- executable word constants ---

pub fn word_lbrace() -> (r: Vec<u8>)
    ensures
        r@ == wd_lbrace(),
{
    let mut v: Vec<u8> = Vec::new();
    v.push(123);
    proof {
        assert(v@ =~= wd_lbrace());
    }
    v
}

pub fn word_rbrace() -> (r: Vec<u8>)
    ensures
        r@ == wd_rbrace(),
{
    let mut v: Vec<u8> = Vec::new();
    v.push(125);
    proof {
        assert(v@ =~= wd_rbrace());
    }
    v
}

pub fn word_comma() -> (r: Vec<u8>)
    ensures
        r@ == wd_comma(),
{
    let mut v: Vec<u8> = Vec::new();
    v.push(44);
    proof {
        assert(v@ =~= wd_comma());
    }
    v
}

pub fn word_colon() -> (r: Vec<u8>)
    ensures
        r@ == wd_colon(),
{
    let mut v: Vec<u8> = Vec::new();
    v.push(58);
    proof {
        assert(v@ =~= wd_colon());
    }
    v
}

pub fn word_lparen() -> (r: Vec<u8>)
    ensures
        r@ == wd_lparen(),
{
    let mut v: Vec<u8> = Vec::new();
    v.push(40);
    proof {
        assert(v@ =~= wd_lparen());
    }
    v
}

pub fn word_rparen() -> (r: Vec<u8>)
    ensures
        r@ == wd_rparen(),
{
    let mut v: Vec<u8> = Vec::new();
    v.push(41);
    proof {
        assert(v@ =~= wd_rparen());
    }
    v
}

pub fn word_arrow() -> (r: Vec<u8>)
    ensures
        r@ == wd_arrow(),
{
    let mut v: Vec<u8> = Vec::new();
    v.push(61);
    v.push(62);
    proof {
        assert(v@ =~= wd_arrow());
    }
    v
}

pub fn word_kw_union() -> (r: Vec<u8>)
    ensures
        r@ == kw_union(),
{
    let mut v: Vec<u8> = Vec::new();
    v.push(117);
    v.push(110);
    v.push(105);
    v.push(111);
    v.push(110);
    proof {
        assert(v@ =~= kw_union());
    }
    v
}

pub fn word_kw_fn() -> (r: Vec<u8>)
    ensures
        r@ == kw_fn(),
{
    let mut v: Vec<u8> = Vec::new();
    v.push(102);
    v.push(110);
    proof {
        assert(v@ =~= kw_fn());
    }
    v
}

pub fn word_kw_match() -> (r: Vec<u8>)
    ensures
        r@ == kw_match(),
{
    let mut v: Vec<u8> = Vec::new();
    v.push(109);
    v.push(97);
    v.push(116);
    v.push(99);
    v.push(104);
    proof {
        assert(v@ =~= kw_match());
    }
    v
}

// --- snoc forms of the word-list printers, for the loops below ---

pub proof fn lemma_pw_field_list_push(fs: Seq<FieldV>, f: FieldV)
    ensures
        pw_field_list(fs.push(f)) == (if fs.len() == 0 {
            pw_field(f)
        } else {
            pw_field_list(fs) + seq![wd_comma()] + pw_field(f)
        }),
    decreases fs.len(),
{
    if fs.len() == 0 {
        assert(fs.push(f)[0] == f);
    } else if fs.len() == 1 {
        assert(fs.push(f)[0] == fs[0]);
        assert(fs.push(f).skip(1) =~= seq![f]);
        assert(pw_field_list(seq![f]) == pw_field(f));
    } else {
        lemma_pw_field_list_push(fs.skip(1), f);
        assert(fs.push(f)[0] == fs[0]);
        assert(fs.push(f).skip(1) =~= fs.skip(1).push(f));
        assert(pw_field(fs[0]) + seq![wd_comma()] + (pw_field_list(fs.skip(1)) + seq![wd_comma()]
            + pw_field(f)) =~~= (pw_field(fs[0]) + seq![wd_comma()] + pw_field_list(fs.skip(1)))
            + seq![wd_comma()] + pw_field(f));
    }
}

pub proof fn lemma_pw_variant_list_push(vs: Seq<VariantV>, v: VariantV)
    ensures
        pw_variant_list(vs.push(v)) == pw_variant_list(vs) + pw_variant(v) + seq![wd_comma()],
    decreases vs.len(),
{
    if vs.len() == 0 {
        assert(vs.push(v)[0] == v);
        assert(vs.push(v).skip(1) =~= Seq::<VariantV>::empty());
        assert(pw_variant_list(Seq::<VariantV>::empty()) =~~= Seq::<Seq<u8>>::empty());
        assert(pw_variant_list(vs.push(v)) =~~= pw_variant(v) + seq![wd_comma()]);
        assert(pw_variant_list(vs.push(v)) =~~= pw_variant_list(vs) + pw_variant(v) + seq![
            wd_comma(),
        ]);
    } else {
        lemma_pw_variant_list_push(vs.skip(1), v);
        assert(vs.push(v)[0] == vs[0]);
        assert(vs.push(v).skip(1) =~= vs.skip(1).push(v));
        assert(pw_variant(vs[0]) + seq![wd_comma()] + (pw_variant_list(vs.skip(1)) + pw_variant(v)
            + seq![wd_comma()]) =~~= (pw_variant(vs[0]) + seq![wd_comma()] + pw_variant_list(
            vs.skip(1),
        )) + pw_variant(v) + seq![wd_comma()]);
    }
}

pub proof fn lemma_pw_binding_list_push(bs: Seq<Seq<u8>>, b: Seq<u8>)
    ensures
        pw_binding_list(bs.push(b)) == (if bs.len() == 0 {
            seq![b]
        } else {
            pw_binding_list(bs) + seq![wd_comma(), b]
        }),
    decreases bs.len(),
{
    if bs.len() == 0 {
        assert(bs.push(b)[0] == b);
    } else if bs.len() == 1 {
        assert(bs.push(b)[0] == bs[0]);
        assert(bs.push(b).skip(1) =~~= seq![b]);
        assert(pw_binding_list(seq![b]) == seq![b]);
        assert(seq![bs[0], wd_comma()] + seq![b] =~~= seq![bs[0]] + seq![wd_comma(), b]);
    } else {
        lemma_pw_binding_list_push(bs.skip(1), b);
        assert(bs.push(b)[0] == bs[0]);
        assert(bs.push(b).skip(1) =~~= bs.skip(1).push(b));
        assert(seq![bs[0], wd_comma()] + (pw_binding_list(bs.skip(1)) + seq![wd_comma(), b])
            =~~= (seq![bs[0], wd_comma()] + pw_binding_list(bs.skip(1))) + seq![wd_comma(), b]);
    }
}

pub proof fn lemma_pw_arm_list_push(arms: Seq<ArmV>, a: ArmV)
    ensures
        pw_arm_list(arms.push(a)) == pw_arm_list(arms) + pw_arm(a) + seq![wd_comma()],
    decreases arms.len(),
{
    if arms.len() == 0 {
        assert(arms.push(a)[0] == a);
        assert(arms.push(a).skip(1) =~= Seq::<ArmV>::empty());
        assert(pw_arm_list(Seq::<ArmV>::empty()) =~~= Seq::<Seq<u8>>::empty());
        assert(pw_arm_list(arms.push(a)) =~~= pw_arm(a) + seq![wd_comma()]);
        assert(pw_arm_list(arms.push(a)) =~~= pw_arm_list(arms) + pw_arm(a) + seq![wd_comma()]);
    } else {
        lemma_pw_arm_list_push(arms.skip(1), a);
        assert(arms.push(a)[0] == arms[0]);
        assert(arms.push(a).skip(1) =~= arms.skip(1).push(a));
        assert(pw_arm(arms[0]) + seq![wd_comma()] + (pw_arm_list(arms.skip(1)) + pw_arm(a) + seq![
            wd_comma(),
        ]) =~~= (pw_arm(arms[0]) + seq![wd_comma()] + pw_arm_list(arms.skip(1))) + pw_arm(a) + seq![
            wd_comma(),
        ]);
    }
}

/// Append the canonical words of one variant.
fn push_variant_words(ws: &mut Vec<Vec<u8>>, v: &Variant)
    ensures
        dvs(final(ws)@) == dvs(old(ws)@) + pw_variant(v.deep_view()),
{
    broadcast use text_dv_lemmas;

    let ghost base = dvs(ws@);
    let ghost vv = v.deep_view();
    ws.push(dup_bytes(&v.name));
    proof {
        assert(dvs(ws@) =~~= base.push(vv.name));
    }
    if v.fields.len() == 0 {
        proof {
            assert(pw_variant(vv) == seq![vv.name]);
            assert(dvs(ws@) =~~= base + pw_variant(vv));
        }
        return ;
    }
    ws.push(word_lbrace());
    proof {
        assert(dvs(ws@) =~~= base + seq![vv.name, wd_lbrace()]);
    }
    let ghost head = base + seq![vv.name, wd_lbrace()];
    let mut i: usize = 0;
    while i < v.fields.len()
        invariant
            i <= v.fields.len(),
            vv == v.deep_view(),
            head == base + seq![vv.name, wd_lbrace()],
            dvs(ws@) == head + pw_field_list(vv.fields.take(i as int)),
        decreases v.fields.len() - i,
    {
        broadcast use text_dv_lemmas;

        let ghost before = dvs(ws@);
        if i > 0 {
            ws.push(word_comma());
        }
        let fld = &v.fields[i];
        ws.push(dup_bytes(&fld.name));
        ws.push(word_colon());
        ws.push(dup_bytes(&fld.ty));
        proof {
            let q = vv.fields;
            assert(q[i as int] == v.fields@[i as int].deep_view());
            assert(q.take(i as int).push(q[i as int]) =~= q.take(i + 1));
            lemma_pw_field_list_push(q.take(i as int), q[i as int]);
            if i > 0 {
                assert(dvs(ws@) =~~= before + seq![
                    wd_comma(),
                    q[i as int].name,
                    wd_colon(),
                    q[i as int].ty,
                ]);
                assert(dvs(ws@) =~~= head + (pw_field_list(q.take(i as int)) + seq![wd_comma()]
                    + pw_field(q[i as int])));
            } else {
                assert(pw_field_list(q.take(0)) =~~= Seq::<Seq<u8>>::empty());
                assert(before =~~= head);
                assert(dvs(ws@) =~~= head + seq![q[i as int].name, wd_colon(), q[i as int].ty]);
                assert(dvs(ws@) =~~= head + pw_field(q[i as int]));
            }
            assert(dvs(ws@) =~~= head + pw_field_list(q.take(i + 1)));
        }
        i += 1;
    }
    ws.push(word_rbrace());
    proof {
        assert(vv.fields.take(v.fields@.len() as int) =~= vv.fields);
        assert(dvs(ws@) =~~= (head + pw_field_list(vv.fields)).push(wd_rbrace()));
        assert(dvs(ws@) =~~= base + (seq![vv.name, wd_lbrace()] + pw_field_list(vv.fields) + seq![
            wd_rbrace(),
        ]));
    }
}

/// Append the canonical words of one arm, followed by its comma.
fn push_arm_words(ws: &mut Vec<Vec<u8>>, a: &crate::ast::Arm)
    ensures
        dvs(final(ws)@) == dvs(old(ws)@) + pw_arm(a.deep_view()) + seq![wd_comma()],
{
    broadcast use text_dv_lemmas;

    let ghost base = dvs(ws@);
    let ghost av = a.deep_view();
    ws.push(dup_bytes(&a.variant));
    proof {
        assert(dvs(ws@) =~~= base.push(av.variant));
    }
    if a.bindings.len() > 0 {
        ws.push(word_lbrace());
        proof {
            assert(dvs(ws@) =~~= base + seq![av.variant, wd_lbrace()]);
        }
        let ghost head = base + seq![av.variant, wd_lbrace()];
        let mut i: usize = 0;
        while i < a.bindings.len()
            invariant
                i <= a.bindings.len(),
                av == a.deep_view(),
                head == base + seq![av.variant, wd_lbrace()],
                a.bindings@.len() > 0,
                dvs(ws@) == head + pw_binding_list(av.bindings.take(i as int)),
            decreases a.bindings.len() - i,
        {
            broadcast use text_dv_lemmas;

            let ghost before = dvs(ws@);
            if i > 0 {
                ws.push(word_comma());
            }
            ws.push(dup_bytes(&a.bindings[i]));
            proof {
                let q = av.bindings;
                assert(q[i as int] == a.bindings@[i as int]@);
                assert(q.take(i as int).push(q[i as int]) =~~= q.take(i + 1));
                lemma_pw_binding_list_push(q.take(i as int), q[i as int]);
                if i > 0 {
                    assert(dvs(ws@) =~~= before + seq![wd_comma(), q[i as int]]);
                    assert(dvs(ws@) =~~= head + (pw_binding_list(q.take(i as int)) + seq![
                        wd_comma(),
                        q[i as int],
                    ]));
                } else {
                    assert(before =~~= head);
                    assert(dvs(ws@) =~~= head + seq![q[i as int]]);
                }
                assert(dvs(ws@) =~~= head + pw_binding_list(q.take(i + 1)));
            }
            i += 1;
        }
        ws.push(word_rbrace());
        proof {
            assert(av.bindings.take(a.bindings@.len() as int) =~~= av.bindings);
            assert(dvs(ws@) =~~= (head + pw_binding_list(av.bindings)).push(wd_rbrace()));
        }
    }
    ws.push(word_arrow());
    ws.push(dup_bytes(&a.body));
    ws.push(word_comma());
    proof {
        if av.bindings.len() == 0 {
            assert(dvs(ws@) =~~= base + (seq![av.variant] + seq![wd_arrow(), av.body]) + seq![
                wd_comma(),
            ]);
        } else {
            assert(dvs(ws@) =~~= base + (seq![av.variant, wd_lbrace()] + pw_binding_list(
                av.bindings,
            ) + seq![wd_rbrace()] + seq![wd_arrow(), av.body]) + seq![wd_comma()]);
        }
    }
}

/// The canonical words of a union declaration.
pub fn words_of_union(u: &UnionDecl) -> (r: Vec<Vec<u8>>)
    ensures
        dvs(r@) == pw_union(u.deep_view()),
{
    broadcast use text_dv_lemmas;

    let ghost uv = u.deep_view();
    let mut ws: Vec<Vec<u8>> = Vec::new();
    ws.push(word_kw_union());
    ws.push(dup_bytes(&u.name));
    ws.push(word_lbrace());
    proof {
        assert(dvs(ws@) =~~= seq![kw_union(), uv.name, wd_lbrace()]);
    }
    let ghost head = seq![kw_union(), uv.name, wd_lbrace()];
    let mut i: usize = 0;
    while i < u.variants.len()
        invariant
            i <= u.variants.len(),
            uv == u.deep_view(),
            head == seq![kw_union(), uv.name, wd_lbrace()],
            dvs(ws@) == head + pw_variant_list(uv.variants.take(i as int)),
        decreases u.variants.len() - i,
    {
        push_variant_words(&mut ws, &u.variants[i]);
        let w = word_comma();
        ws.push(w);
        proof {
            broadcast use text_dv_lemmas;

            let q = uv.variants;
            assert(q[i as int] == u.variants@[i as int].deep_view());
            assert(q.take(i as int).push(q[i as int]) =~= q.take(i + 1));
            lemma_pw_variant_list_push(q.take(i as int), q[i as int]);
            assert(dvs(ws@) =~~= head + (pw_variant_list(q.take(i as int)) + pw_variant(
                q[i as int],
            ) + seq![wd_comma()]));
            assert(dvs(ws@) =~~= head + pw_variant_list(q.take(i + 1)));
        }
        i += 1;
    }
    ws.push(word_rbrace());
    proof {
        assert(uv.variants.take(u.variants@.len() as int) =~= uv.variants);
        assert(dvs(ws@) =~~= (head + pw_variant_list(uv.variants)).push(wd_rbrace()));
        assert(dvs(ws@) =~~= pw_union(uv));
    }
    ws
}

/// The canonical words of a dispatch function declaration.
pub fn words_of_fn(f: &DispatchFn) -> (r: Vec<Vec<u8>>)
    ensures
        dvs(r@) == pw_fn(f.deep_view()),
{
    broadcast use text_dv_lemmas;

    let ghost fv = f.deep_view();
    let mut ws: Vec<Vec<u8>> = Vec::new();
    ws.push(word_kw_fn());
    ws.push(dup_bytes(&f.name));
    ws.push(word_lparen());
    ws.push(dup_bytes(&f.param));
    ws.push(word_colon());
    ws.push(dup_bytes(&f.union_name));
    ws.push(word_rparen());
    ws.push(word_lbrace());
    ws.push(word_kw_match());
    ws.push(dup_bytes(&f.param));
    ws.push(word_lbrace());
    let ghost head = seq![
        kw_fn(),
        fv.name,
        wd_lparen(),
        fv.param,
        wd_colon(),
        fv.union_name,
        wd_rparen(),
        wd_lbrace(),
        kw_match(),
        fv.param,
        wd_lbrace(),
    ];
    proof {
        assert(dvs(ws@) =~~= head);
    }
    let mut i: usize = 0;
    while i < f.arms.len()
        invariant
            i <= f.arms.len(),
            fv == f.deep_view(),
            head == seq![
                kw_fn(),
                fv.name,
                wd_lparen(),
                fv.param,
                wd_colon(),
                fv.union_name,
                wd_rparen(),
                wd_lbrace(),
                kw_match(),
                fv.param,
                wd_lbrace(),
            ],
            dvs(ws@) == head + pw_arm_list(fv.arms.take(i as int)),
        decreases f.arms.len() - i,
    {
        push_arm_words(&mut ws, &f.arms[i]);
        proof {
            broadcast use text_dv_lemmas;

            let q = fv.arms;
            assert(q[i as int] == f.arms@[i as int].deep_view());
            assert(q.take(i as int).push(q[i as int]) =~= q.take(i + 1));
            lemma_pw_arm_list_push(q.take(i as int), q[i as int]);
            assert(dvs(ws@) =~~= head + (pw_arm_list(q.take(i as int)) + pw_arm(q[i as int]) + seq![
                wd_comma(),
            ]));
            assert(dvs(ws@) =~~= head + pw_arm_list(q.take(i + 1)));
        }
        i += 1;
    }
    ws.push(word_rbrace());
    ws.push(word_rbrace());
    proof {
        assert(fv.arms.take(f.arms@.len() as int) =~= fv.arms);
        assert(dvs(ws@) =~~= (head + pw_arm_list(fv.arms)).push(wd_rbrace()).push(wd_rbrace()));
        assert(dvs(ws@) =~~= pw_fn(fv));
    }
    ws
}

/// Canonical text of a tree: `print` is the printing half of the engine.
pub fn print(tree: &SourceTree) -> (r: Vec<u8>)
    ensures
        r@ == print_text(tree.deep_view()),
{
    broadcast use text_dv_lemmas;

    let ghost tv = tree.deep_view();
    let mut lines: Vec<Vec<u8>> = Vec::new();
    let mut i: usize = 0;
    proof {
        assert(dvs(lines@) =~~= tv.take(0).map(|k: int, d: DeclV| print_decl(d)));
    }
    while i < tree.decls.len()
        invariant
            i <= tree.decls.len(),
            tv == tree.deep_view(),
            dvs(lines@) == tv.take(i as int).map(|k: int, d: DeclV| print_decl(d)),
        decreases tree.decls.len() - i,
    {
        broadcast use text_dv_lemmas;

        let line: Vec<u8> = match &tree.decls[i] {
            Decl::Union(u) => {
                let ws = words_of_union(u);
                join_pieces(&ws, SPACE)
            },
            Decl::Dispatch(f) => {
                let ws = words_of_fn(f);
                join_pieces(&ws, SPACE)
            },
            Decl::Other(l) => dup_bytes(l),
        };
        proof {
            assert(tv[i as int] == tree.decls@[i as int].deep_view());
            assert(line@ == print_decl(tv[i as int]));
        }
        lines.push(line);
        proof {
            assert(tv.take(i as int).push(tv[i as int]) =~= tv.take(i + 1));
            assert(dvs(lines@) =~~= tv.take(i + 1).map(|k: int, d: DeclV| print_decl(d)));
        }
        i += 1;
    }
    proof {
        assert(tv.take(tree.decls@.len() as int) =~= tv);
    }
    join_pieces(&lines, NEWLINE)
}

} // verus!
