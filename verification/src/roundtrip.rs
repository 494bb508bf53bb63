//! Printing is canonical: a well-formed tree parses back from its printed
//! text unchanged, so printing is a fixed point after one parse-print
//! pass, whatever the whitespace of the original input.

use vstd::prelude::*;
use crate::ast::{
    all_src_bytes, is_ident, is_src_byte, is_word, kw_fn, kw_match, kw_union, wd_arrow, wd_colon,
    wd_comma, wd_lbrace, wd_lparen, wd_rbrace, wd_rparen, wf_arm, wf_field, wf_fn, wf_union,
    wf_variant, ArmV, DeclV, FieldV, FnV, TreeV, UnionV, VariantV,
};
use crate::parser::{
    parse_arm, parse_arm_list, parse_binding_list, parse_field_list, parse_fn_line, parse_line,
    parse_text, parse_union_line, parse_variant, parse_variant_list, wf_decl, wf_tree,
};
use crate::printer::{
    all_words, lemma_pw_fn_words, lemma_pw_union_words, lemma_unwords_bytes, print_decl,
    print_text, pw_arm, pw_arm_list, pw_binding_list, pw_field, pw_field_list, pw_fn, pw_union,
    pw_variant, pw_variant_list,
};
use crate::text::{
    join_with, lemma_split_join, lemma_words_unwords, no_byte, split_on, unwords, words_of,
    NEWLINE, SPACE,
};

verus! {

pub proof fn lemma_ident_not_token(w: Seq<u8>)
    requires
        is_ident(w),
    ensures
        w != wd_rbrace(),
        w != wd_comma(),
        w != wd_lbrace(),
        w != wd_colon(),
        w != wd_lparen(),
        w != wd_rparen(),
        w != wd_arrow(),
{
    assert(crate::ast::is_ident_byte(w[0]));
    if w == wd_rbrace() {
        assert(w[0] == 125);
    }
    if w == wd_comma() {
        assert(w[0] == 44);
    }
    if w == wd_lbrace() {
        assert(w[0] == 123);
    }
    if w == wd_colon() {
        assert(w[0] == 58);
    }
    if w == wd_lparen() {
        assert(w[0] == 40);
    }
    if w == wd_rparen() {
        assert(w[0] == 41);
    }
    if w == wd_arrow() {
        assert(w[0] == 61);
    }
}

pub proof fn lemma_tokens_distinct()
    ensures
        wd_rbrace() != wd_comma(),
        wd_comma() != wd_lbrace(),
        wd_arrow() != wd_lbrace(),
        wd_rbrace() != wd_lbrace(),
        kw_union() != kw_fn(),
{
    assert(wd_rbrace()[0] == 125 && wd_comma()[0] == 44 && wd_lbrace()[0] == 123 && wd_arrow()[0]
        == 61);
    assert(kw_union().len() == 5 && kw_fn().len() == 2);
}

pub proof fn lemma_rt_field_list(fs: Seq<FieldV>, rest: Seq<Seq<u8>>)
    requires
        fs.len() >= 1,
        forall|i: int| 0 <= i < fs.len() ==> wf_field(#[trigger] fs[i]),
    ensures
        parse_field_list(pw_field_list(fs) + seq![wd_rbrace()] + rest) == Some((fs, rest)),
    decreases fs.len(),
{
    lemma_tokens_distinct();
    let ws = pw_field_list(fs) + seq![wd_rbrace()] + rest;
    let f0 = fs[0];
    assert(wf_field(f0));
    if fs.len() == 1 {
        assert(pw_field_list(fs) == pw_field(f0));
        assert(ws[0] == f0.name && ws[1] == wd_colon() && ws[2] == f0.ty && ws[3] == wd_rbrace());
        assert(ws.len() == 4 + rest.len());
        assert(ws[3] != wd_comma());
        assert(FieldV { name: ws[0], ty: ws[2] } == f0);
        assert(ws.skip(4) =~~= rest);
        assert(seq![f0] =~~= fs);
    } else {
        assert(pw_field_list(fs) == pw_field(f0) + seq![wd_comma()] + pw_field_list(fs.skip(1)));
        assert(forall|i: int| 0 <= i < fs.skip(1).len() ==> wf_field(#[trigger] fs.skip(1)[i]));
        lemma_rt_field_list(fs.skip(1), rest);
        crate::parser::lemma_parse_field_list_props(pw_field_list(fs.skip(1)) + seq![wd_rbrace()]
            + rest);
        assert(ws[0] == f0.name && ws[1] == wd_colon() && ws[2] == f0.ty && ws[3] == wd_comma());
        assert(ws.len() >= 4);
        assert(FieldV { name: ws[0], ty: ws[2] } == f0);
        assert(ws.skip(4) =~~= pw_field_list(fs.skip(1)) + seq![wd_rbrace()] + rest);
        assert(parse_field_list(ws.skip(4)) == Some((fs.skip(1), rest)));
        assert(seq![f0] + fs.skip(1) =~~= fs);
    }
}

pub proof fn lemma_rt_variant(v: VariantV, rest: Seq<Seq<u8>>)
    requires
        wf_variant(v),
        rest.len() >= 1,
        rest[0] != wd_lbrace(),
    ensures
        parse_variant(pw_variant(v) + rest) == Some((v, rest)),
{
    let ws = pw_variant(v) + rest;
    lemma_ident_not_token(v.name);
    if v.fields.len() == 0 {
        assert(ws[0] == v.name);
        assert(ws[1] == rest[0]);
        assert(ws.len() >= 2);
        assert(VariantV { name: ws[0], fields: Seq::<FieldV>::empty() } == v);
        assert(ws.skip(1) =~~= rest);
    } else {
        assert(pw_variant(v) == seq![v.name, wd_lbrace()] + pw_field_list(v.fields) + seq![
            wd_rbrace(),
        ]);
        assert(ws[0] == v.name && ws[1] == wd_lbrace());
        assert(ws.skip(2) =~~= pw_field_list(v.fields) + seq![wd_rbrace()] + rest);
        lemma_rt_field_list(v.fields, rest);
        assert(parse_field_list(ws.skip(2)) == Some((v.fields, rest)));
        assert(VariantV { name: ws[0], fields: v.fields } == v);
    }
}

pub proof fn lemma_rt_variant_list(vs: Seq<VariantV>, rest: Seq<Seq<u8>>)
    requires
        forall|i: int| 0 <= i < vs.len() ==> wf_variant(#[trigger] vs[i]),
    ensures
        parse_variant_list(pw_variant_list(vs) + seq![wd_rbrace()] + rest) == Some((vs, rest)),
    decreases vs.len(),
{
    lemma_tokens_distinct();
    let ws = pw_variant_list(vs) + seq![wd_rbrace()] + rest;
    if vs.len() == 0 {
        assert(pw_variant_list(vs) == Seq::<Seq<u8>>::empty());
        assert(ws[0] == wd_rbrace());
        assert(ws.skip(1) =~~= rest);
        assert(Seq::<VariantV>::empty() =~~= vs);
    } else {
        let v0 = vs[0];
        assert(wf_variant(v0));
        lemma_ident_not_token(v0.name);
        assert(pw_variant_list(vs) == pw_variant(v0) + seq![wd_comma()] + pw_variant_list(
            vs.skip(1),
        ));
        let mid = seq![wd_comma()] + pw_variant_list(vs.skip(1)) + seq![wd_rbrace()] + rest;
        assert(ws =~~= pw_variant(v0) + mid);
        assert(mid[0] == wd_comma());
        lemma_rt_variant(v0, mid);
        assert(parse_variant(ws) == Some((v0, mid)));
        assert(ws[0] == v0.name);
        assert(ws[0] != wd_rbrace());
        assert(pw_variant(v0).len() >= 1);
        assert(mid.len() <= ws.len());
        assert(forall|i: int| 0 <= i < vs.skip(1).len() ==> wf_variant(#[trigger] vs.skip(1)[i]));
        lemma_rt_variant_list(vs.skip(1), rest);
        assert(mid.skip(1) =~~= pw_variant_list(vs.skip(1)) + seq![wd_rbrace()] + rest);
        assert(parse_variant_list(mid.skip(1)) == Some((vs.skip(1), rest)));
        assert(seq![v0] + vs.skip(1) =~~= vs);
    }
}

pub proof fn lemma_rt_binding_list(bs: Seq<Seq<u8>>, rest: Seq<Seq<u8>>)
    requires
        bs.len() >= 1,
        forall|i: int| 0 <= i < bs.len() ==> is_ident(#[trigger] bs[i]),
    ensures
        parse_binding_list(pw_binding_list(bs) + seq![wd_rbrace()] + rest) == Some((bs, rest)),
    decreases bs.len(),
{
    lemma_tokens_distinct();
    let ws = pw_binding_list(bs) + seq![wd_rbrace()] + rest;
    assert(is_ident(bs[0]));
    if bs.len() == 1 {
        assert(pw_binding_list(bs) == seq![bs[0]]);
        assert(ws[0] == bs[0] && ws[1] == wd_rbrace());
        assert(ws[1] != wd_comma());
        assert(ws.skip(2) =~~= rest);
        assert(seq![bs[0]] =~~= bs);
    } else {
        assert(pw_binding_list(bs) == seq![bs[0], wd_comma()] + pw_binding_list(bs.skip(1)));
        assert(ws[0] == bs[0] && ws[1] == wd_comma());
        assert(forall|i: int| 0 <= i < bs.skip(1).len() ==> is_ident(#[trigger] bs.skip(1)[i]));
        lemma_rt_binding_list(bs.skip(1), rest);
        assert(ws.skip(2) =~~= pw_binding_list(bs.skip(1)) + seq![wd_rbrace()] + rest);
        assert(parse_binding_list(ws.skip(2)) == Some((bs.skip(1), rest)));
        assert(seq![bs[0]] + bs.skip(1) =~~= bs);
    }
}

pub proof fn lemma_rt_arm(a: ArmV, rest: Seq<Seq<u8>>)
    requires
        wf_arm(a),
    ensures
        parse_arm(pw_arm(a) + rest) == Some((a, rest)),
{
    lemma_tokens_distinct();
    let ws = pw_arm(a) + rest;
    lemma_ident_not_token(a.variant);
    if a.bindings.len() == 0 {
        assert(pw_arm(a) == seq![a.variant] + seq![wd_arrow(), a.body]);
        assert(ws[0] == a.variant && ws[1] == wd_arrow() && ws[2] == a.body);
        assert(ws.len() >= 3);
        assert(ws[1] != wd_lbrace());
        assert(ArmV { variant: ws[0], bindings: Seq::<Seq<u8>>::empty(), body: ws[2] } == a);
        assert(ws.skip(3) =~~= rest);
    } else {
        assert(pw_arm(a) == (seq![a.variant, wd_lbrace()] + pw_binding_list(a.bindings) + seq![
            wd_rbrace(),
        ]) + seq![wd_arrow(), a.body]);
        assert(ws[0] == a.variant && ws[1] == wd_lbrace());
        let mid = seq![wd_arrow(), a.body] + rest;
        assert(ws.skip(2) =~~= pw_binding_list(a.bindings) + seq![wd_rbrace()] + mid);
        lemma_rt_binding_list(a.bindings, mid);
        assert(parse_binding_list(ws.skip(2)) == Some((a.bindings, mid)));
        assert(mid.len() >= 2 && mid[0] == wd_arrow() && mid[1] == a.body);
        assert(ArmV { variant: ws[0], bindings: a.bindings, body: mid[1] } == a);
        assert(mid.skip(2) =~~= rest);
    }
}

pub proof fn lemma_rt_arm_list(arms: Seq<ArmV>, rest: Seq<Seq<u8>>)
    requires
        forall|i: int| 0 <= i < arms.len() ==> wf_arm(#[trigger] arms[i]),
    ensures
        parse_arm_list(pw_arm_list(arms) + seq![wd_rbrace()] + rest) == Some((arms, rest)),
    decreases arms.len(),
{
    lemma_tokens_distinct();
    let ws = pw_arm_list(arms) + seq![wd_rbrace()] + rest;
    if arms.len() == 0 {
        assert(pw_arm_list(arms) == Seq::<Seq<u8>>::empty());
        assert(ws[0] == wd_rbrace());
        assert(ws.skip(1) =~~= rest);
        assert(Seq::<ArmV>::empty() =~~= arms);
    } else {
        let a0 = arms[0];
        assert(wf_arm(a0));
        lemma_ident_not_token(a0.variant);
        assert(pw_arm_list(arms) == pw_arm(a0) + seq![wd_comma()] + pw_arm_list(arms.skip(1)));
        let mid = seq![wd_comma()] + pw_arm_list(arms.skip(1)) + seq![wd_rbrace()] + rest;
        assert(ws =~~= pw_arm(a0) + mid);
        lemma_rt_arm(a0, mid);
        assert(parse_arm(ws) == Some((a0, mid)));
        assert(ws[0] == a0.variant);
        assert(ws[0] != wd_rbrace());
        assert(mid[0] == wd_comma());
        assert(pw_arm(a0).len() >= 1);
        assert(mid.len() <= ws.len());
        assert(forall|i: int| 0 <= i < arms.skip(1).len() ==> wf_arm(#[trigger] arms.skip(1)[i]));
        lemma_rt_arm_list(arms.skip(1), rest);
        assert(mid.skip(1) =~~= pw_arm_list(arms.skip(1)) + seq![wd_rbrace()] + rest);
        assert(parse_arm_list(mid.skip(1)) == Some((arms.skip(1), rest)));
        assert(seq![a0] + arms.skip(1) =~~= arms);
    }
}

pub proof fn lemma_rt_union(u: UnionV)
    requires
        wf_union(u),
    ensures
        parse_union_line(pw_union(u)) == Some(u),
{
    let ws = pw_union(u);
    assert(ws[0] == kw_union() && ws[1] == u.name && ws[2] == wd_lbrace());
    assert(ws.len() >= 3);
    lemma_rt_variant_list(u.variants, Seq::<Seq<u8>>::empty());
    assert(ws.skip(3) =~~= pw_variant_list(u.variants) + seq![wd_rbrace()]
        + Seq::<Seq<u8>>::empty());
    assert(parse_variant_list(ws.skip(3)) == Some((u.variants, Seq::<Seq<u8>>::empty())));
    assert(UnionV { name: ws[1], variants: u.variants } == u);
}

pub proof fn lemma_rt_fn(f: FnV)
    requires
        wf_fn(f),
    ensures
        parse_fn_line(pw_fn(f)) == Some(f),
{
    let ws = pw_fn(f);
    assert(ws[0] == kw_fn() && ws[1] == f.name && ws[2] == wd_lparen() && ws[3] == f.param && ws[4]
        == wd_colon() && ws[5] == f.union_name && ws[6] == wd_rparen() && ws[7] == wd_lbrace()
        && ws[8] == kw_match() && ws[9] == f.param && ws[10] == wd_lbrace());
    assert(ws.len() >= 11);
    lemma_rt_arm_list(f.arms, seq![wd_rbrace()]);
    assert(ws.skip(11) =~~= pw_arm_list(f.arms) + seq![wd_rbrace()] + seq![wd_rbrace()]);
    assert(parse_arm_list(ws.skip(11)) == Some((f.arms, seq![wd_rbrace()])));
    assert(FnV { name: ws[1], param: ws[3], union_name: ws[5], arms: f.arms } == f);
}

pub proof fn lemma_all_words_ok(ws: Seq<Seq<u8>>)
    requires
        all_words(ws),
    ensures
        forall|k: int| 0 <= k < ws.len() ==> #[trigger] ws[k].len() > 0,
        forall|k: int| 0 <= k < ws.len() ==> no_byte(#[trigger] ws[k], SPACE),
{
    assert forall|k: int| 0 <= k < ws.len() implies no_byte(#[trigger] ws[k], SPACE) by {
        assert(is_word(ws[k]));
    }
}

/// One printed declaration parses back to itself.
pub proof fn lemma_rt_decl(d: DeclV)
    requires
        wf_decl(d),
    ensures
        parse_line(print_decl(d)) == d,
        all_src_bytes(print_decl(d)),
        no_byte(print_decl(d), NEWLINE),
{
    lemma_tokens_distinct();
    match d {
        DeclV::Union(u) => {
            lemma_pw_union_words(u);
            lemma_all_words_ok(pw_union(u));
            lemma_words_unwords(pw_union(u));
            assert(words_of(print_decl(d)) == pw_union(u));
            lemma_rt_union(u);
            lemma_unwords_bytes(pw_union(u));
        },
        DeclV::Dispatch(f) => {
            lemma_pw_fn_words(f);
            lemma_all_words_ok(pw_fn(f));
            lemma_words_unwords(pw_fn(f));
            assert(words_of(print_decl(d)) == pw_fn(f));
            lemma_rt_fn(f);
            lemma_unwords_bytes(pw_fn(f));
            assert(pw_fn(f)[0] == kw_fn());
            assert(parse_union_line(pw_fn(f)) is None);
        },
        DeclV::Other(l) => {
        },
    }
}

pub proof fn lemma_join_lines_bytes(ls: Seq<Seq<u8>>)
    requires
        forall|k: int| 0 <= k < ls.len() ==> all_src_bytes(#[trigger] ls[k]),
    ensures
        all_src_bytes(join_with(ls, NEWLINE)),
    decreases ls.len(),
{
    if ls.len() == 0 {
    } else if ls.len() == 1 {
        assert(join_with(ls, NEWLINE) == ls[0]);
        assert(all_src_bytes(ls[0]));
    } else {
        assert(forall|k: int|
            0 <= k < ls.skip(1).len() ==> all_src_bytes(#[trigger] ls.skip(1)[k]));
        lemma_join_lines_bytes(ls.skip(1));
        let tail = join_with(ls.skip(1), NEWLINE);
        let s = ls[0] + seq![NEWLINE] + tail;
        assert(join_with(ls, NEWLINE) == s);
        assert forall|i: int| 0 <= i < s.len() implies is_src_byte(#[trigger] s[i]) by {
            if i < ls[0].len() {
                assert(s[i] == ls[0][i]);
            } else if i == ls[0].len() {
                assert(s[i] == NEWLINE);
            } else {
                assert(s[i] == tail[i - ls[0].len() - 1]);
            }
        }
    }
}

/// A printed well-formed tree parses back to exactly that tree.
pub proof fn lemma_rt_tree(t: TreeV)
    requires
        wf_tree(t),
    ensures
        parse_text(print_text(t)) == Some(t),
{
    let lines = t.map(|i: int, d: DeclV| print_decl(d));
    assert forall|k: int|
        0 <= k < lines.len() implies all_src_bytes(#[trigger] lines[k]) && no_byte(
        lines[k],
        NEWLINE,
    ) && parse_line(lines[k]) == t[k] by {
        assert(wf_decl(t[k]));
        lemma_rt_decl(t[k]);
        assert(lines[k] == print_decl(t[k]));
    }
    lemma_join_lines_bytes(lines);
    assert(all_src_bytes(print_text(t)));
    lemma_split_join(lines, NEWLINE);
    assert(split_on(print_text(t), NEWLINE) == lines);
    let parsed = split_on(print_text(t), NEWLINE).map(|i: int, l: Seq<u8>| parse_line(l));
    assert(parsed =~= t);
}

/// Idempotent printing: for any text the engine accepts, one
/// parse-then-print pass reaches a fixed point, so a second pass changes
/// nothing.
pub proof fn lemma_print_idempotent(text: Seq<u8>)
    requires
        parse_text(text) is Some,
    ensures
        ({
            let once = print_text(parse_text(text)->Some_0);
            &&& parse_text(once) is Some
            &&& print_text(parse_text(once)->Some_0) == once
        }),
{
    crate::parser::lemma_parse_text_wf(text);
    lemma_rt_tree(parse_text(text)->Some_0);
}

} // verus!
