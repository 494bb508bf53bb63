//! Parsing: from raw bytes to the declaration tree.  A file is split into
//! lines; a line whose words form a union declaration or a dispatch
//! function becomes that node, and any other line is kept verbatim as an
//! opaque declaration, so unrecognized code is never reformatted.

use vstd::prelude::*;
use crate::ast::{
    all_src_bytes, is_ident, is_plain_word, is_src_byte, kw_fn, kw_match, kw_union, wd_arrow,
    wd_colon, wd_comma, wd_lbrace, wd_lparen, wd_rbrace, wd_rparen, wf_arm, wf_field, wf_fn,
    wf_union, wf_variant, ArmV, DeclV, FieldV, FnV, TreeV, UnionV, VariantV,
};
use crate::text::{dvs, no_byte, split_on, words_of, NEWLINE};

verus! {

/// Fields inside variant braces: `name : ty` separated by commas, the
/// list closed by `}` (consumed).
pub open spec fn parse_field_list(ws: Seq<Seq<u8>>) -> Option<(Seq<FieldV>, Seq<Seq<u8>>)>
    decreases ws.len(),
{
    if ws.len() < 4 {
        None
    } else if !is_ident(ws[0]) || ws[1] != wd_colon() || !is_plain_word(ws[2]) {
        None
    } else {
        let f = FieldV { name: ws[0], ty: ws[2] };
        if ws[3] == wd_comma() {
            match parse_field_list(ws.skip(4)) {
                None => None,
                Some((fs, rem)) => Some((seq![f] + fs, rem)),
            }
        } else if ws[3] == wd_rbrace() {
            Some((seq![f], ws.skip(4)))
        } else {
            None
        }
    }
}

/// A variant: a name, optionally followed by braced fields.
pub open spec fn parse_variant(ws: Seq<Seq<u8>>) -> Option<(VariantV, Seq<Seq<u8>>)> {
    if ws.len() == 0 || !is_ident(ws[0]) {
        None
    } else if ws.len() >= 2 && ws[1] == wd_lbrace() {
        match parse_field_list(ws.skip(2)) {
            None => None,
            Some((fs, rem)) => Some((VariantV { name: ws[0], fields: fs }, rem)),
        }
    } else {
        Some((VariantV { name: ws[0], fields: Seq::<FieldV>::empty() }, ws.skip(1)))
    }
}

/// Variants of a union body: each followed by a comma, the list closed by
/// `}` (consumed).
pub open spec fn parse_variant_list(ws: Seq<Seq<u8>>) -> Option<(Seq<VariantV>, Seq<Seq<u8>>)>
    decreases ws.len(),
{
    if ws.len() == 0 {
        None
    } else if ws[0] == wd_rbrace() {
        Some((Seq::<VariantV>::empty(), ws.skip(1)))
    } else {
        match parse_variant(ws) {
            None => None,
            Some((v, rem)) => {
                if rem.len() >= 1 && rem[0] == wd_comma() && rem.len() <= ws.len() {
                    match parse_variant_list(rem.skip(1)) {
                        None => None,
                        Some((vs, rem2)) => Some((seq![v] + vs, rem2)),
                    }
                } else {
                    None
                }
            },
        }
    }
}

/// Bound field names of a pattern, the list closed by `}` (consumed).
pub open spec fn parse_binding_list(ws: Seq<Seq<u8>>) -> Option<(Seq<Seq<u8>>, Seq<Seq<u8>>)>
    decreases ws.len(),
{
    if ws.len() < 2 {
        None
    } else if !is_ident(ws[0]) {
        None
    } else if ws[1] == wd_comma() {
        match parse_binding_list(ws.skip(2)) {
            None => None,
            Some((bs, rem)) => Some((seq![ws[0]] + bs, rem)),
        }
    } else if ws[1] == wd_rbrace() {
        Some((seq![ws[0]], ws.skip(2)))
    } else {
        None
    }
}

/// One match arm: a pattern, `=>`, and a body word.
pub open spec fn parse_arm(ws: Seq<Seq<u8>>) -> Option<(ArmV, Seq<Seq<u8>>)> {
    if ws.len() == 0 || !is_ident(ws[0]) {
        None
    } else if ws.len() >= 2 && ws[1] == wd_lbrace() {
        match parse_binding_list(ws.skip(2)) {
            None => None,
            Some((bs, rem)) => {
                if rem.len() >= 2 && rem[0] == wd_arrow() && is_plain_word(rem[1]) {
                    Some((ArmV { variant: ws[0], bindings: bs, body: rem[1] }, rem.skip(2)))
                } else {
                    None
                }
            },
        }
    } else if ws.len() >= 3 && ws[1] == wd_arrow() && is_plain_word(ws[2]) {
        Some((ArmV { variant: ws[0], bindings: Seq::<Seq<u8>>::empty(), body: ws[2] }, ws.skip(3)))
    } else {
        None
    }
}

/// Arms of a match body: each followed by a comma, the list closed by `}`
/// (consumed).
pub open spec fn parse_arm_list(ws: Seq<Seq<u8>>) -> Option<(Seq<ArmV>, Seq<Seq<u8>>)>
    decreases ws.len(),
{
    if ws.len() == 0 {
        None
    } else if ws[0] == wd_rbrace() {
        Some((Seq::<ArmV>::empty(), ws.skip(1)))
    } else {
        match parse_arm(ws) {
            None => None,
            Some((a, rem)) => {
                if rem.len() >= 1 && rem[0] == wd_comma() && rem.len() <= ws.len() {
                    match parse_arm_list(rem.skip(1)) {
                        None => None,
                        Some((more, rem2)) => Some((seq![a] + more, rem2)),
                    }
                } else {
                    None
                }
            },
        }
    }
}

/// A whole line declaring a union: `union Name { variants }`.
pub open spec fn parse_union_line(ws: Seq<Seq<u8>>) -> Option<UnionV> {
    if ws.len() >= 3 && ws[0] == kw_union() && is_ident(ws[1]) && ws[2] == wd_lbrace() {
        match parse_variant_list(ws.skip(3)) {
            None => None,
            Some((vs, rem)) => {
                if rem.len() == 0 {
                    Some(UnionV { name: ws[1], variants: vs })
                } else {
                    None
                }
            },
        }
    } else {
        None
    }
}

/// A whole line declaring a dispatch function:
/// `fn name ( param : Union ) { match param { arms } }`.
pub open spec fn parse_fn_line(ws: Seq<Seq<u8>>) -> Option<FnV> {
    if ws.len() >= 11 && ws[0] == kw_fn() && is_ident(ws[1]) && ws[2] == wd_lparen() && is_ident(
        ws[3],
    ) && ws[4] == wd_colon() && is_ident(ws[5]) && ws[6] == wd_rparen() && ws[7] == wd_lbrace()
        && ws[8] == kw_match() && ws[9] == ws[3] && ws[10] == wd_lbrace() {
        match parse_arm_list(ws.skip(11)) {
            None => None,
            Some((arms, rem)) => {
                if rem.len() == 1 && rem[0] == wd_rbrace() {
                    Some(FnV { name: ws[1], param: ws[3], union_name: ws[5], arms })
                } else {
                    None
                }
            },
        }
    } else {
        None
    }
}

/// One line of a source file as a declaration.
pub open spec fn parse_line(line: Seq<u8>) -> DeclV {
    let ws = words_of(line);
    if parse_union_line(ws) is Some {
        DeclV::Union(parse_union_line(ws)->Some_0)
    } else if parse_fn_line(ws) is Some {
        DeclV::Dispatch(parse_fn_line(ws)->Some_0)
    } else {
        DeclV::Other(line)
    }
}

/// Index of the first byte the dialect does not accept, or the length.
pub open spec fn first_bad_byte(s: Seq<u8>) -> int
    decreases s.len(),
{
    if s.len() == 0 {
        0
    } else if !is_src_byte(s[0]) {
        0
    } else {
        1 + first_bad_byte(s.skip(1))
    }
}

/// The whole text as a declaration tree; rejected only when it holds a
/// byte outside the dialect's character set.
pub open spec fn parse_text(s: Seq<u8>) -> Option<TreeV> {
    if all_src_bytes(s) {
        Some(split_on(s, NEWLINE).map(|i: int, l: Seq<u8>| parse_line(l)))
    } else {
        None
    }
}

/// An opaque declaration is a line the dialect's two declaration forms do
/// not recognize; printing keeps it verbatim.
pub open spec fn wf_other(line: Seq<u8>) -> bool {
    &&& all_src_bytes(line)
    &&& no_byte(line, NEWLINE)
    &&& parse_union_line(words_of(line)) is None
    &&& parse_fn_line(words_of(line)) is None
}

pub open spec fn wf_decl(d: DeclV) -> bool {
    match d {
        DeclV::Union(u) => wf_union(u),
        DeclV::Dispatch(f) => wf_fn(f),
        DeclV::Other(l) => wf_other(l),
    }
}

pub open spec fn wf_tree(t: TreeV) -> bool {
    &&& t.len() >= 1
    &&& forall|i: int| 0 <= i < t.len() ==> wf_decl(#[trigger] t[i])
}

pub proof fn lemma_first_bad_byte(s: Seq<u8>)
    ensures
        0 <= first_bad_byte(s) <= s.len(),
        forall|j: int| 0 <= j < first_bad_byte(s) ==> is_src_byte(#[trigger] s[j]),
        first_bad_byte(s) < s.len() ==> !is_src_byte(s[first_bad_byte(s)]),
        (first_bad_byte(s) == s.len()) <==> all_src_bytes(s),
    decreases s.len(),
{
    if s.len() == 0 {
    } else if !is_src_byte(s[0]) {
    } else {
        lemma_first_bad_byte(s.skip(1));
        assert forall|j: int| 0 <= j < first_bad_byte(s) implies is_src_byte(#[trigger] s[j]) by {
            if j >= 1 {
                assert(s[j] == s.skip(1)[j - 1]);
            }
        }
        if first_bad_byte(s) == s.len() {
            assert forall|j: int| 0 <= j < s.len() implies is_src_byte(#[trigger] s[j]) by {
                if j >= 1 {
                    assert(s[j] == s.skip(1)[j - 1]);
                }
            }
        }
        if all_src_bytes(s) {
            assert forall|j: int| 0 <= j < s.skip(1).len() implies is_src_byte(
                #[trigger] s.skip(1)[j],
            ) by {
                assert(s.skip(1)[j] == s[j + 1]);
            }
        }
    }
}

pub proof fn lemma_parse_field_list_props(ws: Seq<Seq<u8>>)
    ensures
        parse_field_list(ws) matches Some((fs, rem)) ==> {
            &&& rem.len() + 4 <= ws.len()
            &&& fs.len() >= 1
            &&& forall|i: int| 0 <= i < fs.len() ==> wf_field(#[trigger] fs[i])
        },
    decreases ws.len(),
{
    if ws.len() < 4 {
    } else if !is_ident(ws[0]) || ws[1] != wd_colon() || !is_plain_word(ws[2]) {
    } else if ws[3] == wd_comma() {
        lemma_parse_field_list_props(ws.skip(4));
    } else {
    }
}

pub proof fn lemma_parse_variant_props(ws: Seq<Seq<u8>>)
    ensures
        parse_variant(ws) matches Some((v, rem)) ==> {
            &&& rem.len() < ws.len()
            &&& wf_variant(v)
        },
{
    if ws.len() >= 2 && is_ident(ws[0]) && ws[1] == wd_lbrace() {
        lemma_parse_field_list_props(ws.skip(2));
    }
}

pub proof fn lemma_parse_variant_list_props(ws: Seq<Seq<u8>>)
    ensures
        parse_variant_list(ws) matches Some((vs, rem)) ==> {
            &&& rem.len() < ws.len()
            &&& forall|i: int| 0 <= i < vs.len() ==> wf_variant(#[trigger] vs[i])
        },
    decreases ws.len(),
{
    if ws.len() == 0 {
    } else if ws[0] == wd_rbrace() {
    } else {
        lemma_parse_variant_props(ws);
        match parse_variant(ws) {
            None => {},
            Some((v, rem)) => {
                if rem.len() >= 1 && rem[0] == wd_comma() && rem.len() <= ws.len() {
                    lemma_parse_variant_list_props(rem.skip(1));
                }
            },
        }
    }
}

pub proof fn lemma_parse_binding_list_props(ws: Seq<Seq<u8>>)
    ensures
        parse_binding_list(ws) matches Some((bs, rem)) ==> {
            &&& rem.len() + 2 <= ws.len()
            &&& bs.len() >= 1
            &&& forall|i: int| 0 <= i < bs.len() ==> is_ident(#[trigger] bs[i])
        },
    decreases ws.len(),
{
    if ws.len() < 2 {
    } else if !is_ident(ws[0]) {
    } else if ws[1] == wd_comma() {
        lemma_parse_binding_list_props(ws.skip(2));
    } else {
    }
}

pub proof fn lemma_parse_arm_props(ws: Seq<Seq<u8>>)
    ensures
        parse_arm(ws) matches Some((a, rem)) ==> {
            &&& rem.len() < ws.len()
            &&& wf_arm(a)
        },
{
    if ws.len() >= 2 && is_ident(ws[0]) && ws[1] == wd_lbrace() {
        lemma_parse_binding_list_props(ws.skip(2));
    }
}

pub proof fn lemma_parse_arm_list_props(ws: Seq<Seq<u8>>)
    ensures
        parse_arm_list(ws) matches Some((more, rem)) ==> {
            &&& rem.len() < ws.len()
            &&& forall|i: int| 0 <= i < more.len() ==> wf_arm(#[trigger] more[i])
        },
    decreases ws.len(),
{
    if ws.len() == 0 {
    } else if ws[0] == wd_rbrace() {
    } else {
        lemma_parse_arm_props(ws);
        match parse_arm(ws) {
            None => {},
            Some((a, rem)) => {
                if rem.len() >= 1 && rem[0] == wd_comma() && rem.len() <= ws.len() {
                    lemma_parse_arm_list_props(rem.skip(1));
                }
            },
        }
    }
}

pub proof fn lemma_parse_line_wf(line: Seq<u8>)
    requires
        all_src_bytes(line),
        no_byte(line, NEWLINE),
    ensures
        wf_decl(parse_line(line)),
{
    let ws = words_of(line);
    if parse_union_line(ws) is Some {
        lemma_parse_variant_list_props(ws.skip(3));
    } else if parse_fn_line(ws) is Some {
        lemma_parse_arm_list_props(ws.skip(11));
    } else {
    }
}

pub proof fn lemma_parse_text_wf(s: Seq<u8>)
    ensures
        parse_text(s) matches Some(t) ==> wf_tree(t),
{
    if all_src_bytes(s) {
        let lines = split_on(s, NEWLINE);
        crate::text::lemma_split_len(s, NEWLINE);
        crate::text::lemma_split_pieces(s, NEWLINE, |b: u8| is_src_byte(b));
        let t = parse_text(s)->Some_0;
        assert forall|i: int| 0 <= i < t.len() implies wf_decl(#[trigger] t[i]) by {
            assert(all_src_bytes(lines[i])) by {
                assert(forall|j: int|
                    0 <= j < lines[i].len() ==> is_src_byte(#[trigger] lines[i][j]));
            }
            lemma_parse_line_wf(lines[i]);
        }
    }
}

fn px_field_list(ws: &Vec<Vec<u8>>, i: usize) -> (r: Option<(Vec<crate::ast::Field>, usize)>)
    requires
        i <= ws@.len(),
    ensures
        match r {
            Some((fs, j)) => {
                &&& i <= j <= ws@.len()
                &&& parse_field_list(dvs(ws@).skip(i as int)) == Some(
                    (fs.deep_view(), dvs(ws@).skip(j as int)),
                )
            },
            None => parse_field_list(dvs(ws@).skip(i as int)) is None,
        },
    decreases ws@.len() - i,
{
    broadcast use crate::text::text_dv_lemmas;

    let ghost tail = dvs(ws@).skip(i as int);
    let n = ws.len();
    if n - i < 4 {
        return None;
    }
    proof {
        assert(tail[0] == ws@[i as int]@);
        assert(tail[1] == ws@[i + 1]@);
        assert(tail[2] == ws@[i + 2]@);
        assert(tail[3] == ws@[i + 3]@);
    }
    if !crate::ast::check_ident(&ws[i]) {
        return None;
    }
    if !crate::ast::tok1(&ws[i + 1], 58) {
        proof {
            assert(tail[1] != wd_colon());
        }
        return None;
    }
    proof {
        assert(tail[1] == wd_colon());
    }
    if !crate::ast::check_plain_word(&ws[i + 2]) {
        return None;
    }
    let f = crate::ast::Field {
        name: crate::text::dup_bytes(&ws[i]),
        ty: crate::text::dup_bytes(&ws[i + 2]),
    };
    proof {
        assert(f.deep_view() == FieldV { name: tail[0], ty: tail[2] });
    }
    if crate::ast::tok1(&ws[i + 3], 44) {
        proof {
            assert(tail[3] == wd_comma());
            assert(tail.skip(4) =~~= dvs(ws@).skip(i + 4));
        }
        match px_field_list(ws, i + 4) {
            None => None,
            Some((more, j)) => {
                let mut fs = more;
                fs.insert(0, f);
                proof {
                    assert(fs.deep_view() =~~= seq![f.deep_view()] + more.deep_view());
                }
                Some((fs, j))
            },
        }
    } else if crate::ast::tok1(&ws[i + 3], 125) {
        proof {
            assert(tail[3] == wd_rbrace());
            assert(tail[3] != wd_comma());
            assert(tail.skip(4) =~~= dvs(ws@).skip(i + 4));
        }
        let mut fs: Vec<crate::ast::Field> = Vec::new();
        fs.push(f);
        proof {
            assert(fs.deep_view() =~~= seq![f.deep_view()]);
        }
        Some((fs, i + 4))
    } else {
        proof {
            assert(tail[3] != wd_comma() && tail[3] != wd_rbrace());
        }
        None
    }
}

fn px_variant(ws: &Vec<Vec<u8>>, i: usize) -> (r: Option<(crate::ast::Variant, usize)>)
    requires
        i <= ws@.len(),
    ensures
        match r {
            Some((v, j)) => {
                &&& i <= j <= ws@.len()
                &&& parse_variant(dvs(ws@).skip(i as int)) == Some(
                    (v.deep_view(), dvs(ws@).skip(j as int)),
                )
            },
            None => parse_variant(dvs(ws@).skip(i as int)) is None,
        },
{
    broadcast use crate::text::text_dv_lemmas;

    let ghost tail = dvs(ws@).skip(i as int);
    let n = ws.len();
    if n - i < 1 {
        return None;
    }
    proof {
        assert(tail[0] == ws@[i as int]@);
    }
    if !crate::ast::check_ident(&ws[i]) {
        return None;
    }
    let name = crate::text::dup_bytes(&ws[i]);
    if n - i >= 2 && crate::ast::tok1(&ws[i + 1], 123) {
        proof {
            assert(tail[1] == ws@[i + 1]@);
            assert(tail[1] == wd_lbrace());
            assert(tail.skip(2) =~~= dvs(ws@).skip(i + 2));
        }
        match px_field_list(ws, i + 2) {
            None => None,
            Some((fs, j)) => {
                let v = crate::ast::Variant { name, fields: fs };
                proof {
                    assert(v.deep_view() == VariantV { name: tail[0], fields: fs.deep_view() });
                }
                Some((v, j))
            },
        }
    } else {
        proof {
            if tail.len() >= 2 {
                assert(tail[1] == ws@[i + 1]@);
                assert(tail[1] != wd_lbrace());
            }
            assert(tail.skip(1) =~~= dvs(ws@).skip(i + 1));
        }
        let v = crate::ast::Variant { name, fields: Vec::new() };
        proof {
            assert(v.deep_view() =~~= VariantV {
                name: tail[0],
                fields: Seq::<FieldV>::empty(),
            });
        }
        Some((v, i + 1))
    }
}

fn px_variant_list(ws: &Vec<Vec<u8>>, i: usize) -> (r: Option<(Vec<crate::ast::Variant>, usize)>)
    requires
        i <= ws@.len(),
    ensures
        match r {
            Some((vs, j)) => {
                &&& i <= j <= ws@.len()
                &&& parse_variant_list(dvs(ws@).skip(i as int)) == Some(
                    (vs.deep_view(), dvs(ws@).skip(j as int)),
                )
            },
            None => parse_variant_list(dvs(ws@).skip(i as int)) is None,
        },
    decreases ws@.len() - i,
{
    broadcast use crate::text::text_dv_lemmas;

    let ghost tail = dvs(ws@).skip(i as int);
    let n = ws.len();
    if n - i < 1 {
        return None;
    }
    proof {
        assert(tail[0] == ws@[i as int]@);
    }
    if crate::ast::tok1(&ws[i], 125) {
        proof {
            assert(tail[0] == wd_rbrace());
            assert(tail.skip(1) =~~= dvs(ws@).skip(i + 1));
        }
        let vs: Vec<crate::ast::Variant> = Vec::new();
        proof {
            assert(vs.deep_view() =~~= Seq::<VariantV>::empty());
        }
        return Some((vs, i + 1));
    }
    proof {
        assert(tail[0] != wd_rbrace());
    }
    match px_variant(ws, i) {
        None => None,
        Some((v, j)) => {
            let ghost rem = dvs(ws@).skip(j as int);
            proof {
                assert(rem.len() <= tail.len());
            }
            if j < ws.len() && crate::ast::tok1(&ws[j], 44) {
                proof {
                    assert(rem[0] == ws@[j as int]@);
                    assert(rem[0] == wd_comma());
                    assert(rem.skip(1) =~~= dvs(ws@).skip(j + 1));
                }
                match px_variant_list(ws, j + 1) {
                    None => None,
                    Some((more, j2)) => {
                        let mut vs = more;
                        vs.insert(0, v);
                        proof {
                            assert(vs.deep_view() =~~= seq![v.deep_view()] + more.deep_view());
                        }
                        Some((vs, j2))
                    },
                }
            } else {
                proof {
                    if rem.len() >= 1 {
                        assert(rem[0] == ws@[j as int]@);
                        assert(rem[0] != wd_comma());
                    }
                }
                None
            }
        },
    }
}

fn px_binding_list(ws: &Vec<Vec<u8>>, i: usize) -> (r: Option<(Vec<Vec<u8>>, usize)>)
    requires
        i <= ws@.len(),
    ensures
        match r {
            Some((bs, j)) => {
                &&& i <= j <= ws@.len()
                &&& parse_binding_list(dvs(ws@).skip(i as int)) == Some(
                    (bs.deep_view(), dvs(ws@).skip(j as int)),
                )
            },
            None => parse_binding_list(dvs(ws@).skip(i as int)) is None,
        },
    decreases ws@.len() - i,
{
    broadcast use crate::text::text_dv_lemmas;

    let ghost tail = dvs(ws@).skip(i as int);
    let n = ws.len();
    if n - i < 2 {
        return None;
    }
    proof {
        assert(tail[0] == ws@[i as int]@);
        assert(tail[1] == ws@[i + 1]@);
    }
    if !crate::ast::check_ident(&ws[i]) {
        return None;
    }
    let b0 = crate::text::dup_bytes(&ws[i]);
    if crate::ast::tok1(&ws[i + 1], 44) {
        proof {
            assert(tail[1] == wd_comma());
            assert(tail.skip(2) =~~= dvs(ws@).skip(i + 2));
        }
        match px_binding_list(ws, i + 2) {
            None => None,
            Some((more, j)) => {
                let mut bs = more;
                bs.insert(0, b0);
                proof {
                    assert(bs.deep_view() =~~= seq![b0@] + more.deep_view());
                }
                Some((bs, j))
            },
        }
    } else if crate::ast::tok1(&ws[i + 1], 125) {
        proof {
            assert(tail[1] == wd_rbrace());
            assert(tail[1] != wd_comma());
            assert(tail.skip(2) =~~= dvs(ws@).skip(i + 2));
        }
        let mut bs: Vec<Vec<u8>> = Vec::new();
        bs.push(b0);
        proof {
            assert(bs.deep_view() =~~= seq![b0@]);
        }
        Some((bs, i + 2))
    } else {
        proof {
            assert(tail[1] != wd_comma() && tail[1] != wd_rbrace());
        }
        None
    }
}

fn px_arm(ws: &Vec<Vec<u8>>, i: usize) -> (r: Option<(crate::ast::Arm, usize)>)
    requires
        i <= ws@.len(),
    ensures
        match r {
            Some((a, j)) => {
                &&& i <= j <= ws@.len()
                &&& parse_arm(dvs(ws@).skip(i as int)) == Some(
                    (a.deep_view(), dvs(ws@).skip(j as int)),
                )
            },
            None => parse_arm(dvs(ws@).skip(i as int)) is None,
        },
{
    broadcast use crate::text::text_dv_lemmas;

    let ghost tail = dvs(ws@).skip(i as int);
    let n = ws.len();
    if n - i < 1 {
        return None;
    }
    proof {
        assert(tail[0] == ws@[i as int]@);
    }
    if !crate::ast::check_ident(&ws[i]) {
        return None;
    }
    let variant = crate::text::dup_bytes(&ws[i]);
    if n - i >= 2 && crate::ast::tok1(&ws[i + 1], 123) {
        proof {
            assert(tail[1] == ws@[i + 1]@);
            assert(tail[1] == wd_lbrace());
            assert(tail.skip(2) =~~= dvs(ws@).skip(i + 2));
        }
        match px_binding_list(ws, i + 2) {
            None => None,
            Some((bs, j)) => {
                let ghost rem = dvs(ws@).skip(j as int);
                if n - j >= 2 && crate::ast::tok2(&ws[j], 61, 62) && crate::ast::check_plain_word(
                    &ws[j + 1],
                ) {
                    proof {
                        assert(rem[0] == ws@[j as int]@);
                        assert(rem[1] == ws@[j + 1]@);
                        assert(rem[0] == wd_arrow());
                        assert(rem.skip(2) =~~= dvs(ws@).skip(j + 2));
                    }
                    let a = crate::ast::Arm {
                        variant,
                        bindings: bs,
                        body: crate::text::dup_bytes(&ws[j + 1]),
                    };
                    proof {
                        assert(a.deep_view() == ArmV {
                            variant: tail[0],
                            bindings: bs.deep_view(),
                            body: rem[1],
                        });
                    }
                    Some((a, j + 2))
                } else {
                    proof {
                        if rem.len() >= 2 {
                            assert(rem[0] == ws@[j as int]@);
                            assert(rem[1] == ws@[j + 1]@);
                        }
                    }
                    None
                }
            },
        }
    } else if n - i >= 3 && crate::ast::tok2(&ws[i + 1], 61, 62) && crate::ast::check_plain_word(
        &ws[i + 2],
    ) {
        proof {
            assert(tail[1] == ws@[i + 1]@);
            assert(tail[2] == ws@[i + 2]@);
            assert(tail[1] != wd_lbrace());
            assert(tail.skip(3) =~~= dvs(ws@).skip(i + 3));
        }
        let a = crate::ast::Arm {
            variant,
            bindings: Vec::new(),
            body: crate::text::dup_bytes(&ws[i + 2]),
        };
        proof {
            assert(a.deep_view() =~~= ArmV {
                variant: tail[0],
                bindings: Seq::<Seq<u8>>::empty(),
                body: tail[2],
            });
        }
        Some((a, i + 3))
    } else {
        proof {
            if tail.len() >= 2 {
                assert(tail[1] == ws@[i + 1]@);
            }
            if tail.len() >= 3 {
                assert(tail[2] == ws@[i + 2]@);
            }
        }
        None
    }
}

fn px_arm_list(ws: &Vec<Vec<u8>>, i: usize) -> (r: Option<(Vec<crate::ast::Arm>, usize)>)
    requires
        i <= ws@.len(),
    ensures
        match r {
            Some((arms, j)) => {
                &&& i <= j <= ws@.len()
                &&& parse_arm_list(dvs(ws@).skip(i as int)) == Some(
                    (arms.deep_view(), dvs(ws@).skip(j as int)),
                )
            },
            None => parse_arm_list(dvs(ws@).skip(i as int)) is None,
        },
    decreases ws@.len() - i,
{
    broadcast use crate::text::text_dv_lemmas;

    let ghost tail = dvs(ws@).skip(i as int);
    let n = ws.len();
    if n - i < 1 {
        return None;
    }
    proof {
        assert(tail[0] == ws@[i as int]@);
    }
    if crate::ast::tok1(&ws[i], 125) {
        proof {
            assert(tail[0] == wd_rbrace());
            assert(tail.skip(1) =~~= dvs(ws@).skip(i + 1));
        }
        let arms: Vec<crate::ast::Arm> = Vec::new();
        proof {
            assert(arms.deep_view() =~~= Seq::<ArmV>::empty());
        }
        return Some((arms, i + 1));
    }
    proof {
        assert(tail[0] != wd_rbrace());
    }
    match px_arm(ws, i) {
        None => None,
        Some((a, j)) => {
            let ghost rem = dvs(ws@).skip(j as int);
            proof {
                assert(rem.len() <= tail.len());
            }
            if j < ws.len() && crate::ast::tok1(&ws[j], 44) {
                proof {
                    assert(rem[0] == ws@[j as int]@);
                    assert(rem[0] == wd_comma());
                    assert(rem.skip(1) =~~= dvs(ws@).skip(j + 1));
                }
                match px_arm_list(ws, j + 1) {
                    None => None,
                    Some((more, j2)) => {
                        let mut arms = more;
                        arms.insert(0, a);
                        proof {
                            assert(arms.deep_view() =~~= seq![a.deep_view()] + more.deep_view());
                        }
                        Some((arms, j2))
                    },
                }
            } else {
                proof {
                    if rem.len() >= 1 {
                        assert(rem[0] == ws@[j as int]@);
                        assert(rem[0] != wd_comma());
                    }
                }
                None
            }
        },
    }
}

fn px_union_line(ws: &Vec<Vec<u8>>) -> (r: Option<crate::ast::UnionDecl>)
    ensures
        match r {
            Some(u) => parse_union_line(dvs(ws@)) == Some(u.deep_view()),
            None => parse_union_line(dvs(ws@)) is None,
        },
{
    broadcast use crate::text::text_dv_lemmas;

    let ghost wv = dvs(ws@);
    let n = ws.len();
    if n < 3 {
        return None;
    }
    proof {
        assert(wv[0] == ws@[0]@);
        assert(wv[1] == ws@[1]@);
        assert(wv[2] == ws@[2]@);
    }
    if !crate::ast::is_kw_union(&ws[0]) {
        return None;
    }
    if !crate::ast::check_ident(&ws[1]) {
        return None;
    }
    if !crate::ast::tok1(&ws[2], 123) {
        proof {
            assert(wv[2] != wd_lbrace());
        }
        return None;
    }
    proof {
        assert(wv.skip(3) =~~= dvs(ws@).skip(3));
    }
    match px_variant_list(ws, 3) {
        None => None,
        Some((vs, j)) => {
            if j == ws.len() {
                proof {
                    assert(dvs(ws@).skip(j as int).len() == 0);
                }
                let u = crate::ast::UnionDecl { name: crate::text::dup_bytes(&ws[1]), variants: vs };
                proof {
                    assert(u.deep_view() == UnionV { name: wv[1], variants: vs.deep_view() });
                }
                Some(u)
            } else {
                proof {
                    assert(dvs(ws@).skip(j as int).len() > 0);
                }
                None
            }
        },
    }
}

fn px_fn_line(ws: &Vec<Vec<u8>>) -> (r: Option<crate::ast::DispatchFn>)
    ensures
        match r {
            Some(f) => parse_fn_line(dvs(ws@)) == Some(f.deep_view()),
            None => parse_fn_line(dvs(ws@)) is None,
        },
{
    broadcast use crate::text::text_dv_lemmas;

    let ghost wv = dvs(ws@);
    let n = ws.len();
    if n < 11 {
        return None;
    }
    proof {
        assert(wv[0] == ws@[0]@);
        assert(wv[1] == ws@[1]@);
        assert(wv[2] == ws@[2]@);
        assert(wv[3] == ws@[3]@);
        assert(wv[4] == ws@[4]@);
        assert(wv[5] == ws@[5]@);
        assert(wv[6] == ws@[6]@);
        assert(wv[7] == ws@[7]@);
        assert(wv[8] == ws@[8]@);
        assert(wv[9] == ws@[9]@);
        assert(wv[10] == ws@[10]@);
    }
    if !crate::ast::is_kw_fn(&ws[0]) {
        return None;
    }
    if !crate::ast::check_ident(&ws[1]) {
        return None;
    }
    if !crate::ast::tok1(&ws[2], 40) {
        proof {
            assert(wv[2] != wd_lparen());
        }
        return None;
    }
    if !crate::ast::check_ident(&ws[3]) {
        return None;
    }
    if !crate::ast::tok1(&ws[4], 58) {
        proof {
            assert(wv[4] != wd_colon());
        }
        return None;
    }
    if !crate::ast::check_ident(&ws[5]) {
        return None;
    }
    if !crate::ast::tok1(&ws[6], 41) {
        proof {
            assert(wv[6] != wd_rparen());
        }
        return None;
    }
    if !crate::ast::tok1(&ws[7], 123) {
        proof {
            assert(wv[7] != wd_lbrace());
        }
        return None;
    }
    if !crate::ast::is_kw_match(&ws[8]) {
        return None;
    }
    if !crate::ast::bytes_eq(&ws[9], &ws[3]) {
        return None;
    }
    if !crate::ast::tok1(&ws[10], 123) {
        proof {
            assert(wv[10] != wd_lbrace());
        }
        return None;
    }
    match px_arm_list(ws, 11) {
        None => None,
        Some((arms, j)) => {
            let ghost rem = dvs(ws@).skip(j as int);
            if j < ws.len() && ws.len() - j == 1 && crate::ast::tok1(&ws[j], 125) {
                proof {
                    assert(rem.len() == 1);
                    assert(rem[0] == ws@[j as int]@);
                    assert(rem[0] == wd_rbrace());
                }
                let f = crate::ast::DispatchFn {
                    name: crate::text::dup_bytes(&ws[1]),
                    param: crate::text::dup_bytes(&ws[3]),
                    union_name: crate::text::dup_bytes(&ws[5]),
                    arms,
                };
                proof {
                    assert(f.deep_view() == FnV {
                        name: wv[1],
                        param: wv[3],
                        union_name: wv[5],
                        arms: arms.deep_view(),
                    });
                }
                Some(f)
            } else {
                proof {
                    if rem.len() == 1 {
                        assert(j < ws@.len());
                        assert(rem[0] == ws@[j as int]@);
                        assert(rem[0] != wd_rbrace());
                    }
                }
                None
            }
        },
    }
}

/// Parse one line into a declaration; anything unrecognized is kept
/// verbatim as an opaque declaration.
fn px_line(line: &Vec<u8>) -> (d: crate::ast::Decl)
    ensures
        d.deep_view() == parse_line(line@),
{
    broadcast use crate::text::text_dv_lemmas;

    let ws = crate::text::split_line_words(line);
    proof {
        assert(dvs(ws@) == words_of(line@));
    }
    match px_union_line(&ws) {
        Some(u) => {
            return crate::ast::Decl::Union(u);
        },
        None => {},
    }
    match px_fn_line(&ws) {
        Some(f) => {
            return crate::ast::Decl::Dispatch(f);
        },
        None => {},
    }
    crate::ast::Decl::Other(crate::text::dup_bytes(line))
}

/// Parse a whole source text.  `Err(offset)` reports the first byte the
/// dialect does not accept; otherwise every line becomes a declaration.
pub fn parse(text: &Vec<u8>) -> (r: Result<crate::ast::SourceTree, usize>)
    ensures
        match r {
            Ok(t) => parse_text(text@) == Some(t.deep_view()),
            Err(off) => {
                &&& parse_text(text@) is None
                &&& off as int == first_bad_byte(text@)
            },
        },
{
    broadcast use crate::text::text_dv_lemmas;

    let mut i: usize = 0;
    while i < text.len()
        invariant
            i <= text.len(),
            forall|j: int| 0 <= j < i ==> is_src_byte(#[trigger] text@[j]),
        decreases text.len() - i,
    {
        let b = text[i];
        if !((32 <= b && b <= 126) || b == NEWLINE) {
            proof {
                lemma_first_bad_byte(text@);
                let fb = first_bad_byte(text@);
                if fb < i {
                    assert(is_src_byte(text@[fb]));
                    assert(false);
                }
                if fb > i {
                    assert(is_src_byte(text@[i as int]));
                    assert(false);
                }
                assert(!all_src_bytes(text@));
            }
            return Err(i);
        }
        i += 1;
    }
    proof {
        assert(all_src_bytes(text@));
    }
    let lines = crate::text::split_bytes(text, NEWLINE);
    let ghost lv = dvs(lines@);
    let mut decls: Vec<crate::ast::Decl> = Vec::new();
    let mut k: usize = 0;
    proof {
        assert(decls.deep_view() =~~= lv.take(0).map(|i: int, l: Seq<u8>| parse_line(l)));
    }
    while k < lines.len()
        invariant
            k <= lines.len(),
            lv == dvs(lines@),
            lv == split_on(text@, NEWLINE),
            decls.deep_view() == lv.take(k as int).map(|i: int, l: Seq<u8>| parse_line(l)),
        decreases lines.len() - k,
    {
        broadcast use crate::text::text_dv_lemmas;

        let d = px_line(&lines[k]);
        proof {
            assert(lv[k as int] == lines@[k as int]@);
            assert(d.deep_view() == parse_line(lv[k as int]));
        }
        decls.push(d);
        proof {
            assert(lv.take(k as int).push(lv[k as int]) =~~= lv.take(k + 1));
            assert(decls.deep_view() =~~= lv.take(k + 1).map(|i: int, l: Seq<u8>| parse_line(l)));
        }
        k += 1;
    }
    proof {
        assert(lv.take(lines@.len() as int) =~~= lv);
    }
    Ok(crate::ast::SourceTree { decls })
}

} // verus!
