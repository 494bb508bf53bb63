//! The structural tree of a source file: a tagged union declaration, a
//! dispatch function built around one match over that union, or an opaque
//! declaration kept verbatim.

use vstd::prelude::*;
use crate::text::NEWLINE;

verus! {

/// A named field of a variant, with its type reference kept as text.
#[derive(Debug)]
pub struct Field {
    pub name: Vec<u8>,
    pub ty: Vec<u8>,
}

/// A variant of the tagged union: a name and its fields (no fields means
/// a unit variant).
#[derive(Debug)]
pub struct Variant {
    pub name: Vec<u8>,
    pub fields: Vec<Field>,
}

/// The tagged union type declaration.
#[derive(Debug)]
pub struct UnionDecl {
    pub name: Vec<u8>,
    pub variants: Vec<Variant>,
}

/// One arm of a dispatch function: a pattern naming a variant, the field
/// names it binds, and its body expression word.
#[derive(Debug)]
pub struct Arm {
    pub variant: Vec<u8>,
    pub bindings: Vec<Vec<u8>>,
    pub body: Vec<u8>,
}

/// A dispatch function: its body is exactly one match over its parameter,
/// whose type names the tagged union it dispatches on.
#[derive(Debug)]
pub struct DispatchFn {
    pub name: Vec<u8>,
    pub param: Vec<u8>,
    pub union_name: Vec<u8>,
    pub arms: Vec<Arm>,
}

/// One top-level declaration of a source file.
#[derive(Debug)]
pub enum Decl {
    Union(UnionDecl),
    Dispatch(DispatchFn),
    Other(Vec<u8>),
}

/// A parsed source file: its declarations in order.
#[derive(Debug)]
pub struct SourceTree {
    pub decls: Vec<Decl>,
}

#[verifier::ext_equal]
pub struct FieldV {
    pub name: Seq<u8>,
    pub ty: Seq<u8>,
}

#[verifier::ext_equal]
pub struct VariantV {
    pub name: Seq<u8>,
    pub fields: Seq<FieldV>,
}

#[verifier::ext_equal]
pub struct UnionV {
    pub name: Seq<u8>,
    pub variants: Seq<VariantV>,
}

#[verifier::ext_equal]
pub struct ArmV {
    pub variant: Seq<u8>,
    pub bindings: Seq<Seq<u8>>,
    pub body: Seq<u8>,
}

#[verifier::ext_equal]
pub struct FnV {
    pub name: Seq<u8>,
    pub param: Seq<u8>,
    pub union_name: Seq<u8>,
    pub arms: Seq<ArmV>,
}

#[verifier::ext_equal]
pub enum DeclV {
    Union(UnionV),
    Dispatch(FnV),
    Other(Seq<u8>),
}

pub type TreeV = Seq<DeclV>;

impl DeepView for Field {
    type V = FieldV;

    open spec fn deep_view(&self) -> FieldV {
        FieldV { name: self.name@, ty: self.ty@ }
    }
}

impl DeepView for Variant {
    type V = VariantV;

    open spec fn deep_view(&self) -> VariantV {
        VariantV { name: self.name@, fields: crate::text::dvs(self.fields@) }
    }
}

impl DeepView for UnionDecl {
    type V = UnionV;

    open spec fn deep_view(&self) -> UnionV {
        UnionV { name: self.name@, variants: crate::text::dvs(self.variants@) }
    }
}

impl DeepView for Arm {
    type V = ArmV;

    open spec fn deep_view(&self) -> ArmV {
        ArmV {
            variant: self.variant@,
            bindings: crate::text::dvs(self.bindings@),
            body: self.body@,
        }
    }
}

impl DeepView for DispatchFn {
    type V = FnV;

    open spec fn deep_view(&self) -> FnV {
        FnV {
            name: self.name@,
            param: self.param@,
            union_name: self.union_name@,
            arms: crate::text::dvs(self.arms@),
        }
    }
}

impl DeepView for Decl {
    type V = DeclV;

    open spec fn deep_view(&self) -> DeclV {
        match self {
            Decl::Union(u) => DeclV::Union(u.deep_view()),
            Decl::Dispatch(f) => DeclV::Dispatch(f.deep_view()),
            Decl::Other(s) => DeclV::Other(s@),
        }
    }
}

impl DeepView for SourceTree {
    type V = TreeV;

    open spec fn deep_view(&self) -> TreeV {
        crate::text::dvs(self.decls@)
    }
}

/// Bytes the dialect accepts in a source file: printable space-range
/// characters and the line separator.
pub open spec fn is_src_byte(b: u8) -> bool {
    (32 <= b && b <= 126) || b == NEWLINE
}

pub open spec fn all_src_bytes(s: Seq<u8>) -> bool {
    forall|i: int| 0 <= i < s.len() ==> is_src_byte(#[trigger] s[i])
}

pub open spec fn is_ident_start_byte(b: u8) -> bool {
    (97 <= b && b <= 122) || (65 <= b && b <= 90) || b == 95
}

pub open spec fn is_ident_byte(b: u8) -> bool {
    is_ident_start_byte(b) || (48 <= b && b <= 57)
}

/// A legal identifier of the dialect.
pub open spec fn is_ident(w: Seq<u8>) -> bool {
    &&& w.len() >= 1
    &&& is_ident_start_byte(w[0])
    &&& forall|i: int| 0 <= i < w.len() ==> is_ident_byte(#[trigger] w[i])
}

pub open spec fn wd_lbrace() -> Seq<u8> {
    seq![123u8]
}

pub open spec fn wd_rbrace() -> Seq<u8> {
    seq![125u8]
}

pub open spec fn wd_comma() -> Seq<u8> {
    seq![44u8]
}

pub open spec fn wd_colon() -> Seq<u8> {
    seq![58u8]
}

pub open spec fn wd_lparen() -> Seq<u8> {
    seq![40u8]
}

pub open spec fn wd_rparen() -> Seq<u8> {
    seq![41u8]
}

pub open spec fn wd_arrow() -> Seq<u8> {
    seq![61u8, 62u8]
}

pub open spec fn kw_union() -> Seq<u8> {
    seq![117u8, 110u8, 105u8, 111u8, 110u8]
}

pub open spec fn kw_fn() -> Seq<u8> {
    seq![102u8, 110u8]
}

pub open spec fn kw_match() -> Seq<u8> {
    seq![109u8, 97u8, 116u8, 99u8, 104u8]
}

pub open spec fn is_punct_word(w: Seq<u8>) -> bool {
    ||| w == wd_lbrace()
    ||| w == wd_rbrace()
    ||| w == wd_comma()
    ||| w == wd_colon()
    ||| w == wd_lparen()
    ||| w == wd_rparen()
    ||| w == wd_arrow()
}

/// A free-standing word token: printable, space-free, and not one of the
/// punctuation tokens.  Type references and arm bodies are such words.
pub open spec fn is_plain_word(w: Seq<u8>) -> bool {
    &&& w.len() >= 1
    &&& (forall|i: int| 0 <= i < w.len() ==> 33 <= #[trigger] w[i] && w[i] <= 126)
    &&& !is_punct_word(w)
}

pub proof fn lemma_ident_is_plain(w: Seq<u8>)
    requires
        is_ident(w),
    ensures
        is_plain_word(w),
{
    assert(!is_punct_word(w)) by {
        if w == wd_lbrace() {
            assert(w[0] == 123);
        }
        if w == wd_rbrace() {
            assert(w[0] == 125);
        }
        if w == wd_comma() {
            assert(w[0] == 44);
        }
        if w == wd_colon() {
            assert(w[0] == 58);
        }
        if w == wd_lparen() {
            assert(w[0] == 40);
        }
        if w == wd_rparen() {
            assert(w[0] == 41);
        }
        if w == wd_arrow() {
            assert(w[0] == 61);
        }
    }
}

/// A word that can stand in a canonical line: non-empty, printable, and
/// free of both separators.
pub open spec fn is_word(w: Seq<u8>) -> bool {
    &&& w.len() >= 1
    &&& forall|i: int| 0 <= i < w.len() ==> 33 <= #[trigger] w[i] && w[i] <= 126
}

pub open spec fn wf_field(f: FieldV) -> bool {
    &&& is_ident(f.name)
    &&& is_plain_word(f.ty)
}

pub open spec fn wf_variant(v: VariantV) -> bool {
    &&& is_ident(v.name)
    &&& forall|i: int| 0 <= i < v.fields.len() ==> wf_field(#[trigger] v.fields[i])
}

pub open spec fn wf_union(u: UnionV) -> bool {
    &&& is_ident(u.name)
    &&& forall|i: int| 0 <= i < u.variants.len() ==> wf_variant(#[trigger] u.variants[i])
}

pub open spec fn wf_arm(a: ArmV) -> bool {
    &&& is_ident(a.variant)
    &&& forall|i: int| 0 <= i < a.bindings.len() ==> is_ident(#[trigger] a.bindings[i])
    &&& is_plain_word(a.body)
}

pub open spec fn wf_fn(f: FnV) -> bool {
    &&& is_ident(f.name)
    &&& is_ident(f.param)
    &&& is_ident(f.union_name)
    &&& forall|i: int| 0 <= i < f.arms.len() ==> wf_arm(#[trigger] f.arms[i])
}

/// Exact comparison of two byte strings.
pub fn bytes_eq(a: &Vec<u8>, b: &Vec<u8>) -> (r: bool)
    ensures
        r == (a@ == b@),
{
    if a.len() != b.len() {
        proof {
            assert(a@ != b@);
        }
        return false;
    }
    let mut i: usize = 0;
    while i < a.len()
        invariant
            i <= a.len(),
            a@.len() == b@.len(),
            forall|j: int| 0 <= j < i ==> a@[j] == b@[j],
        decreases a.len() - i,
    {
        if a[i] != b[i] {
            return false;
        }
        i += 1;
    }
    proof {
        assert(a@ =~= b@);
    }
    true
}

/// Test a word against a one-byte token.
pub fn tok1(w: &Vec<u8>, b: u8) -> (r: bool)
    ensures
        r == (w@ == seq![b]),
{
    if w.len() == 1 && w[0] == b {
        proof {
            assert(w@ =~= seq![b]);
        }
        true
    } else {
        proof {
            if w@ == seq![b] {
                assert(w@.len() == 1);
                assert(w@[0] == b);
            }
        }
        false
    }
}

/// Test a word against a two-byte token.
pub fn tok2(w: &Vec<u8>, b0: u8, b1: u8) -> (r: bool)
    ensures
        r == (w@ == seq![b0, b1]),
{
    if w.len() == 2 && w[0] == b0 && w[1] == b1 {
        proof {
            assert(w@ =~= seq![b0, b1]);
        }
        true
    } else {
        proof {
            if w@ == seq![b0, b1] {
                assert(w@.len() == 2);
                assert(w@[0] == b0 && w@[1] == b1);
            }
        }
        false
    }
}

pub fn is_kw_union(w: &Vec<u8>) -> (r: bool)
    ensures
        r == (w@ == kw_union()),
{
    if w.len() == 5 && w[0] == 117 && w[1] == 110 && w[2] == 105 && w[3] == 111 && w[4] == 110 {
        proof {
            assert(w@ =~= kw_union());
        }
        true
    } else {
        proof {
            if w@ == kw_union() {
                assert(w@.len() == 5);
                assert(w@[0] == 117 && w@[1] == 110 && w@[2] == 105 && w@[3] == 111 && w@[4]
                    == 110);
            }
        }
        false
    }
}

pub fn is_kw_fn(w: &Vec<u8>) -> (r: bool)
    ensures
        r == (w@ == kw_fn()),
{
    tok2(w, 102, 110)
}

pub fn is_kw_match(w: &Vec<u8>) -> (r: bool)
    ensures
        r == (w@ == kw_match()),
{
    if w.len() == 5 && w[0] == 109 && w[1] == 97 && w[2] == 116 && w[3] == 99 && w[4] == 104 {
        proof {
            assert(w@ =~= kw_match());
        }
        true
    } else {
        proof {
            if w@ == kw_match() {
                assert(w@.len() == 5);
                assert(w@[0] == 109 && w@[1] == 97 && w@[2] == 116 && w@[3] == 99 && w@[4] == 104);
            }
        }
        false
    }
}

/// Identifier check of the dialect.
pub fn check_ident(w: &Vec<u8>) -> (r: bool)
    ensures
        r == is_ident(w@),
{
    if w.len() == 0 {
        return false;
    }
    let c0 = w[0];
    if !((97 <= c0 && c0 <= 122) || (65 <= c0 && c0 <= 90) || c0 == 95) {
        return false;
    }
    let mut i: usize = 0;
    while i < w.len()
        invariant
            i <= w.len(),
            w@.len() >= 1,
            is_ident_start_byte(w@[0]),
            forall|j: int| 0 <= j < i ==> is_ident_byte(#[trigger] w@[j]),
        decreases w.len() - i,
    {
        let c = w[i];
        if !((97 <= c && c <= 122) || (65 <= c && c <= 90) || c == 95 || (48 <= c && c <= 57)) {
            return false;
        }
        i += 1;
    }
    true
}

/// Plain-word check: a token usable as a type reference or arm body.
pub fn check_plain_word(w: &Vec<u8>) -> (r: bool)
    ensures
        r == is_plain_word(w@),
{
    if w.len() == 0 {
        return false;
    }
    let mut i: usize = 0;
    while i < w.len()
        invariant
            i <= w.len(),
            w@.len() >= 1,
            forall|j: int| 0 <= j < i ==> 33 <= #[trigger] w@[j] && w@[j] <= 126,
        decreases w.len() - i,
    {
        let c = w[i];
        if !(33 <= c && c <= 126) {
            return false;
        }
        i += 1;
    }
    if w.len() == 1 {
        let c0 = w[0];
        if c0 == 123 || c0 == 125 || c0 == 44 || c0 == 58 || c0 == 40 || c0 == 41 {
            proof {
                if c0 == 123 {
                    assert(w@ =~= wd_lbrace());
                }
                if c0 == 125 {
                    assert(w@ =~= wd_rbrace());
                }
                if c0 == 44 {
                    assert(w@ =~= wd_comma());
                }
                if c0 == 58 {
                    assert(w@ =~= wd_colon());
                }
                if c0 == 40 {
                    assert(w@ =~= wd_lparen());
                }
                if c0 == 41 {
                    assert(w@ =~= wd_rparen());
                }
            }
            return false;
        }
        proof {
            assert(w@ != wd_lbrace() && w@ != wd_rbrace() && w@ != wd_comma() && w@ != wd_colon()
                && w@ != wd_lparen() && w@ != wd_rparen());
            assert(w@.len() != wd_arrow().len());
        }
        return true;
    }
    if w.len() == 2 {
        let c0 = w[0];
        let c1 = w[1];
        if c0 == 61 && c1 == 62 {
            proof {
                assert(w@ =~= wd_arrow());
            }
            return false;
        }
        proof {
            assert(w@ != wd_arrow());
            assert(w@.len() != 1);
        }
        return true;
    }
    proof {
        assert(w@.len() >= 3);
        assert(!is_punct_word(w@));
    }
    true
}

} // verus!
