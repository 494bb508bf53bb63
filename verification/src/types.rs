//! Caller-facing field descriptions: an ordered (field-name, type-text)
//! pair list, as handed over on the command line.

use vstd::prelude::*;
use crate::ast::{check_ident, Field, FieldV};
use crate::text::{dup_bytes, dvs, text_dv_lemmas};

verus! {

/// One requested field of the new transaction variant: its name and its
/// type reference as raw text.
pub struct TransactionField {
    pub name: Vec<u8>,
    pub field_type: Vec<u8>,
}

impl DeepView for TransactionField {
    type V = FieldV;

    open spec fn deep_view(&self) -> FieldV {
        FieldV { name: self.name@, ty: self.field_type@ }
    }
}

impl TransactionField {
    pub fn new(name: Vec<u8>, field_type: Vec<u8>) -> (r: Self)
        ensures
            r.deep_view() == (FieldV { name: name@, ty: field_type@ }),
    {
        TransactionField { name, field_type }
    }

    /// The field node this description yields: the name as given, and the
    /// type text when it is a valid reference, else the default scalar.
    /// A field name must be a legal identifier of the dialect; only the
    /// type text may be arbitrary.
    pub fn to_field(&self) -> (r: Field)
        requires
            crate::ast::is_ident(self.name@),
        ensures
            r.deep_view() == crate::engine::build_field_v(self.name@, self.field_type@),
    {
        let ty = if check_ident(&self.field_type) {
            dup_bytes(&self.field_type)
        } else {
            crate::engine::word_default_type()
        };
        Field { name: dup_bytes(&self.name), ty }
    }
}

/// Pair up raw arguments into field descriptions: arguments come in
/// (name, type) pairs, and a trailing name without a type gets the
/// default scalar type.
pub fn parse_fields(args: &[Vec<u8>]) -> (r: Vec<TransactionField>)
    ensures
        r.deep_view().len() == (args.deep_view().len() + 1) / 2,
        forall|k: int|
            0 <= k < r.deep_view().len() ==> (#[trigger] r.deep_view()[k]).name
                == args.deep_view()[2 * k] && r.deep_view()[k].ty == (if 2 * k + 1
                < args.deep_view().len() {
                args.deep_view()[2 * k + 1]
            } else {
                crate::engine::default_type_name()
            }),
{
    broadcast use text_dv_lemmas;

    let ghost av = args.deep_view();
    let n = args.len();
    let total = n / 2 + n % 2;
    proof {
        assert(av.len() == args@.len());
        assert(total as int == (av.len() + 1) / 2);
    }
    let mut out: Vec<TransactionField> = Vec::new();
    let mut k: usize = 0;
    while k < total
        invariant
            k <= total,
            n == args@.len(),
            total as int == (av.len() + 1) / 2,
            av == args.deep_view(),
            out.deep_view().len() == k,
            forall|j: int|
                0 <= j < k ==> (#[trigger] out.deep_view()[j]).name == av[2 * j]
                    && out.deep_view()[j].ty == (if 2 * j + 1 < av.len() {
                    av[2 * j + 1]
                } else {
                    crate::engine::default_type_name()
                }),
        decreases total - k,
    {
        broadcast use text_dv_lemmas;

        proof {
            assert(2 * k < n);
            assert(av[2 * (k as int)] == args@[2 * (k as int)]@);
        }
        let name = dup_bytes(&args[2 * k]);
        let tf: TransactionField = if 2 * k + 1 < n {
            proof {
                assert(av[2 * (k as int) + 1] == args@[2 * (k as int) + 1]@);
            }
            TransactionField::new(name, dup_bytes(&args[2 * k + 1]))
        } else {
            TransactionField::new(name, crate::engine::word_default_type())
        };
        let ghost before = out.deep_view();
        out.push(tf);
        proof {
            assert(out.deep_view() =~~= before.push(tf.deep_view()));
        }
        k += 1;
    }
    out
}

} // verus!
