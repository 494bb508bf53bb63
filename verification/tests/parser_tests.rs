use shard::ast::Decl;
use shard::parser::parse;
use shard::printer::print;
use shard::types::{parse_fields, TransactionField};

fn roundtrip_once(text: &[u8]) -> Vec<u8> {
    let tree = parse(&text.to_vec()).unwrap();
    print(&tree)
}

#[test]
fn printing_is_idempotent_on_messy_input() {
    let text = b"union   TransactionType  {  Noop ,  }\n# opaque configuration line\nfn verify (  tx : TransactionType ) {  match tx {  Noop  =>  accept ,  } }\n\nnot a declaration at all";
    let once = roundtrip_once(text);
    let twice = roundtrip_once(&once);
    assert_eq!(once, twice);
}

#[test]
fn canonical_text_is_a_fixed_point() {
    let text = b"union TransactionType { A , B { x : Int } , }\nfn verify ( t : TransactionType ) { match t { A => accept , B { x } => accept , } }";
    assert_eq!(roundtrip_once(text), text.to_vec());
}

#[test]
fn whitespace_is_normalized() {
    let text = b"union  TransactionType   {   Noop  ,  }";
    assert_eq!(roundtrip_once(text), b"union TransactionType { Noop , }".to_vec());
}

#[test]
fn unrecognized_lines_are_kept_verbatim() {
    let text = b"  indented opaque   line with  spaces\nunion Broken {\nfn missing_match ( x : U ) { }";
    assert_eq!(roundtrip_once(text), text.to_vec());
}

#[test]
fn parse_reports_first_bad_byte() {
    let mut text = b"union TransactionType { Noop , }".to_vec();
    text.push(7u8);
    text.extend_from_slice(b"tail");
    assert_eq!(parse(&text).unwrap_err(), 32);
}

#[test]
fn parse_recognizes_declarations() {
    let text = b"union TransactionType { Noop , }\nplain line\nfn verify ( tx : TransactionType ) { match tx { Noop => accept , } }";
    let tree = parse(&text.to_vec()).unwrap();
    assert_eq!(tree.decls.len(), 3);
    match &tree.decls[0] {
        Decl::Union(u) => {
            assert_eq!(u.name, b"TransactionType".to_vec());
            assert_eq!(u.variants.len(), 1);
            assert_eq!(u.variants[0].name, b"Noop".to_vec());
            assert!(u.variants[0].fields.is_empty());
        },
        _ => panic!("expected a union declaration"),
    }
    match &tree.decls[1] {
        Decl::Other(l) => assert_eq!(l, &b"plain line".to_vec()),
        _ => panic!("expected an opaque declaration"),
    }
    match &tree.decls[2] {
        Decl::Dispatch(f) => {
            assert_eq!(f.name, b"verify".to_vec());
            assert_eq!(f.param, b"tx".to_vec());
            assert_eq!(f.union_name, b"TransactionType".to_vec());
            assert_eq!(f.arms.len(), 1);
            assert_eq!(f.arms[0].variant, b"Noop".to_vec());
            assert_eq!(f.arms[0].body, b"accept".to_vec());
        },
        _ => panic!("expected a dispatch declaration"),
    }
}

#[test]
fn locator_is_first_match_by_declaration_order() {
    let text = b"union TransactionType { A , }\nunion TransactionType { B , }\nfn verify ( tx : TransactionType ) { match tx { A => accept , } }";
    let tree = parse(&text.to_vec()).unwrap();
    assert_eq!(shard::engine::find_union(&tree, &b"TransactionType".to_vec()), Some(0));
    assert_eq!(
        shard::engine::find_function(
            &tree,
            &b"verify".to_vec(),
            &b"TransactionType".to_vec()
        ),
        Some(2)
    );
    assert_eq!(shard::engine::find_union(&tree, &b"Absent".to_vec()), None);
}

#[test]
fn parse_fields_pairs_arguments() {
    let args = vec![b"msg".to_vec(), b"Text".to_vec(), b"user".to_vec(), b"Text".to_vec()];
    let fields = parse_fields(&args);
    assert_eq!(fields.len(), 2);
    assert_eq!(fields[0].name, b"msg".to_vec());
    assert_eq!(fields[0].field_type, b"Text".to_vec());
    assert_eq!(fields[1].name, b"user".to_vec());
    assert_eq!(fields[1].field_type, b"Text".to_vec());
}

#[test]
fn parse_fields_defaults_trailing_name() {
    let args = vec![b"msg".to_vec(), b"Text".to_vec(), b"user".to_vec()];
    let fields = parse_fields(&args);
    assert_eq!(fields.len(), 2);
    assert_eq!(fields[1].name, b"user".to_vec());
    assert_eq!(fields[1].field_type, b"String".to_vec());
}

#[test]
fn transaction_field_substitutes_invalid_type_text() {
    let tf = TransactionField::new(b"amount".to_vec(), b"not a real type@@".to_vec());
    let f = tf.to_field();
    assert_eq!(f.name, b"amount".to_vec());
    assert_eq!(f.ty, b"String".to_vec());
    let ok = TransactionField::new(b"amount".to_vec(), b"Integer".to_vec());
    assert_eq!(ok.to_field().ty, b"Integer".to_vec());
}

#[test]
fn empty_union_and_empty_match_are_recognized() {
    let text = b"union TransactionType { }\nfn verify ( tx : TransactionType ) { match tx { } }";
    let tree = parse(&text.to_vec()).unwrap();
    match &tree.decls[0] {
        Decl::Union(u) => assert!(u.variants.is_empty()),
        _ => panic!("expected a union declaration"),
    }
    match &tree.decls[1] {
        Decl::Dispatch(f) => assert!(f.arms.is_empty()),
        _ => panic!("expected a dispatch declaration"),
    }
    assert_eq!(print(&tree), text.to_vec());
}

#[test]
fn braced_variant_needs_at_least_one_field() {
    let text = b"union TransactionType { V { } , }";
    let tree = parse(&text.to_vec()).unwrap();
    match &tree.decls[0] {
        Decl::Other(l) => assert_eq!(l, &text.to_vec()),
        _ => panic!("expected an opaque declaration"),
    }
}

#[test]
fn empty_input_is_one_opaque_empty_line() {
    let tree = parse(&Vec::new()).unwrap();
    assert_eq!(tree.decls.len(), 1);
    match &tree.decls[0] {
        Decl::Other(l) => assert!(l.is_empty()),
        _ => panic!("expected an opaque declaration"),
    }
    assert_eq!(print(&tree), Vec::<u8>::new());
}
