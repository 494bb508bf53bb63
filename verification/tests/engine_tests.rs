use shard::engine::{create_transaction, EngineError};
use shard::types::TransactionField;

fn tx0() -> Vec<u8> {
    b"union TransactionType { Noop , }\nfn verify ( tx : TransactionType ) { match tx { Noop => accept , } }"
        .to_vec()
}

fn state0() -> Vec<u8> {
    b"fn validate_tx ( tx : TransactionType ) { match tx { Noop => accept , } }\nfn process_tx ( tx : TransactionType ) { match tx { Noop => accept , } }"
        .to_vec()
}

fn field(name: &[u8], ty: &[u8]) -> TransactionField {
    TransactionField::new(name.to_vec(), ty.to_vec())
}

#[test]
fn first_real_transaction() {
    let ext = create_transaction(&tx0(), &state0(), &b"CreateGame".to_vec(), &Vec::new()).unwrap();
    assert_eq!(
        ext.tx_text,
        b"union TransactionType { CreateGame , }\nfn verify ( tx : TransactionType ) { match tx { CreateGame => accept , } }"
            .to_vec()
    );
    assert_eq!(
        ext.state_text,
        b"fn validate_tx ( tx : TransactionType ) { match tx { CreateGame => accept , } }\nfn process_tx ( tx : TransactionType ) { match tx { CreateGame => accept , } }"
            .to_vec()
    );
    assert!(!ext.type_defaulted);
}

#[test]
fn second_transaction_arm_goes_first() {
    let first = create_transaction(&tx0(), &state0(), &b"CreateGame".to_vec(), &Vec::new()).unwrap();
    let fields = vec![field(b"game_id", b"Text")];
    let second =
        create_transaction(&first.tx_text, &first.state_text, &b"JoinGame".to_vec(), &fields)
            .unwrap();
    assert_eq!(
        second.tx_text,
        b"union TransactionType { CreateGame , JoinGame { game_id : Text } , }\nfn verify ( tx : TransactionType ) { match tx { JoinGame { game_id } => accept , CreateGame => accept , } }"
            .to_vec()
    );
    assert_eq!(
        second.state_text,
        b"fn validate_tx ( tx : TransactionType ) { match tx { JoinGame { game_id } => accept , CreateGame => accept , } }\nfn process_tx ( tx : TransactionType ) { match tx { JoinGame { game_id } => accept , CreateGame => accept , } }"
            .to_vec()
    );
    assert!(!second.type_defaulted);
}

#[test]
fn unparsable_type_gets_default_scalar() {
    let fields = vec![field(b"amount", b"not a real type@@")];
    let ext = create_transaction(&tx0(), &state0(), &b"Payment".to_vec(), &fields).unwrap();
    assert_eq!(
        ext.tx_text,
        b"union TransactionType { Payment { amount : String } , }\nfn verify ( tx : TransactionType ) { match tx { Payment { amount } => accept , } }"
            .to_vec()
    );
    assert!(ext.type_defaulted);
}

#[test]
fn duplicate_variant_rejected_and_nothing_produced() {
    let first = create_transaction(&tx0(), &state0(), &b"CreateGame".to_vec(), &Vec::new()).unwrap();
    let tx_before = first.tx_text.clone();
    let state_before = first.state_text.clone();
    let again =
        create_transaction(&first.tx_text, &first.state_text, &b"CreateGame".to_vec(), &Vec::new());
    assert_eq!(again.unwrap_err(), EngineError::DuplicateVariant);
    // the caller writes only on success, so both files stay byte-for-byte
    assert_eq!(first.tx_text, tx_before);
    assert_eq!(first.state_text, state_before);
}

#[test]
fn duplicate_of_placeholder_name_rejected() {
    let r = create_transaction(&tx0(), &state0(), &b"Noop".to_vec(), &Vec::new());
    assert_eq!(r.unwrap_err(), EngineError::DuplicateVariant);
}

#[test]
fn missing_union_is_schema_not_found() {
    let tx = b"fn verify ( tx : TransactionType ) { match tx { Noop => accept , } }".to_vec();
    let r = create_transaction(&tx, &state0(), &b"CreateGame".to_vec(), &Vec::new());
    assert_eq!(r.unwrap_err(), EngineError::SchemaNotFound);
}

#[test]
fn missing_process_fn_is_schema_not_found() {
    let state =
        b"fn validate_tx ( tx : TransactionType ) { match tx { Noop => accept , } }".to_vec();
    let r = create_transaction(&tx0(), &state, &b"CreateGame".to_vec(), &Vec::new());
    assert_eq!(r.unwrap_err(), EngineError::SchemaNotFound);
}

#[test]
fn malformed_dispatch_shape_is_not_found() {
    // the verify function's match is over another name, so it is rejected
    // as not found rather than corrupted
    let tx = b"union TransactionType { Noop , }\nfn verify ( tx : OtherType ) { match tx { Noop => accept , } }"
        .to_vec();
    let r = create_transaction(&tx, &state0(), &b"CreateGame".to_vec(), &Vec::new());
    assert_eq!(r.unwrap_err(), EngineError::SchemaNotFound);
}

#[test]
fn bad_byte_reports_parse_error_offset() {
    let mut tx = tx0();
    tx[5] = 0u8;
    let r = create_transaction(&tx, &state0(), &b"CreateGame".to_vec(), &Vec::new());
    assert_eq!(r.unwrap_err(), EngineError::Parse { offset: 5 });
}

#[test]
fn other_declarations_survive_extension_verbatim() {
    let mut tx = b"# ledger message set\n".to_vec();
    tx.extend_from_slice(&tx0());
    let ext = create_transaction(&tx, &state0(), &b"CreateGame".to_vec(), &Vec::new()).unwrap();
    assert!(ext.tx_text.starts_with(b"# ledger message set\n"));
}

#[test]
fn field_order_is_preserved() {
    let fields = vec![field(b"amount", b"Integer"), field(b"recipient", b"Address")];
    let ext = create_transaction(&tx0(), &state0(), &b"Send".to_vec(), &fields).unwrap();
    assert_eq!(
        ext.tx_text,
        b"union TransactionType { Send { amount : Integer , recipient : Address } , }\nfn verify ( tx : TransactionType ) { match tx { Send { amount , recipient } => accept , } }"
            .to_vec()
    );
}

#[test]
fn dispatch_over_another_union_is_left_alone() {
    let mut tx = tx0();
    tx.extend_from_slice(
        b"\nfn audit ( ev : EventType ) { match ev { Logged => accept , } }",
    );
    let ext = create_transaction(&tx, &state0(), &b"CreateGame".to_vec(), &Vec::new()).unwrap();
    assert!(ext
        .tx_text
        .ends_with(b"fn audit ( ev : EventType ) { match ev { Logged => accept , } }"));
}

#[test]
fn only_the_first_matching_union_is_extended() {
    let mut tx = tx0();
    tx.extend_from_slice(b"\nunion TransactionType { Shadow , }");
    let ext = create_transaction(&tx, &state0(), &b"CreateGame".to_vec(), &Vec::new()).unwrap();
    assert!(ext.tx_text.starts_with(b"union TransactionType { CreateGame , }\n"));
    assert!(ext.tx_text.ends_with(b"union TransactionType { Shadow , }"));
}

#[test]
fn build_variant_keeps_order_and_substitutes() {
    let fields = vec![field(b"a", b"Integer"), field(b"b", b"??"), field(b"c", b"Text")];
    let (v, substituted) = shard::engine::build_variant(&b"Multi".to_vec(), &fields);
    assert!(substituted);
    assert_eq!(v.name, b"Multi".to_vec());
    assert_eq!(v.fields.len(), 3);
    assert_eq!(v.fields[0].name, b"a".to_vec());
    assert_eq!(v.fields[0].ty, b"Integer".to_vec());
    assert_eq!(v.fields[1].name, b"b".to_vec());
    assert_eq!(v.fields[1].ty, b"String".to_vec());
    assert_eq!(v.fields[2].name, b"c".to_vec());
    assert_eq!(v.fields[2].ty, b"Text".to_vec());
    let arm = shard::engine::build_arm(&v);
    assert_eq!(arm.variant, b"Multi".to_vec());
    assert_eq!(arm.bindings, vec![b"a".to_vec(), b"b".to_vec(), b"c".to_vec()]);
    assert_eq!(arm.body, b"accept".to_vec());
}
