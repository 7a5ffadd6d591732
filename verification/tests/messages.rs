use block_graph::block::{BlockConnectionNode, ConnectionType};
use block_graph::evaluation::{EvalError, IteratedInput};
use block_graph::id::{Id, IdAllocator};
use block_graph::text::append_decimal;
use block_graph::value::ValueKind;

fn decimal(n: usize) -> String {
    let mut text = String::from("n=");
    append_decimal(&mut text, n);
    text
}

#[test]
fn decimal_digits_of_small_and_large_numbers() {
    assert_eq!(decimal(0), "n=0");
    assert_eq!(decimal(7), "n=7");
    assert_eq!(decimal(10), "n=10");
    assert_eq!(decimal(909), "n=909");
    assert_eq!(decimal(1234567890), "n=1234567890");
    assert_eq!(decimal(usize::MAX), format!("n={}", usize::MAX));
}

#[test]
fn length_mismatch_names_block_inputs_sources_and_lengths() {
    let e = EvalError::LengthMismatch {
        block: Id(3),
        first: IteratedInput { input: Id(1), source: Some(Id(7)), length: 3 },
        second: IteratedInput { input: Id(2), source: Some(Id(18)), length: 4 },
    };
    assert_eq!(
        e.message(),
        "Block 3 depends on multiple iterations whose lengths dont match. \
         Id(1) fed by block 7 has 3 != Id(2) fed by block 18 has 4"
    );
}

#[test]
fn length_mismatch_without_a_known_source_names_the_inputs() {
    let e = EvalError::LengthMismatch {
        block: Id(3),
        first: IteratedInput { input: Id(1), source: None, length: 10 },
        second: IteratedInput { input: Id(2), source: Some(Id(0)), length: 0 },
    };
    assert_eq!(
        e.message(),
        "Block 3 depends on multiple iterations whose lengths dont match. \
         Id(1) has 10 != Id(2) fed by block 0 has 0"
    );
}

#[test]
fn missing_output_names_block_and_output() {
    let e = EvalError::MissingOutput { block: Id(12), output: Id(40) };
    assert_eq!(
        e.message(),
        "My block Id(12) depends on output node Id(40), but failed to find a value from the previous output map"
    );
}

#[test]
fn unsupported_flatten_names_block_and_kind() {
    let e = EvalError::UnsupportedFlatten { block: Id(5), kind: ValueKind::Selection };
    assert_eq!(e.message(), "My block Id(5) cannot flatten an iteration of Selection: not yet implemented");
}

#[test]
fn identities_and_ports_in_words() {
    assert_eq!(Id(0).to_text(), "(0)");
    assert_eq!(Id(215).to_text(), "(215)");
    let mut ids = IdAllocator::new();
    ids.get_id();
    let port = BlockConnectionNode::new("radius", ConnectionType::Inputs, &mut ids);
    assert_eq!(port.get_text(), "(1) radius");
    assert_eq!(ValueKind::ListPoints.to_name(), "ListPoints");
}
