use bitterasm::emit::{EmittedGenericArg, EmittedType};
use bitterasm::pack::bits_width;

#[test]
fn a_bits_width_is_its_first_constant_argument() {
    let args = vec![EmittedGenericArg::Const { value: "12".to_string() }];
    assert_eq!(bits_width(&args), Ok(12));
}

#[test]
fn a_bits_width_must_be_a_number() {
    assert_eq!(bits_width(&[]), Err("a `bits<N>` struct is missing its width argument".to_string()));
    let typed = vec![EmittedGenericArg::Type(EmittedType::Builtin { name: "int".to_string() })];
    assert_eq!(
        bits_width(&typed),
        Err("a `bits<N>` struct's width argument should be a const, found a type".to_string())
    );
    let bad = vec![EmittedGenericArg::Const { value: "x".to_string() }];
    assert!(bits_width(&bad).unwrap_err().starts_with("`x` isn't a valid bit width: "));
}
