use fiskar::katex_approx::{convert_to_approximate, KatexOptions};

#[test]
fn test_conversion() {}

#[test]
fn conversion_passes_text_through() {
    let options = KatexOptions::default();
    assert!(options.unicode);
    assert_eq!(options.enclosure, '$');
    let converted = convert_to_approximate(b"\\frac{a}{b}", options).unwrap();
    assert_eq!(converted.source(), b"\\frac{a}{b}");
    assert_eq!(converted.spans(), &[]);
}
