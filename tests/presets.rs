use rnadraw_core::svg::{Legend, DEFAULT_NUCLEOTIDE_COLORS};

#[test]
fn test_default_nucleotide_preset() {
    assert_eq!(DEFAULT_NUCLEOTIDE_COLORS, ["green", "red", "black", "blue"]);
}

#[test]
fn legend_defaults_to_none() {
    assert_eq!(Legend::default(), Legend::Off);
}
