use ddsketch::Error;
use ddsketch::Flag;
use ddsketch::FlagType;
use ddsketch::IndexMapping;
use ddsketch::IndexMappingLayout;
use ddsketch::Input;
use ddsketch::Output;

#[test]
fn test_cubically_interpolated_mapping_validity_manual_check() {
    let d0: f64 = -0.37469387755102035;
    let d1: f64 = 0.8904489795918369;
    let s1 = d1 * d1 - 4.0_f64 * d0 * d0 * d0;
    let s2 = s1.sqrt();
    let s3 = d1 - s2;
    let s4 = s3 / 2.0;
    let s5 = s4.cbrt();
    println!(
        "test_cubically_interpolated_mapping_validity_manual_check: {} {} {} {} {}",
        s1, s2, s3, s4, s5
    );
}

#[test]
fn test_index_mapping_layout_flags() {
    let flag = IndexMappingLayout::LOG.to_flag();
    assert_eq!(2, flag.get_marker());
    assert!(matches!(IndexMappingLayout::of_flag(&flag), Ok(IndexMappingLayout::LOG)));
    let unknown = Flag::of_byte(6);
    assert!(matches!(IndexMappingLayout::of_flag(&unknown), Err(Error::InvalidArgument(_))));
}

#[test]
fn test_index_mapping_encode_decode() {
    let gamma: f64 = 1.0408163265306123;
    let offset: f64 = -7.5;
    let mapping = IndexMapping::with_gamma_offset_bits(gamma.to_bits(), offset.to_bits());
    assert!(matches!(mapping.layout(), IndexMappingLayout::LOG));
    let mut out = Output::new();
    mapping.encode(&mut out);
    let bytes = out.into_vec();
    assert_eq!(17, bytes.len());
    assert_eq!(2, bytes[0]);
    let body: Vec<u8> = bytes[1..].to_vec();
    let mut input = Input::new(&body);
    let decoded = IndexMapping::decode_body(&mut input).unwrap();
    assert_eq!(mapping, decoded);
    assert_eq!(gamma, f64::from_bits(decoded.gamma_bits()));
    assert_eq!(offset, f64::from_bits(decoded.index_offset_bits()));
}

#[test]
fn test_flag_byte_packing() {
    let f = Flag::with_type(FlagType::IndexMapping, 0);
    assert_eq!(2, f.get_marker());
    assert!(matches!(f.get_type(), FlagType::IndexMapping));
    let f = Flag::with_type(FlagType::PositiveStore, 3);
    assert_eq!(13, f.get_marker());
    assert!(matches!(f.get_type(), FlagType::PositiveStore));
    let f = Flag::with_type(FlagType::SketchFeatures, 1);
    assert_eq!(4, f.get_marker());
    assert!(matches!(f.get_type(), FlagType::SketchFeatures));
    let f = Flag::with_type(FlagType::NegativeStore, 2);
    assert_eq!(11, f.get_marker());
    assert!(matches!(f.get_type(), FlagType::NegativeStore));
}
