use ddsketch::decode_signed_var_long;
use ddsketch::decode_unsigned_var_long;
use ddsketch::decode_var_double_count;
use ddsketch::encode_signed_var_long;
use ddsketch::encode_unsigned_var_long;
use ddsketch::encode_var_double_count;
use ddsketch::i64_to_i32_exact;
use ddsketch::Error;
use ddsketch::Input;
use ddsketch::Output;
use ddsketch::MAX_WIRE_COUNT;

fn unsigned_round_trip(n: u64) -> Vec<u8> {
    let mut out = Output::new();
    encode_unsigned_var_long(&mut out, n);
    let bytes = out.into_vec();
    let mut input = Input::new(&bytes);
    assert_eq!(n, decode_unsigned_var_long(&mut input).unwrap());
    assert!(!input.has_remaining());
    bytes
}

fn signed_round_trip(v: i64) -> Vec<u8> {
    let mut out = Output::new();
    encode_signed_var_long(&mut out, v);
    let bytes = out.into_vec();
    let mut input = Input::new(&bytes);
    assert_eq!(v, decode_signed_var_long(&mut input).unwrap());
    bytes
}

fn count_round_trip(n: u64) -> Vec<u8> {
    let mut out = Output::new();
    encode_var_double_count(&mut out, n).unwrap();
    let bytes = out.into_vec();
    let mut input = Input::new(&bytes);
    assert_eq!(n, decode_var_double_count(&mut input).unwrap());
    assert!(!input.has_remaining());
    bytes
}

#[test]
fn test_unsigned_var_long_bytes() {
    assert_eq!(vec![0u8], unsigned_round_trip(0));
    assert_eq!(vec![50u8], unsigned_round_trip(50));
    assert_eq!(vec![130u8, 1], unsigned_round_trip(130));
    assert_eq!(vec![0xACu8, 0x02], unsigned_round_trip(300));
    unsigned_round_trip(u64::MAX);
    unsigned_round_trip(1 << 63);
}

#[test]
fn test_signed_var_long_bytes() {
    assert_eq!(vec![0u8], signed_round_trip(0));
    assert_eq!(vec![2u8], signed_round_trip(1));
    assert_eq!(vec![1u8], signed_round_trip(-1));
    assert_eq!(vec![130u8, 1], signed_round_trip(65));
    signed_round_trip(i64::MIN);
    signed_round_trip(i64::MAX);
    signed_round_trip(-123456789);
}

#[test]
fn test_var_double_count_bytes() {
    // The fixed reference points of the reordered-byte double scheme.
    assert_eq!(vec![0u8], count_round_trip(0));
    assert_eq!(vec![2u8], count_round_trip(1));
    assert_eq!(vec![3u8], count_round_trip(2));
    assert_eq!(vec![4u8], count_round_trip(3));
    assert_eq!(vec![132u8, 64], count_round_trip(4));
    assert_eq!(vec![6u8], count_round_trip(7));
    assert_eq!(vec![136u8, 32], count_round_trip(17));
    count_round_trip(5);
    count_round_trip(100);
    count_round_trip(12345);
    count_round_trip(987654321);
    count_round_trip(MAX_WIRE_COUNT);
}

#[test]
fn test_var_double_count_too_large() {
    let mut out = Output::new();
    assert!(matches!(
        encode_var_double_count(&mut out, MAX_WIRE_COUNT + 1),
        Err(Error::InvalidArgument(_))
    ));
}

#[test]
fn test_var_double_count_rejects_non_integer() {
    // The byte 1 names the double 0.5: not an integer count.
    let bytes = vec![1u8];
    let mut input = Input::new(&bytes);
    assert!(matches!(
        decode_var_double_count(&mut input),
        Err(Error::InvalidArgument(_))
    ));
}

#[test]
fn test_decode_on_empty_input_is_io_error() {
    let bytes: Vec<u8> = vec![];
    let mut input = Input::new(&bytes);
    assert!(matches!(decode_unsigned_var_long(&mut input), Err(Error::IoError(_))));
    let mut input = Input::new(&bytes);
    assert!(matches!(decode_var_double_count(&mut input), Err(Error::IoError(_))));
    let truncated = vec![130u8];
    let mut input = Input::new(&truncated);
    assert!(matches!(decode_unsigned_var_long(&mut input), Err(Error::IoError(_))));
}

#[test]
fn test_i64_to_i32_exact() {
    assert_eq!(7, i64_to_i32_exact(7).unwrap());
    assert_eq!(-7, i64_to_i32_exact(-7).unwrap());
    assert_eq!(i32::MAX, i64_to_i32_exact(i32::MAX as i64).unwrap());
    assert_eq!(i32::MIN, i64_to_i32_exact(i32::MIN as i64).unwrap());
    assert!(matches!(
        i64_to_i32_exact(i32::MAX as i64 + 1),
        Err(Error::InvalidArgument(_))
    ));
    assert!(matches!(
        i64_to_i32_exact(i32::MIN as i64 - 1),
        Err(Error::InvalidArgument(_))
    ));
}
