use lethe::ui::args::is_power_of_two;
use lethe::ui::args::parse_block_size;
use lethe::ui::args::BlockSizeError;

#[test]
fn test_block_size_parser_good() {
    let k128 = 128 * 1024;
    let m2 = 2 * 1024 * 1024;

    assert_eq!(parse_block_size("4096").unwrap(), 4096);
    assert_eq!(parse_block_size("128k").unwrap(), k128);
    assert_eq!(parse_block_size("128K").unwrap(), k128);
    assert_eq!(parse_block_size("2m").unwrap(), m2);
    assert_eq!(parse_block_size("2M").unwrap(), m2);
}

#[test]
fn test_block_size_parser_bad() {
    assert!(matches!(parse_block_size(""), Err(_)));
    assert!(matches!(parse_block_size("xxx"), Err(_)));
    assert!(matches!(parse_block_size("-128k"), Err(_)));
    assert!(matches!(parse_block_size("4096.000"), Err(_)));
    assert!(matches!(parse_block_size("4095"), Err(_)));
}

#[test]
fn test_block_size_parser_errors() {
    assert_eq!(parse_block_size(""), Err(BlockSizeError::Malformed));
    assert_eq!(parse_block_size("k"), Err(BlockSizeError::Malformed));
    assert_eq!(parse_block_size("12x"), Err(BlockSizeError::Malformed));
    assert_eq!(parse_block_size("12kk"), Err(BlockSizeError::Malformed));
    assert_eq!(parse_block_size("12 k "), Err(BlockSizeError::Malformed));
    assert_eq!(parse_block_size(" 12"), Err(BlockSizeError::Malformed));
    assert_eq!(parse_block_size("12b"), Err(BlockSizeError::Malformed));
    assert_eq!(parse_block_size("4095"), Err(BlockSizeError::NotPowerOfTwo));
    assert_eq!(parse_block_size("3k"), Err(BlockSizeError::NotPowerOfTwo));
    assert_eq!(parse_block_size("0"), Err(BlockSizeError::NotPowerOfTwo));
    assert_eq!(
        parse_block_size("99999999999999999999999999"),
        Err(BlockSizeError::NotANumber)
    );
    assert_eq!(
        parse_block_size("99999999999999999999999999x"),
        Err(BlockSizeError::Malformed)
    );
    assert_eq!(
        parse_block_size("18446744073709551615m"),
        Err(BlockSizeError::TooLarge)
    );
}

#[test]
fn test_block_size_parser_scales() {
    assert_eq!(parse_block_size("1"), Ok(1));
    assert_eq!(parse_block_size("512"), Ok(512));
    assert_eq!(parse_block_size("0004"), Ok(4));
    assert_eq!(parse_block_size("4kb"), Ok(4096));
    assert_eq!(parse_block_size("4KB"), Ok(4096));
    assert_eq!(parse_block_size("4 k"), Ok(4096));
    assert_eq!(parse_block_size("4   Mb"), Ok(4 * 1024 * 1024));
    assert_eq!(parse_block_size("1m"), Ok(1024 * 1024));
    assert_eq!(parse_block_size("16 "), Ok(16));
}

#[test]
fn test_block_size_messages() {
    assert_eq!(
        BlockSizeError::Malformed.message(),
        "Use a number of bytes with optional scale (e.g. 4096, 128k or 2M)."
    );
    assert_eq!(BlockSizeError::NotANumber.message(), "Not a number.");
    assert_eq!(BlockSizeError::NotPowerOfTwo.message(), "Should be a power of two.");
}

#[test]
fn test_is_power_of_two() {
    assert!(!is_power_of_two(0));
    assert!(is_power_of_two(1));
    assert!(is_power_of_two(2));
    assert!(!is_power_of_two(3));
    assert!(is_power_of_two(1 << 40));
    assert!(!is_power_of_two((1 << 40) + 1));
    assert!(!is_power_of_two(usize::MAX));
}
