use sonic_search::size::format_size;

const KB: u64 = 1024;
const MB: u64 = 1024 * KB;
const GB: u64 = 1024 * MB;

/// The same size written with double-precision arithmetic.
fn with_doubles(bytes: u64) -> String {
    if bytes >= GB {
        format!("{:.2} GB", bytes as f64 / GB as f64)
    } else if bytes >= MB {
        format!("{:.2} MB", bytes as f64 / MB as f64)
    } else if bytes >= KB {
        format!("{:.2} KB", bytes as f64 / KB as f64)
    } else {
        format!("{} B", bytes)
    }
}

#[test]
fn test_format_size() {
    assert_eq!(format_size(0), "0 B");
    assert_eq!(format_size(512), "512 B");
    assert_eq!(format_size(1024), "1.00 KB");
    assert_eq!(format_size(1536), "1.50 KB");
    assert_eq!(format_size(1048576), "1.00 MB");
    assert_eq!(format_size(1073741824), "1.00 GB");
}

#[test]
fn bytes_below_one_kb() {
    assert_eq!(format_size(1), "1 B");
    assert_eq!(format_size(9), "9 B");
    assert_eq!(format_size(10), "10 B");
    assert_eq!(format_size(999), "999 B");
    assert_eq!(format_size(1023), "1023 B");
}

#[test]
fn unit_boundaries() {
    assert_eq!(format_size(1025), "1.00 KB");
    assert_eq!(format_size(1048575), "1024.00 KB");
    assert_eq!(format_size(1048577), "1.00 MB");
    assert_eq!(format_size(1073741823), "1024.00 MB");
    assert_eq!(format_size(1073741825), "1.00 GB");
}

#[test]
fn two_decimal_places() {
    assert_eq!(format_size(1034), "1.01 KB");
    assert_eq!(format_size(2048), "2.00 KB");
    assert_eq!(format_size(10 * KB + 512), "10.50 KB");
    assert_eq!(format_size(5 * MB + MB / 4), "5.25 MB");
    assert_eq!(format_size(123 * GB + GB / 2), "123.50 GB");
    assert_eq!(format_size(1100), "1.07 KB");
}

#[test]
fn halves_go_to_the_even_hundredth() {
    // 1152 / 1024 = 1.125 and 1408 / 1024 = 1.375, both halfway between two hundredths.
    assert_eq!(format_size(1152), "1.12 KB");
    assert_eq!(format_size(1408), "1.38 KB");
    assert_eq!(format_size(1152 * KB), "1.12 MB");
    assert_eq!(format_size(1408 * MB), "1.38 GB");
}

#[test]
fn no_unit_above_gb() {
    assert_eq!(format_size(1024 * GB), "1024.00 GB");
    assert_eq!(format_size(1u64 << 50), "1048576.00 GB");
    assert_eq!(format_size(u64::MAX), "17179869184.00 GB");
}

#[test]
fn agrees_with_double_precision_on_small_sizes() {
    for bytes in 0..300_000u64 {
        assert_eq!(format_size(bytes), with_doubles(bytes), "at {}", bytes);
    }
}

#[test]
fn agrees_with_double_precision_on_halfway_cases() {
    // Every odd multiple of 128 bytes lies halfway between two hundredths of a KB.
    let mut bytes = 1024 + 128;
    while bytes < MB {
        assert_eq!(format_size(bytes), with_doubles(bytes), "at {}", bytes);
        assert_eq!(format_size(bytes * KB), with_doubles(bytes * KB), "at {}", bytes * KB);
        assert_eq!(format_size(bytes * MB), with_doubles(bytes * MB), "at {}", bytes * MB);
        bytes += 256;
    }
}

#[test]
fn agrees_with_double_precision_around_powers_of_two() {
    for exponent in 10..64u32 {
        let power = 1u64 << exponent;
        for offset in 0..2000u64 {
            for bytes in [power - 1 - offset, power + offset] {
                assert_eq!(format_size(bytes), with_doubles(bytes), "at {}", bytes);
            }
        }
    }
    for offset in 0..5000u64 {
        let bytes = u64::MAX - offset;
        assert_eq!(format_size(bytes), with_doubles(bytes), "at {}", bytes);
    }
}

#[test]
fn agrees_with_double_precision_on_scattered_sizes() {
    let mut state: u64 = 0x9E37_79B9_7F4A_7C15;
    for round in 0..60_000u32 {
        state = state.wrapping_mul(6364136223846793005).wrapping_add(1442695040888963407);
        let bytes = state >> (round % 54);
        assert_eq!(format_size(bytes), with_doubles(bytes), "at {}", bytes);
    }
}

#[test]
fn agrees_with_double_precision_beyond_53_bits() {
    // Sizes that a double cannot hold exactly, at the edge of a hundredth of a GB.
    let hundredth = GB / 100;
    let mut state: u64 = 12345;
    for _ in 0..20_000u32 {
        state = state.wrapping_mul(6364136223846793005).wrapping_add(1442695040888963407);
        let whole = (1u64 << 53) + (state >> 12);
        let edge = whole / hundredth * hundredth + hundredth / 2;
        for offset in 0..8u64 {
            for bytes in [edge.wrapping_sub(offset), edge.wrapping_add(offset)] {
                assert_eq!(format_size(bytes), with_doubles(bytes), "at {}", bytes);
            }
        }
    }
}
