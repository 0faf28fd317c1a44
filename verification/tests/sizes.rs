use blk::sizes::{decimal_chars, format_bytes};

const KB: u64 = 1024;
const MB: u64 = KB * 1024;
const GB: u64 = MB * 1024;

/// The same text through floating point: the count as a double, divided by
/// the unit and printed with two decimals.
fn through_floats(bytes: u64) -> String {
    if bytes >= GB {
        format!("{:.2} GB", bytes as f64 / GB as f64)
    } else if bytes >= MB {
        format!("{:.2} MB", bytes as f64 / MB as f64)
    } else if bytes >= KB {
        format!("{:.2} KB", bytes as f64 / KB as f64)
    } else {
        format!("{bytes} B")
    }
}

#[test]
fn format_bytes_plain_bytes() {
    assert_eq!(format_bytes(0), "0 B");
    assert_eq!(format_bytes(1), "1 B");
    assert_eq!(format_bytes(512), "512 B");
    assert_eq!(format_bytes(1023), "1023 B");
}

#[test]
fn format_bytes_units() {
    assert_eq!(format_bytes(1024), "1.00 KB");
    assert_eq!(format_bytes(1536), "1.50 KB");
    assert_eq!(format_bytes(2 * MB), "2.00 MB");
    assert_eq!(format_bytes(3 * GB + GB / 4), "3.25 GB");
    assert_eq!(format_bytes(MB - 1), "1024.00 KB");
    assert_eq!(format_bytes(GB - 1), "1024.00 MB");
}

#[test]
fn format_bytes_ties_go_to_even() {
    // 1152 / 1024 = 1.125 exactly, 1408 / 1024 = 1.375 exactly.
    assert_eq!(format_bytes(1152), "1.12 KB");
    assert_eq!(format_bytes(1408), "1.38 KB");
    assert_eq!(format_bytes(1152), through_floats(1152));
    assert_eq!(format_bytes(1408), through_floats(1408));
}

#[test]
fn format_bytes_largest_count() {
    assert_eq!(format_bytes(u64::MAX), "17179869184.00 GB");
    assert_eq!(format_bytes(u64::MAX), through_floats(u64::MAX));
}

#[test]
fn format_bytes_agrees_with_floats_on_a_sweep() {
    let mut n: u64 = 1;
    let mut step: u64 = 1;
    let mut seen = 0;
    while seen < 200_000 {
        assert_eq!(format_bytes(n), through_floats(n), "at {n}");
        step = step.wrapping_mul(6364136223846793005).wrapping_add(1442695040888963407);
        n = n.wrapping_add(step >> (step % 61));
        seen += 1;
    }
}

#[test]
fn format_bytes_agrees_with_floats_beyond_exact_doubles() {
    let limit: u64 = 1 << 53;
    for shift in 0..11u32 {
        let base = limit << shift;
        for delta in 0..5000u64 {
            let below = base - 1 - delta;
            let above = base.wrapping_add(delta);
            assert_eq!(format_bytes(below), through_floats(below), "at {below}");
            assert_eq!(format_bytes(above), through_floats(above), "at {above}");
        }
    }
}

#[test]
fn format_bytes_agrees_with_floats_near_unit_borders() {
    for unit in [KB, MB, GB] {
        for delta in 0..3000u64 {
            assert_eq!(format_bytes(unit + delta), through_floats(unit + delta));
            assert_eq!(format_bytes(unit - 1 - delta % unit), through_floats(unit - 1 - delta % unit));
        }
    }
}

#[test]
fn decimal_chars_writes_digits() {
    let text: String = decimal_chars(9_007_199_254_740_993).into_iter().collect();
    assert_eq!(text, "9007199254740993");
    let zero: String = decimal_chars(0).into_iter().collect();
    assert_eq!(zero, "0");
}
