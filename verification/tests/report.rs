use pkg_cache_clean::report::{decimal_string, size_to_human_readable, summary_line, Statistics};

#[test]
fn byte_sizes_of_the_common_units() {
    assert_eq!(size_to_human_readable(0), "0.00 B");
    assert_eq!(size_to_human_readable(1024), "1.00 KiB");
    assert_eq!(size_to_human_readable(1536), "1.50 KiB");
    assert_eq!(size_to_human_readable(1048576), "1.00 MiB");
}

#[test]
fn byte_sizes_below_one_unit() {
    assert_eq!(size_to_human_readable(1), "1.00 B");
    assert_eq!(size_to_human_readable(999), "999.00 B");
    assert_eq!(size_to_human_readable(1023), "1023.00 B");
}

#[test]
fn every_unit_a_size_can_reach() {
    assert_eq!(size_to_human_readable(1 << 30), "1.00 GiB");
    assert_eq!(size_to_human_readable(1 << 40), "1.00 TiB");
    assert_eq!(size_to_human_readable(1 << 50), "1.00 PiB");
    assert_eq!(size_to_human_readable(1 << 60), "1.00 EiB");
    assert_eq!(size_to_human_readable(u64::MAX), "16.00 EiB");
    assert_eq!(size_to_human_readable(5 * (1 << 30) + (1 << 29)), "5.50 GiB");
}

#[test]
fn the_unit_changes_at_the_power_of_1024() {
    assert_eq!(size_to_human_readable((1 << 20) - 1), "1024.00 KiB");
    assert_eq!(size_to_human_readable((1 << 20) - 6), "1023.99 KiB");
    assert_eq!(size_to_human_readable((1 << 50) - 1), "1024.00 TiB");
    assert_eq!(size_to_human_readable((1 << 60) - 1), "1024.00 PiB");
}

#[test]
fn a_half_hundredth_goes_to_the_even_neighbour() {
    // 1152 / 1024 = 1.125, 1408 / 1024 = 1.375, 1664 / 1024 = 1.625
    assert_eq!(size_to_human_readable(1152), "1.12 KiB");
    assert_eq!(size_to_human_readable(1408), "1.38 KiB");
    assert_eq!(size_to_human_readable(1664), "1.62 KiB");
    assert_eq!(size_to_human_readable(1029), "1.00 KiB");
    assert_eq!(size_to_human_readable(1030), "1.01 KiB");
}

#[test]
fn byte_sizes_agree_with_two_decimals_of_the_quotient() {
    let units = ["B", "KiB", "MiB", "GiB", "TiB"];
    let mut size: u64 = 0;
    let mut step: u64 = 1;
    while size < (1 << 44) {
        let mut exponent = 0;
        while exponent < 4 && size >= 1 << (10 * (exponent + 1)) {
            exponent += 1;
        }
        let quantity = size as f64 / (1u64 << (10 * exponent)) as f64;
        let expected = format!("{:.2} {}", quantity, units[exponent]);
        assert_eq!(size_to_human_readable(size), expected, "{}", size);
        size += step;
        if size > 5000 {
            step = step * 3 / 2 + 7;
        }
    }
}

#[test]
fn decimal_numbers() {
    assert_eq!(decimal_string(0), "0");
    assert_eq!(decimal_string(7), "7");
    assert_eq!(decimal_string(10), "10");
    assert_eq!(decimal_string(1090), "1090");
    assert_eq!(decimal_string(u64::MAX), "18446744073709551615");
    for n in 0..2000u64 {
        assert_eq!(decimal_string(n), n.to_string());
    }
}

#[test]
fn summary_of_a_run() {
    assert_eq!(
        summary_line(false, 3, 1536),
        "3 packages removed (disk space saved: 1.50 KiB)"
    );
    assert_eq!(
        summary_line(true, 0, 0),
        "[dry run] 0 packages removed (disk space saved: 0.00 B)"
    );
    assert_eq!(
        summary_line(true, 120, 1 << 31),
        "[dry run] 120 packages removed (disk space saved: 2.00 GiB)"
    );
}

#[test]
fn statistics_add_up() {
    let mut statistics = Statistics::new();
    assert_eq!(statistics, Statistics { candidates: 0, bytes: 0 });
    assert!(statistics.record(1024));
    assert!(statistics.record(512));
    assert!(statistics.record(0));
    assert_eq!(statistics, Statistics { candidates: 3, bytes: 1536 });
    assert_eq!(statistics.summary(false), "3 packages removed (disk space saved: 1.50 KiB)");
}

#[test]
fn statistics_refuse_a_total_that_does_not_fit() {
    let mut statistics = Statistics { candidates: 5, bytes: u64::MAX - 10 };
    assert!(!statistics.record(11));
    assert_eq!(statistics, Statistics { candidates: 5, bytes: u64::MAX - 10 });
    assert!(statistics.record(10));
    assert_eq!(statistics, Statistics { candidates: 6, bytes: u64::MAX });
    let mut full = Statistics { candidates: u64::MAX, bytes: 0 };
    assert!(!full.record(0));
    assert_eq!(full, Statistics { candidates: u64::MAX, bytes: 0 });
}
