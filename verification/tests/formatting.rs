use procfinder::util::{ByteSize, TimeFormat};

#[test]
fn bytes_below_one_kilobyte() {
    assert_eq!(ByteSize(1023).format(), "1023.00 B");
    assert_eq!(ByteSize(0).format(), "0.00 B");
    assert_eq!(ByteSize(512).format(), "512.00 B");
}

#[test]
fn bytes_one_kilobyte() {
    assert_eq!(ByteSize(1024).format(), "1.00 KB");
    assert_eq!(ByteSize(1536).format(), "1.50 KB");
}

#[test]
fn bytes_one_megabyte() {
    assert_eq!(ByteSize(1048576).format(), "1.00 MB");
    assert_eq!(ByteSize(4096000).format(), "3.91 MB");
}

#[test]
fn bytes_large_units() {
    assert_eq!(ByteSize(1073741824).format(), "1.00 GB");
    assert_eq!(ByteSize(1099511627776).format(), "1.00 TB");
    assert_eq!(ByteSize(2 * 1099511627776 + 1099511627776 / 2).format(), "2.50 TB");
}

#[test]
fn bytes_round_to_nearest_hundredth() {
    // 1048575 / 1024 = 1023.9990...: rounds up to the next whole unit.
    assert_eq!(ByteSize(1048575).format(), "1024.00 KB");
    // 1075 / 1024 = 1.0498...: rounds up at the second decimal.
    assert_eq!(ByteSize(1075).format(), "1.05 KB");
    // 1070 / 1024 = 1.0449...: rounds down at the second decimal.
    assert_eq!(ByteSize(1070).format(), "1.04 KB");
}

#[test]
fn bytes_round_exact_ties_to_even() {
    // 1152 / 1024 = 1.125 exactly: the tie goes to the even hundredth,
    // as two-decimal float formatting renders it.
    assert_eq!(ByteSize(1152).format(), "1.12 KB");
    // 1408 / 1024 = 1.375 exactly: here the even hundredth lies above.
    assert_eq!(ByteSize(1408).format(), "1.38 KB");
}

#[test]
fn duration_seconds() {
    assert_eq!(TimeFormat(0).format(), "0s");
    assert_eq!(TimeFormat(42000).format(), "42s");
    assert_eq!(TimeFormat(59999).format(), "59s");
}

#[test]
fn duration_minutes() {
    assert_eq!(TimeFormat(3 * 60 * 1000).format(), "3m");
    assert_eq!(TimeFormat(60000).format(), "1m");
}

#[test]
fn duration_hours() {
    assert_eq!(TimeFormat(5 * 60 * 60 * 1000).format(), "5h");
}

#[test]
fn duration_days() {
    assert_eq!(TimeFormat(2 * 24 * 60 * 60 * 1000).format(), "2d");
    assert_eq!(TimeFormat(49 * 60 * 60 * 1000).format(), "2d");
}
