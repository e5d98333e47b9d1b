use life_viewport::memsize::format_mem_size;

#[test]
fn ten_bytes_or_fewer_are_written_as_nothing() {
    assert_eq!(format_mem_size(0), "");
    assert_eq!(format_mem_size(1), "");
    assert_eq!(format_mem_size(10), "");
}

#[test]
fn bytes_are_written_up_to_ten_kibibytes() {
    assert_eq!(format_mem_size(11), "11 bytes");
    assert_eq!(format_mem_size(512), "512 bytes");
    assert_eq!(format_mem_size(10 * 1024), "10240 bytes");
}

#[test]
fn kilobytes_are_rounded_down() {
    assert_eq!(format_mem_size(10 * 1024 + 1), "10 KB");
    assert_eq!(format_mem_size(11 * 1024 - 1), "10 KB");
    assert_eq!(format_mem_size(11 * 1024), "11 KB");
    assert_eq!(format_mem_size(10 * 1024 * 1024), "10240 KB");
}

#[test]
fn megabytes_are_rounded_down() {
    assert_eq!(format_mem_size(10 * 1024 * 1024 + 1), "10 MB");
    assert_eq!(format_mem_size(123 * 1024 * 1024 + 999), "123 MB");
    assert_eq!(format_mem_size(10 * 1024 * 1024 * 1024), "10240 MB");
}

#[test]
fn gigabytes_are_the_largest_unit() {
    assert_eq!(format_mem_size(10 * 1024 * 1024 * 1024 + 1), "10 GB");
    assert_eq!(format_mem_size(5000 * 1024 * 1024 * 1024), "5000 GB");
    assert_eq!(format_mem_size(usize::MAX), "17179869183 GB");
}

#[test]
fn every_digit_is_written() {
    assert_eq!(format_mem_size(1023), "1023 bytes");
    assert_eq!(format_mem_size(4567 * 1024), "4567 KB");
    assert_eq!(format_mem_size(8900), "8900 bytes");
    assert_eq!(format_mem_size(1234567890), "1177 MB");
    assert_eq!(format_mem_size(100), "100 bytes");
}

#[test]
fn sizes_agree_with_the_standard_formatter() {
    let mut size: usize = 11;
    while size < usize::MAX / 7 {
        let expected = if size <= 10 * 1024 {
            format!("{} bytes", size)
        } else if size <= 10 * 1024 * 1024 {
            format!("{} KB", size / 1024)
        } else if size <= 10 * 1024 * 1024 * 1024 {
            format!("{} MB", size / (1024 * 1024))
        } else {
            format!("{} GB", size / (1024 * 1024 * 1024))
        };
        assert_eq!(format_mem_size(size), expected);
        size = size * 7 + 3;
    }
}
