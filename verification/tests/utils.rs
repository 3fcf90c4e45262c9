use dutop::utils::{
    add_slash_if_needed, describe_io_error, full_name_from_path, short_name_from,
    short_name_from_path, ErrorKind, SizeDisplay,
};

#[test]
fn it_can_convert_a_path_to_a_string() {
    let path = "/path/to";

    assert_eq!(full_name_from_path(&path, false), "/path/to");
    assert_eq!(full_name_from_path(&path, true), "/path/to/");
}

#[test]
fn it_can_convert_a_filename_to_a_string() {
    let path = "/path/to";

    assert_eq!(short_name_from_path(&path, false), "to");
    assert_eq!(short_name_from_path(&path, true), "to/");
}

#[test]
fn it_handles_ending_slash_already_present() {
    let path = "/path/to/";

    // Strip slash of file paths
    assert_eq!(short_name_from_path(&path, false), "to");
    assert_eq!(full_name_from_path(&path, false), "/path/to");

    // Don't add an extra slash on directories
    assert_eq!(short_name_from_path(&path, true), "to/");
    assert_eq!(full_name_from_path(&path, true), "/path/to/");
}

#[test]
fn it_can_format_sizes() {
    assert_eq!(1.as_size_display(), "1 B");
    assert_eq!(345.as_size_display(), "345 B");
    assert_eq!(1000.as_size_display(), "1.00 kB");
    assert_eq!(1100.as_size_display(), "1.10 kB");
    assert_eq!(11000.as_size_display(), "11.00 kB");
    assert_eq!(123_456_789.as_size_display(), "123.46 MB");
    assert_eq!(123_452_000.as_size_display(), "123.45 MB");

    assert_eq!(867_000_000_000.as_size_display(), "867.00 GB");
    assert_eq!(867_000_000_000_000.as_size_display(), "867000.00 GB");
}

#[test]
fn sizes_below_the_first_cutoff_are_plain_byte_counts() {
    assert_eq!(0u64.as_size_display(), "0 B");
    assert_eq!(9u64.as_size_display(), "9 B");
    assert_eq!(10u64.as_size_display(), "10 B");
    assert_eq!(599u64.as_size_display(), "599 B");
}

#[test]
fn cutoffs_belong_to_the_smaller_unit() {
    assert_eq!(600u64.as_size_display(), "0.60 kB");
    assert_eq!(1_400_000u64.as_size_display(), "1400.00 kB");
    assert_eq!(1_400_001u64.as_size_display(), "1.40 MB");
    assert_eq!(1_400_000_000u64.as_size_display(), "1400.00 MB");
    assert_eq!(1_400_000_001u64.as_size_display(), "1.40 GB");
    assert_eq!(u64::MAX.as_size_display(), "18446744073.71 GB");
}

fn floating(size: u64) -> String {
    if size < 600 {
        format!("{} B", size)
    } else if size <= 1_400_000 {
        format!("{:.2} {}", size as f64 / 1e3, "kB")
    } else if size <= 1_400_000_000 {
        format!("{:.2} {}", size as f64 / 1e6, "MB")
    } else {
        format!("{:.2} {}", size as f64 / 1e9, "GB")
    }
}

#[test]
fn every_size_in_thousands_is_rounded_as_floating_point_division_rounds() {
    let mut size: u64 = 0;
    while size <= 1_400_000 {
        assert_eq!(size.as_size_display(), floating(size), "size {}", size);
        size += 1;
    }
}

#[test]
fn halves_of_a_hundredth_are_rounded_as_floating_point_division_rounds() {
    // In millions, a size that ends in 5000 lies halfway between two hundredths.
    let mut size: u64 = 1_405_000;
    while size <= 1_400_000_000 {
        assert_eq!(size.as_size_display(), floating(size), "size {}", size);
        size += 10_000;
    }
    // In thousands of millions, one that ends in 5000000 does.
    let mut size: u64 = 1_405_000_000;
    while size <= 1_400_000_000_000 {
        assert_eq!(size.as_size_display(), floating(size), "size {}", size);
        size += 10_000_000;
    }
}

#[test]
fn scattered_sizes_are_rounded_as_floating_point_division_rounds() {
    let mut state: u64 = 0x9E37_79B9_7F4A_7C15;
    let mut round = 0;
    while round < 200_000 {
        state ^= state << 13;
        state ^= state >> 7;
        state ^= state << 17;
        let size = state >> (round % 40);
        assert_eq!(size.as_size_display(), floating(size), "size {}", size);
        round += 1;
    }
}

#[test]
fn sizes_beyond_53_bits_are_rounded_as_floating_point_division_rounds() {
    let mut size: u64 = u64::MAX;
    let mut round = 0;
    while round < 100_000 {
        assert_eq!(size.as_size_display(), floating(size), "size {}", size);
        size -= 1 + (round * 7919) % 4099;
        round += 1;
    }
    let mut base: u64 = 1 << 53;
    while base < (1 << 63) {
        let mut offset: u64 = 0;
        while offset < 5000 {
            assert_eq!((base + offset).as_size_display(), floating(base + offset));
            assert_eq!((base - offset).as_size_display(), floating(base - offset));
            offset += 1;
        }
        base <<= 1;
    }
}

#[test]
fn a_directory_name_ends_with_one_slash() {
    assert_eq!(add_slash_if_needed("name".to_string(), true), "name/");
    assert_eq!(add_slash_if_needed("name/".to_string(), true), "name/");
    assert_eq!(add_slash_if_needed("name//".to_string(), true), "name//");
    assert_eq!(add_slash_if_needed("".to_string(), true), "/");
}

#[test]
fn a_file_name_loses_one_slash_at_its_end() {
    assert_eq!(add_slash_if_needed("name".to_string(), false), "name");
    assert_eq!(add_slash_if_needed("name/".to_string(), false), "name");
    assert_eq!(add_slash_if_needed("name//".to_string(), false), "name/");
    assert_eq!(add_slash_if_needed("".to_string(), false), "");
    assert_eq!(add_slash_if_needed("é/".to_string(), false), "é");
}

#[test]
fn a_path_without_a_final_component_is_shown_whole() {
    assert_eq!(short_name_from_path(".", true), "./");
    assert_eq!(short_name_from_path("..", true), "../");
    assert_eq!(short_name_from_path("/", true), "/");
    assert_eq!(short_name_from_path("a/..", true), "a/../");
    assert_eq!(short_name_from(None, "whole", false), "whole");
    assert_eq!(short_name_from(None, "whole", true), "whole/");
}

#[test]
fn the_short_name_is_the_final_component() {
    assert_eq!(short_name_from_path("a/b/c.txt", false), "c.txt");
    assert_eq!(short_name_from_path("./.hidden", false), ".hidden");
    assert_eq!(short_name_from_path("a/b/.", true), "b/");
    assert_eq!(short_name_from(Some("part".to_string()), "some/part", true), "part/");
    assert_eq!(short_name_from(Some("part/".to_string()), "ignored", false), "part");
}

#[test]
fn every_failure_has_its_words() {
    assert_eq!(describe_io_error(ErrorKind::NotFound), "File not found");
    assert_eq!(describe_io_error(ErrorKind::PermissionDenied), "Permission denied");
    assert_eq!(describe_io_error(ErrorKind::TimedOut), "Timed out");
    assert_eq!(describe_io_error(ErrorKind::Interrupted), "Interrupted");
    assert_eq!(describe_io_error(ErrorKind::Unrecognized), "Unrecognized error");
}
