use dutop::arguments::{
    parse_from, validate_depth, validate_limit, Depth, Limit, Matches, Options,
};
use dutop::modes::Mode;

fn no_arguments() -> Matches {
    Matches { dirs: None, limit: None, depth: None, recursive: false, all: false, files: false }
}

fn text(value: &str) -> Option<String> {
    Some(value.to_string())
}

// parse_from and Option

#[test]
fn it_has_defaults_on_no_arguments() {
    let options = parse_from(no_arguments()).unwrap();

    assert_eq!(options.roots, vec!["."]);
    assert_eq!(options.limit, Limit::Limited(1));
    assert_eq!(options.depth, Depth::Limited(1));
    assert_eq!(options.should_show_hidden(), false);

    assert_eq!(options.limit_reached(0), false);
    assert_eq!(options.limit_reached(1), true);

    assert_eq!(options.depth_accepts(0), true);
    assert_eq!(options.depth_accepts(1), false);
}

#[test]
fn it_takes_multiple_roots() {
    let options = parse_from(Matches {
        dirs: Some(vec!["foo".to_string(), "bar".to_string()]),
        ..no_arguments()
    })
    .unwrap();
    assert_eq!(options.roots, vec!["foo", "bar"]);
    assert_eq!(options.roots(), &vec!["foo".to_string(), "bar".to_string()]);
}

#[test]
fn options_has_depth_information() {
    let options = parse_from(Matches { depth: text("0"), ..no_arguments() }).unwrap();
    assert_eq!(options.depth, Depth::Unlimited);
}

#[test]
fn options_has_limit_information() {
    let options = parse_from(Matches { limit: text("0"), ..no_arguments() }).unwrap();
    assert_eq!(options.limit, Limit::Unlimited);
}

#[test]
fn options_has_show_all_option() {
    let options = parse_from(Matches { all: true, ..no_arguments() }).unwrap();
    assert_eq!(options.should_show_hidden(), true);
}

#[test]
fn options_defaults_to_unlimited_depth_when_recursive() {
    let options = parse_from(Matches { recursive: true, ..no_arguments() }).unwrap();
    assert_eq!(options.depth, Depth::Unlimited);
}

#[test]
fn options_can_override_depth_when_recursive() {
    let options =
        parse_from(Matches { depth: text("5"), recursive: true, ..no_arguments() }).unwrap();
    assert_eq!(options.depth, Depth::Limited(5));
}

#[test]
fn options_default_to_tree_mode() {
    let options = parse_from(no_arguments()).unwrap();
    assert_eq!(options.mode(), &Mode::Tree);
}

#[test]
fn options_can_select_file_mode() {
    let options = parse_from(Matches { files: true, ..no_arguments() }).unwrap();
    assert_eq!(options.mode(), &Mode::Files);
}

// Depth

#[test]
fn it_parses_positive_depth_from_strings() {
    assert_eq!("12".parse::<Depth>(), Ok(Depth::Limited(12)));
}

#[test]
fn it_parses_zero_depth_from_strings() {
    assert_eq!("0".parse::<Depth>(), Ok(Depth::Unlimited));
}

#[test]
fn it_parses_named_alias_for_unlimited_depth_from_strings() {
    assert_eq!("all".parse::<Depth>(), Ok(Depth::Unlimited));
}

#[test]
fn it_rejects_broken_depth_strings() {
    assert_eq!(
        "totally broken".parse::<Depth>(),
        Err("Not a positive integer or \"all\"".to_string())
    );
}

// Limit

#[test]
fn it_parses_positive_limit_from_strings() {
    assert_eq!("12".parse::<Limit>(), Ok(Limit::Limited(12)));
}

#[test]
fn it_parses_zero_limit_from_strings() {
    assert_eq!("0".parse::<Limit>(), Ok(Limit::Unlimited));
}

#[test]
fn it_parses_named_alias_for_unlimited_limit_from_strings() {
    assert_eq!("all".parse::<Limit>(), Ok(Limit::Unlimited));
}

#[test]
fn it_rejects_broken_limit_strings() {
    assert_eq!(
        "totally broken".parse::<Limit>(),
        Err("Not a positive integer or \"all\"".to_string())
    );
}

#[test]
fn a_depth_accepts_the_levels_below_it() {
    assert_eq!(Depth::Limited(3).accepts(0), true);
    assert_eq!(Depth::Limited(3).accepts(2), true);
    assert_eq!(Depth::Limited(3).accepts(3), false);
    assert_eq!(Depth::Limited(3).accepts(usize::MAX), false);
    assert_eq!(Depth::Limited(usize::MAX).accepts(usize::MAX - 1), true);
    assert_eq!(Depth::Limited(0).accepts(0), false);
    assert_eq!(Depth::Unlimited.accepts(0), true);
    assert_eq!(Depth::Unlimited.accepts(usize::MAX), true);
}

#[test]
fn a_limit_is_reached_at_its_count() {
    assert_eq!(Limit::Limited(3).reached(2), false);
    assert_eq!(Limit::Limited(3).reached(3), true);
    assert_eq!(Limit::Limited(3).reached(4), true);
    assert_eq!(Limit::Limited(0).reached(0), true);
    assert_eq!(Limit::Unlimited.reached(usize::MAX), false);
}

#[test]
fn counts_are_read_as_the_standard_library_reads_them() {
    let samples = [
        "", "+", "-", "0", "00", "007", "+5", "-5", "+0", "++1", "1+", " 1", "1 ", "1_000",
        "12a", "a12", "٣", "１２", "1.5", "1e3", "0x10", "all", "ALL", "All", "al", "alll",
        "4294967295", "4294967296", "18446744073709551615", "18446744073709551616",
        "99999999999999999999999999", "+18446744073709551615", "0000000000000000000000001",
    ];
    for sample in samples {
        let expected = if sample == "all" {
            Ok(Depth::Unlimited)
        } else {
            match sample.parse::<usize>() {
                Ok(0) => Ok(Depth::Unlimited),
                Ok(count) => Ok(Depth::Limited(count)),
                Err(_) => Err("Not a positive integer or \"all\"".to_string()),
            }
        };
        assert_eq!(Depth::parse(sample), expected, "depth {:?}", sample);
        let expected = if sample == "all" {
            Ok(Limit::Unlimited)
        } else {
            match sample.parse::<usize>() {
                Ok(0) => Ok(Limit::Unlimited),
                Ok(count) => Ok(Limit::Limited(count)),
                Err(_) => Err("Not a positive integer or \"all\"".to_string()),
            }
        };
        assert_eq!(Limit::parse(sample), expected, "limit {:?}", sample);
    }
}

#[test]
fn a_broken_depth_is_refused_before_a_broken_limit() {
    let refused =
        parse_from(Matches { depth: text("deep"), limit: text("few"), ..no_arguments() });
    assert_eq!(
        refused.err(),
        text("Could not determine depth: Not a positive integer or \"all\"")
    );
    let refused = parse_from(Matches { limit: text("-1"), ..no_arguments() });
    assert_eq!(
        refused.err(),
        text("Could not determine depth: Not a positive integer or \"all\"")
    );
}

#[test]
fn every_argument_finds_its_place() {
    let options = parse_from(Matches {
        dirs: Some(vec!["a".to_string()]),
        limit: text("all"),
        depth: text("7"),
        recursive: false,
        all: true,
        files: true,
    })
    .unwrap();
    assert_eq!(options.roots, vec!["a"]);
    assert_eq!(options.limit, Limit::Unlimited);
    assert_eq!(options.depth, Depth::Limited(7));
    assert_eq!(options.mode, Mode::Files);
    assert_eq!(options.show_all, true);
}

#[test]
fn given_values_are_judged_as_they_are_parsed() {
    assert_eq!(validate_limit("all"), Ok(()));
    assert_eq!(validate_limit("0"), Ok(()));
    assert_eq!(validate_limit("12"), Ok(()));
    assert_eq!(
        validate_limit("-1"),
        Err("Limit needs to be a non-negative integer or \"all\".".to_string())
    );
    assert_eq!(validate_depth("all"), Ok(()));
    assert_eq!(validate_depth("3"), Ok(()));
    assert_eq!(
        validate_depth("three"),
        Err("Depth must be a non-negative integer or \"all\".".to_string())
    );
}

#[test]
fn options_can_be_written_down() {
    let options = Options {
        roots: vec!["x".to_string()],
        limit: Limit::Limited(2),
        depth: Depth::Unlimited,
        mode: Mode::Tree,
        show_all: false,
    };
    assert_eq!(options.limit_reached(1), false);
    assert_eq!(options.limit_reached(2), true);
    assert_eq!(options.depth_accepts(1000), true);
}
