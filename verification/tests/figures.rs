use iiac_perf::figures::{escape, format_of, Format, Show, XAxis};

#[test]
fn show_parses_its_four_forms() {
    assert_eq!(Show::parse("all"), Ok(Show::All));
    assert_eq!(Show::parse("trim"), Ok(Show::Trim));
    assert_eq!(Show::parse("extremes"), Ok(Show::Extremes));
    assert_eq!(Show::parse("3,1,7"), Ok(Show::Runs(vec![3, 1, 7])));
    assert!(Show::parse("0").is_err() && Show::parse("some").is_err());
    assert_eq!(XAxis::parse("block"), Ok(XAxis::Block));
    assert!(XAxis::parse("t").is_err());
}

#[test]
fn the_format_follows_the_extension_and_a_png_is_one() {
    assert_eq!(format_of("a.png"), Ok(Format::Png));
    assert_eq!(format_of("a.svg"), Ok(Format::Svg));
    assert!(format_of("a.jpg").is_err());
}

#[test]
fn run_lists_are_trimmed_and_refused_whole() {
    assert_eq!(Show::parse(" 2 , 5,+9"), Ok(Show::Runs(vec![2, 5, 9])));
    assert_eq!(
        Show::parse("1,,2"),
        Err("'1,,2' is not all, trim, extremes, or run numbers, as in 3,1,7".to_string())
    );
    assert!(Show::parse("").is_err());
    assert!(Show::parse("1,0").is_err());
    assert!(Show::parse("18446744073709551616").is_err());
    assert_eq!(XAxis::parse("time"), Ok(XAxis::Time));
    assert_eq!(XAxis::parse("x"), Err("'x' is not time or block".to_string()));
}

#[test]
fn svg_text_escapes_its_three_characters() {
    assert_eq!(escape("a<b>&c"), "a&lt;b&gt;&amp;c");
    assert_eq!(escape("plain"), "plain");
    assert_eq!(escape("&lt;"), "&amp;lt;");
}

#[test]
fn a_format_needs_a_real_extension() {
    assert_eq!(
        format_of("out"),
        Err("out: name a .png or a .svg, the format following the extension".to_string())
    );
    assert!(format_of(".svg").is_err());
    assert_eq!(format_of("dir/fig.svg"), Ok(Format::Svg));
    assert!(format_of("fig.SVG").is_err());
}
