use filtile::number::{parse_hundredths, parse_u32};
use filtile::parse::{
    parse_command, parse_output, parse_tags, split_commands, split_words, trim_text, Command,
    Operation,
};

#[test]
fn it_splits_commands() {
    let (car, cdr) = split_commands("hi there you");

    assert_eq!(car, "hi there you");
    assert_eq!(cdr, None);

    let (car, cdr) = split_commands("first, and the second, third");

    assert_eq!(car, "first");
    assert_eq!(cdr, Some("and the second, third"));

    let (car, cdr) = split_commands("-some-command 47 then some more stuff");

    assert_eq!(car, "-some-command 47");
    assert_eq!(cdr, Some("then some more stuff"));

    let (car, cdr) = split_commands("-some-command 47");

    assert_eq!(car, "-some-command 47");
    assert_eq!(cdr, None);
}

#[test]
fn it_parses_invalid_commands() {
    assert_eq!(
        Command::Invalid,
        parse_command("free-ice-cream for you and me")
    );
}

#[test]
fn it_parses_single_commands() {
    match parse_command("flip") {
        Command::Single(v) => assert_eq!("flip", v),
        _ => panic!("parser fail"),
    };
}

#[test]
fn it_ignores_options() {
    match parse_command("--output HD1 flip --tags 1") {
        Command::Single(v) => assert_eq!("flip", v),
        _ => panic!("parser fail"),
    };
}

#[test]
fn it_parses_options() {
    match parse_output("--output HD1 flip") {
        Some(o) => assert_eq!("HD1", o),
        _ => panic!("parser fail"),
    }

    match parse_tags("flip --tags all") {
        Some(t) => assert_eq!(0, t),
        _ => panic!("parser fail"),
    }

    match parse_tags("flip --tags 32") {
        Some(t) => assert_eq!(32, t),
        _ => panic!("parser fail"),
    }
}

#[test]
fn it_parses_numeric_commands() {
    match parse_command("outer-padding +3") {
        Command::Numeric {
            namespace: ns,
            operation: op,
            value: v,
        } => {
            assert_eq!("outer-padding", ns);
            assert_eq!(Operation::Add, op);
            assert_eq!(3, v);
        }
        _ => panic!("parser fail"),
    };

    match parse_command("inner-padding -3") {
        Command::Numeric {
            namespace: ns,
            operation: op,
            value: v,
        } => {
            assert_eq!("inner-padding", ns);
            assert_eq!(Operation::Subtract, op);
            assert_eq!(3, v);
        }
        _ => panic!("parser fail"),
    };

    match parse_command("main-ratio 75") {
        Command::Numeric {
            namespace: ns,
            operation: op,
            value: v,
        } => {
            assert_eq!("main-ratio", ns);
            assert_eq!(Operation::Assign, op);
            assert_eq!(75, v);
        }
        _ => panic!("parser fail"),
    };

    match parse_command("main-ratio 0.75") {
        Command::Numeric {
            namespace: ns,
            operation: op,
            value: v,
        } => {
            assert_eq!("main-ratio", ns);
            assert_eq!(Operation::Assign, op);
            assert_eq!(75, v);
        }
        _ => panic!("parser fail"),
    };
}

#[test]
fn it_parses_textual_commands() {
    match parse_command("main-location left") {
        Command::Textual {
            namespace: ns,
            value: v,
        } => {
            assert_eq!("main-location", ns);
            assert_eq!("left", v);
        }
        _ => panic!("parser fail"),
    };
}

#[test]
fn it_parses_rivertile_commands() {
    match parse_command("-main-location right") {
        Command::Textual {
            namespace: ns,
            value: v,
        } => {
            assert_eq!("main-location", ns);
            assert_eq!("right", v);
        }
        _ => panic!("parser fail"),
    }

    match parse_command("-main-ratio 0.6") {
        Command::Numeric {
            namespace: ns,
            operation: op,
            value: v,
        } => {
            assert_eq!("main-ratio", ns);
            assert_eq!(Operation::Assign, op);
            assert_eq!(60, v);
        }
        _ => panic!("parser fail"),
    }
}

#[test]
fn legacy_forms_set_their_namespace() {
    assert_eq!(
        parse_command("-view-padding 4"),
        Command::Numeric { namespace: "view-padding", operation: Operation::Assign, value: 4 }
    );
    assert_eq!(
        parse_command("-outer-padding 7"),
        Command::Numeric { namespace: "outer-padding", operation: Operation::Assign, value: 7 }
    );
    assert_eq!(
        parse_command("-main-count 2"),
        Command::Numeric { namespace: "main-count", operation: Operation::Assign, value: 2 }
    );
    // a legacy name with a value it cannot take is read as an ordinary pair
    assert_eq!(
        parse_command("-main-ratio abc"),
        Command::Textual { namespace: "-main-ratio", value: "abc" }
    );
    assert_eq!(
        parse_command("-main-count -2"),
        Command::Numeric { namespace: "-main-count", operation: Operation::Subtract, value: 2 }
    );
}

#[test]
fn values_fall_back_from_integer_to_fraction_to_text() {
    assert_eq!(
        parse_command("main-ratio +.05"),
        Command::Numeric { namespace: "main-ratio", operation: Operation::Add, value: 5 }
    );
    assert_eq!(
        parse_command("pad -on"),
        Command::Textual { namespace: "pad", value: "on" }
    );
    assert_eq!(
        parse_command("main-ratio 5x"),
        Command::Textual { namespace: "main-ratio", value: "5x" }
    );
    assert_eq!(parse_command(""), Command::Invalid);
    assert_eq!(parse_command("  flip  "), Command::Single("flip"));
    assert_eq!(parse_command("a b c"), Command::Invalid);
}

#[test]
fn integers_follow_unsigned_rules() {
    assert_eq!(parse_u32("0"), Some(0));
    assert_eq!(parse_u32("+42"), Some(42));
    assert_eq!(parse_u32("4294967295"), Some(u32::MAX));
    assert_eq!(parse_u32("4294967296"), None);
    assert_eq!(parse_u32("-1"), None);
    assert_eq!(parse_u32("+"), None);
    assert_eq!(parse_u32(""), None);
    assert_eq!(parse_u32("12a"), None);
}

#[test]
fn fractions_are_read_in_hundredths() {
    assert_eq!(parse_hundredths("0.6"), Some(60));
    assert_eq!(parse_hundredths("0.759"), Some(75));
    assert_eq!(parse_hundredths("1.5"), Some(150));
    assert_eq!(parse_hundredths(".5"), Some(50));
    assert_eq!(parse_hundredths("3."), Some(300));
    assert_eq!(parse_hundredths("-0.5"), Some(0));
    assert_eq!(parse_hundredths("99999999.5"), Some(u32::MAX));
    assert_eq!(parse_hundredths("."), None);
    assert_eq!(parse_hundredths("1.2.3"), None);
    assert_eq!(parse_hundredths("left"), None);
}

#[test]
fn options_need_a_value() {
    assert_eq!(parse_tags("flip --tags"), None);
    assert_eq!(parse_tags("flip --tags nope"), None);
    assert_eq!(parse_tags("flip"), None);
    assert_eq!(parse_output("flip --output"), None);
    assert_eq!(parse_output("--output A --output B"), Some("A"));
}

#[test]
fn words_and_trimming() {
    assert_eq!(split_words("  a  bc\td "), vec!["a", "bc", "d"]);
    assert_eq!(split_words(""), Vec::<&str>::new());
    assert_eq!(trim_text(" \t x y \n"), "x y");
    assert_eq!(trim_text("   "), "");
    let (car, cdr) = split_commands("flip,  ");
    assert_eq!(car, "flip");
    assert_eq!(cdr, None);
    let (car, cdr) = split_commands("--tags 1 flip, pad");
    assert_eq!(car, "--tags 1 flip");
    assert_eq!(cdr, Some("pad"));
}

#[test]
fn fractions_take_exponents_and_special_words() {
    assert_eq!(parse_hundredths("6e1"), Some(6000));
    assert_eq!(parse_hundredths("6E-1"), Some(60));
    assert_eq!(parse_hundredths("1e+2"), Some(10000));
    assert_eq!(parse_hundredths("0.000001e6"), Some(100));
    assert_eq!(parse_hundredths("1e-3"), Some(0));
    assert_eq!(parse_hundredths("1e99999999999999999999999999999999999999"), Some(u32::MAX));
    assert_eq!(parse_hundredths("1e-99999999999999999999999999999999999999"), Some(0));
    assert_eq!(parse_hundredths("0e99999999999999999999999999999999999999"), Some(0));
    assert_eq!(parse_hundredths("inf"), Some(u32::MAX));
    assert_eq!(parse_hundredths("+Infinity"), Some(u32::MAX));
    assert_eq!(parse_hundredths("-inf"), Some(0));
    assert_eq!(parse_hundredths("NaN"), Some(0));
    assert_eq!(parse_hundredths("1e"), None);
    assert_eq!(parse_hundredths("e5"), None);
    assert_eq!(parse_hundredths("1e2.5"), None);
    assert_eq!(parse_hundredths("infinit"), None);
    assert_eq!(
        parse_command("-main-ratio 6e-1"),
        Command::Numeric { namespace: "main-ratio", operation: Operation::Assign, value: 60 }
    );
}
