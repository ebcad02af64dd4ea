use blf_asc::cli::{conclusion, help, is_blank, is_limit_reached, parse_command, progress, Command};

fn command(args: &[&str]) -> Command {
    let args: Vec<String> = args.iter().map(|a| a.to_string()).collect();
    parse_command(&args)
}

#[test]
fn complete_commands() {
    assert!(matches!(
        command(&["blf", "read", "in.blf"]),
        Command::Read { input, limit: None } if input == "in.blf"
    ));
    assert!(matches!(
        command(&["blf", "read", "in.blf", "--limit", "5"]),
        Command::Read { input, limit: Some(5) } if input == "in.blf"
    ));
    assert!(matches!(
        command(&["blf", "read", "in.blf", "--limit", "many"]),
        Command::Read { limit: None, .. }
    ));
    assert!(matches!(
        command(&["blf", "read", "in.blf", "--max", "5"]),
        Command::Read { limit: None, .. }
    ));
    assert!(matches!(
        command(&["blf", "write", "out.blf", "in.jsonl"]),
        Command::Write { output, input } if output == "out.blf" && input == "in.jsonl"
    ));
    assert!(matches!(
        command(&["blf", "--dump", "in.blf", "3"]),
        Command::Dump { input, count: 3 } if input == "in.blf"
    ));
    assert!(matches!(command(&["blf", "--dump", "in.blf", "x"]), Command::Dump { count: 10, .. }));
    assert!(matches!(
        command(&["blf", "in.blf", "out.blf"]),
        Command::Copy { input, output } if input == "in.blf" && output == "out.blf"
    ));
}

#[test]
fn incomplete_commands_are_explained() {
    let text = |args: &[&str]| help(&command(args), "blf");
    assert_eq!(
        text(&["blf"]).unwrap(),
        "Usage:\n  blf <input.blf> <output.blf>\n  blf --dump <input.blf> <count>\n  blf read <input.blf> [--limit N]\n  blf write <output.blf> <input.jsonl>\n"
    );
    assert_eq!(text(&[]), text(&["blf"]));
    assert_eq!(text(&["blf", "read"]).unwrap(), "Usage: blf read <input.blf> [--limit N]\n");
    assert_eq!(
        text(&["blf", "write", "out.blf"]).unwrap(),
        "Usage: blf write <output.blf> <input.jsonl>\n"
    );
    assert_eq!(
        text(&["blf", "--dump", "in.blf"]).unwrap(),
        "Usage: blf --dump <input.blf> <count>\n"
    );
    assert_eq!(text(&["blf", "in.blf"]).unwrap(), "Usage: blf <input.blf> <output.blf>\n");
    assert_eq!(text(&["blf", "in.blf", "out.blf"]), None);
}

#[test]
fn limits_and_reports() {
    assert!(!is_limit_reached(4, Some(5)));
    assert!(is_limit_reached(5, Some(5)));
    assert!(is_limit_reached(1, Some(0)));
    assert!(!is_limit_reached(usize::MAX, None));
    assert_eq!(progress(199_999), None);
    assert_eq!(progress(400_000).unwrap(), "processed 400000 messages...");
    assert_eq!(conclusion(12), "done: wrote 12 messages");
    assert!(is_blank(" \t\r\n"));
    assert!(!is_blank(" {"));
}
