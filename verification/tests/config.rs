use dirview::config::{parse_args, target_directory, Config};

fn tokens(list: &[&str]) -> Vec<String> {
    list.iter().map(|s| String::from(*s)).collect()
}

#[test]
fn parse_args_without_tokens() {
    let (args, config) = parse_args(Vec::new());
    assert!(args.is_empty());
    assert_eq!(config, Config { show_hidden: false, one_per_line: false, show_color: false });
}

#[test]
fn parse_args_knows_the_three_flags() {
    let (args, config) = parse_args(tokens(&["-a"]));
    assert!(args.is_empty());
    assert_eq!(config, Config { show_hidden: true, one_per_line: false, show_color: false });
    let (_, config) = parse_args(tokens(&["-1"]));
    assert_eq!(config, Config { show_hidden: false, one_per_line: true, show_color: false });
    let (_, config) = parse_args(tokens(&["-G"]));
    assert_eq!(config, Config { show_hidden: false, one_per_line: false, show_color: true });
    let (args, config) = parse_args(tokens(&["-G", "-a", "-1", "-a"]));
    assert!(args.is_empty());
    assert_eq!(config, Config { show_hidden: true, one_per_line: true, show_color: true });
}

#[test]
fn parse_args_keeps_everything_else_in_order() {
    let (args, config) = parse_args(tokens(&["src", "-a", "-x", "-A", "docs", "-", "-aa"]));
    assert_eq!(args, tokens(&["src", "-x", "-A", "docs", "-", "-aa"]));
    assert_eq!(config, Config { show_hidden: true, one_per_line: false, show_color: false });
}

#[test]
fn target_directory_is_the_last_positional_or_the_current_directory() {
    assert_eq!(target_directory(&Vec::new()), ".");
    assert_eq!(target_directory(&tokens(&["src"])), "src");
    assert_eq!(target_directory(&tokens(&["src", "docs"])), "docs");
}
