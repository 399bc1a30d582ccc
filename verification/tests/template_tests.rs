use settings_core::template::{ParseRenderDestinationError, RenderDestination};

#[test]
fn test_parse_render_destination_only_path() {
    let input = " path";
    let expected = RenderDestination {
        path: "path".into(),
        mode: "0644".to_string(),
        user: None,
        group: None,
    };

    let parsed: RenderDestination = input.parse().unwrap();
    assert_eq!(parsed, expected);
}

#[test]
fn test_parse_render_destination_path_and_mode() {
    let input = "path 0755";
    let expected = RenderDestination {
        path: "path".into(),
        mode: "0755".to_string(),
        user: None,
        group: None,
    };

    let parsed: RenderDestination = input.parse().unwrap();
    assert_eq!(parsed, expected);
}

#[test]
fn test_parse_render_destination_path_mode_and_user() {
    let input = "path 0644     user  ";
    let expected = RenderDestination {
        path: "path".into(),
        mode: "0644".to_string(),
        user: Some("user".to_string()),
        group: None,
    };

    let parsed: RenderDestination = input.parse().unwrap();
    assert_eq!(parsed, expected);
}

#[test]
fn test_parse_render_destination_path_mode_user_and_group() {
    let input = "path 0700  user group";
    let expected = RenderDestination {
        path: "path".into(),
        mode: "0700".to_string(),
        user: Some("user".to_string()),
        group: Some("group".to_string()),
    };

    let parsed: RenderDestination = input.parse().unwrap();
    assert_eq!(parsed, expected);
}

#[test]
fn test_parse_render_destination_explicit_default_mode_and_user() {
    let input = "path - -";
    let expected = RenderDestination {
        path: "path".into(),
        mode: "0644".to_string(),
        user: None,
        group: None,
    };

    let parsed: RenderDestination = input.parse().unwrap();
    assert_eq!(parsed, expected);
}

#[test]
fn test_parse_render_destination_explicit_defaults_all() {
    let input = "path - - -";
    let expected = RenderDestination {
        path: "path".into(),
        mode: "0644".to_string(),
        user: None,
        group: None,
    };

    let parsed: RenderDestination = input.parse().unwrap();
    assert_eq!(parsed, expected);
}

#[test]
fn render_destination_five_tokens_is_arity_error() {
    let err = RenderDestination::parse("a b c d e").unwrap_err();
    assert_eq!(err, ParseRenderDestinationError::IncorrectArity { arity: 5 });
}

#[test]
fn render_destination_empty_line_is_arity_error() {
    let err = RenderDestination::parse("").unwrap_err();
    assert_eq!(err, ParseRenderDestinationError::IncorrectArity { arity: 0 });
}

#[test]
fn render_destination_mode_with_non_octal_digit_is_invalid() {
    let err = RenderDestination::parse("path 07a9").unwrap_err();
    assert_eq!(err, ParseRenderDestinationError::InvalidMode { mode: "07a9".to_string() });
}

#[test]
fn render_destination_three_digit_mode_is_invalid() {
    let err = RenderDestination::parse("path 999").unwrap_err();
    assert_eq!(err, ParseRenderDestinationError::InvalidMode { mode: "999".to_string() });
}

#[test]
fn render_destination_mode_with_digit_nine_is_invalid() {
    let err = RenderDestination::parse("path 0694").unwrap_err();
    assert_eq!(err, ParseRenderDestinationError::InvalidMode { mode: "0694".to_string() });
}

#[test]
fn parse_lines_skips_comments_and_keeps_order() {
    let content = "# header comment\n/etc/a.conf\n/etc/b.conf 0700 user group\n";
    let parsed = RenderDestination::parse_lines(content).unwrap();
    assert_eq!(parsed.len(), 2);
    assert_eq!(parsed[0].path, "/etc/a.conf");
    assert_eq!(parsed[0].mode, "0644");
    assert_eq!(parsed[1].path, "/etc/b.conf");
    assert_eq!(parsed[1].mode, "0700");
    assert_eq!(parsed[1].user, Some("user".to_string()));
    assert_eq!(parsed[1].group, Some("group".to_string()));
}

#[test]
fn parse_lines_of_empty_content_is_empty() {
    let parsed = RenderDestination::parse_lines("  \n \n").unwrap();
    assert!(parsed.is_empty());
}

#[test]
fn parse_lines_reports_first_error() {
    let err = RenderDestination::parse_lines("/etc/a.conf\nbad 99\n").unwrap_err();
    assert_eq!(err, ParseRenderDestinationError::InvalidMode { mode: "99".to_string() });
}

#[test]
fn parse_lines_handles_carriage_returns() {
    let parsed = RenderDestination::parse_lines("/etc/a.conf 0755\r\n/etc/b.conf\r\n").unwrap();
    assert_eq!(parsed.len(), 2);
    assert_eq!(parsed[0].mode, "0755");
    assert_eq!(parsed[1].path, "/etc/b.conf");
}
