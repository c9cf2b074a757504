use openab::directives::{is_valid_attachment_directive_path, parse_output_directives};

#[test]
fn parse_reply_to_directive() {
    let input = "[[reply_to:1502606076451885136]]\nHello world";
    let (directives, content) = parse_output_directives(input);
    assert_eq!(directives.reply_to, Some("1502606076451885136".to_string()));
    assert_eq!(content, "Hello world");
}

#[test]
fn parse_no_directives() {
    let input = "Just plain content\nwith multiple lines";
    let (directives, content) = parse_output_directives(input);
    assert_eq!(directives.reply_to, None);
    assert_eq!(content, input);
}

#[test]
fn parse_multiple_directives() {
    let input = "[[reply_to:123456]]\n[[unknown_key:value]]\nContent here";
    let (directives, content) = parse_output_directives(input);
    assert_eq!(directives.reply_to, Some("123456".to_string()));
    assert!(directives.attach_images.is_empty());
    assert_eq!(content, "Content here");
}

#[test]
fn parse_attach_image_directive() {
    let input = "[[attach_image:/home/node/.codex/generated_images/out.png]]\nDone";
    let (directives, content) = parse_output_directives(input);
    assert_eq!(
        directives.attach_images,
        vec!["/home/node/.codex/generated_images/out.png".to_string()]
    );
    assert_eq!(content, "Done");
}

#[test]
fn parse_multiple_attach_image_directives() {
    let input = "[[attach_image:one.png]]\n[[attach_image:two.webp]]\nDone";
    let (directives, content) = parse_output_directives(input);
    assert_eq!(directives.attach_images, vec!["one.png", "two.webp"]);
    assert_eq!(content, "Done");
}

#[test]
fn parse_attach_image_rejects_empty_path() {
    let input = "[[attach_image:]]\nDone";
    let (directives, content) = parse_output_directives(input);
    assert!(directives.attach_images.is_empty());
    assert_eq!(content, "Done");
}

#[test]
fn parse_invalid_reply_to_rejects_whitespace() {
    let input = "[[reply_to:has spaces]]\nContent";
    let (directives, content) = parse_output_directives(input);
    assert_eq!(directives.reply_to, None);
    assert_eq!(content, "Content");
}

#[test]
fn parse_slack_ts_format_accepted() {
    let input = "[[reply_to:1234567890.123456]]\nContent";
    let (directives, content) = parse_output_directives(input);
    assert_eq!(directives.reply_to, Some("1234567890.123456".to_string()));
    assert_eq!(content, "Content");
}

#[test]
fn parse_empty_reply_to() {
    let input = "[[reply_to:]]\nContent";
    let (directives, content) = parse_output_directives(input);
    assert_eq!(directives.reply_to, None);
    assert_eq!(content, "Content");
}

#[test]
fn parse_crlf_line_endings() {
    let input = "[[reply_to:999]]\r\nContent with CRLF";
    let (directives, content) = parse_output_directives(input);
    assert_eq!(directives.reply_to, Some("999".to_string()));
    assert_eq!(content, "Content with CRLF");
}

#[test]
fn parse_directive_only_no_content() {
    let input = "[[reply_to:123]]";
    let (directives, content) = parse_output_directives(input);
    assert_eq!(directives.reply_to, Some("123".to_string()));
    assert_eq!(content, "");
}

#[test]
fn parse_non_directive_line_stops_parsing() {
    let input = "Normal first line\n[[reply_to:123]]\nMore content";
    let (directives, content) = parse_output_directives(input);
    assert_eq!(directives.reply_to, None);
    assert_eq!(content, input);
}

#[test]
fn parse_duplicate_reply_to_last_wins() {
    let input = "[[reply_to:111]]\n[[reply_to:222]]\nContent";
    let (directives, content) = parse_output_directives(input);
    assert_eq!(directives.reply_to, Some("222".to_string()));
    assert_eq!(content, "Content");
}

#[test]
fn parse_crlf_multiple_directives() {
    let input = "[[reply_to:456]]\r\n[[unknown:x]]\r\nContent after CRLF";
    let (directives, content) = parse_output_directives(input);
    assert_eq!(directives.reply_to, Some("456".to_string()));
    assert_eq!(content, "Content after CRLF");
}

#[test]
fn parse_bracket_without_colon_preserved() {
    let input = "[[Summary]]\nThis is body text";
    let (directives, content) = parse_output_directives(input);
    assert_eq!(directives.reply_to, None);
    assert_eq!(content, input);
}

#[test]
fn parse_reply_to_with_inline_content() {
    let input = "[[reply_to:1502724086474870926]]  @BOT I'm on standby";
    let (directives, content) = parse_output_directives(input);
    assert_eq!(directives.reply_to, Some("1502724086474870926".to_string()));
    assert_eq!(content, "@BOT I'm on standby");
}

#[test]
fn parse_reply_to_inline_with_more_lines() {
    let input = "[[reply_to:123]]  First line\nSecond line\nThird line";
    let (directives, content) = parse_output_directives(input);
    assert_eq!(directives.reply_to, Some("123".to_string()));
    assert_eq!(content, "First line\nSecond line\nThird line");
}

#[test]
fn parse_reply_to_no_space_before_content() {
    let input = "[[reply_to:1502724086474870926]]收到";
    let (directives, content) = parse_output_directives(input);
    assert_eq!(directives.reply_to, Some("1502724086474870926".to_string()));
    assert_eq!(content, "收到");
}

#[test]
fn parse_reply_to_inline_with_mention() {
    let input = "[[reply_to:1502724086474870926]]  <@1490365068863606784> 我 standby";
    let (directives, content) = parse_output_directives(input);
    assert_eq!(directives.reply_to, Some("1502724086474870926".to_string()));
    assert_eq!(content, "<@1490365068863606784> 我 standby");
}

#[test]
fn parse_reply_to_inline_only_spaces() {
    let input = "[[reply_to:123]]   ";
    let (directives, content) = parse_output_directives(input);
    assert_eq!(directives.reply_to, Some("123".to_string()));
    assert_eq!(content, "");
}

#[test]
fn parse_reply_to_with_brackets_in_content() {
    let input = "[[reply_to:456]]  看看 [[這個]] 怎麼樣";
    let (directives, content) = parse_output_directives(input);
    assert_eq!(directives.reply_to, Some("456".to_string()));
    assert_eq!(content, "看看 [[這個]] 怎麼樣");
}

#[test]
fn later_image_line_is_taken_out() {
    let (directives, content) =
        parse_output_directives("Here it is:\n[[attach_image:sky.png]]\nEnjoy");
    assert_eq!(directives.attach_images, vec!["sky.png"]);
    assert_eq!(content, "Here it is:\nEnjoy");
}

#[test]
fn image_line_in_a_code_block_stays() {
    let input = "Write:\n```\n[[attach_image:sky.png]]\n```\n";
    let (directives, content) = parse_output_directives(input);
    assert!(directives.attach_images.is_empty());
    assert_eq!(content, input);
}

#[test]
fn attach_file_directive_is_read() {
    let (directives, content) =
        parse_output_directives("[[attach_image:a.png]]\n[[attach_file:b.docx]]\nDone");
    assert_eq!(directives.attach_images, vec!["a.png"]);
    assert_eq!(directives.attach_files, vec!["b.docx"]);
    assert_eq!(content, "Done");
}

#[test]
fn attachment_paths_are_bounded() {
    assert!(is_valid_attachment_directive_path("a.png"));
    assert!(!is_valid_attachment_directive_path(""));
    assert!(!is_valid_attachment_directive_path("a\u{7}.png"));
    assert!(is_valid_attachment_directive_path(&"a".repeat(4096)));
    assert!(!is_valid_attachment_directive_path(&"a".repeat(4097)));
}

#[test]
fn long_reply_ids_are_refused() {
    let (directives, _) = parse_output_directives(&format!("[[reply_to:{}]]\nx", "1".repeat(64)));
    assert_eq!(directives.reply_to, Some("1".repeat(64)));
    let (directives, _) = parse_output_directives(&format!("[[reply_to:{}]]\nx", "1".repeat(65)));
    assert_eq!(directives.reply_to, None);
}

#[test]
fn stripped_text_has_no_directive_left() {
    let (_, content) =
        parse_output_directives("[[reply_to:1]]\n[[attach_image:a.png]]\nText\n[[attach_image:b.png]]\nEnd");
    assert_eq!(content, "Text\nEnd");
    let (directives, again) = parse_output_directives(&content);
    assert_eq!(again, content);
    assert_eq!(directives.reply_to, None);
    assert!(directives.attach_images.is_empty());
}
