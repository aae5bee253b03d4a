use hermes::audit::{audit_messages, audit_report, split_report, Channel, OverwriteKind};

fn channel(id: u64, name: &str, kind: u8, position: u16, parent: Option<u64>, overwrites: Vec<OverwriteKind>) -> Channel {
    Channel { id, name: name.to_string(), kind, position, parent_id: parent, overwrites }
}

fn sample() -> Vec<Channel> {
    vec![
        channel(1, "General", 4, 0, None, vec![]),
        channel(2, "Dev", 4, 1, None, vec![OverwriteKind::Role]),
        channel(3, "chat", 0, 1, Some(1), vec![]),
        channel(4, "Lounge", 2, 0, Some(1), vec![OverwriteKind::Member, OverwriteKind::Role]),
        channel(5, "Chat ", 0, 0, Some(2), vec![]),
        channel(6, "rules", 0, 0, None, vec![]),
        channel(7, "ideas", 15, 3, Some(99), vec![]),
    ]
}

#[test]
fn audit_report_of_a_small_guild() {
    let expected = "Hermes Watch server audit \u{2014} guild `42`\n\
Channels: 7 total\n\
Types: category=2, forum=1, text=3, voice=1\n\
Custom permission overwrites: 2 channels (2 role, 1 member)\n\
\nChannel layout:\n\
\u{1f4c1} General\n  \u{1f50a} Lounge [2 overwrites]\n  # chat\n\
\u{1f4c1} Dev\n  # Chat \n\
\u{1f4c2} Uncategorized\n  # rules\n  # ideas\n\
\nPotential overlaps:\n\
\u{26a0}\u{fe0f} `chat` \u{2192} General / #chat, Dev / #Chat \n\
\u{2139}\u{fe0f} Review channels marked with `[N overwrites]`; custom rules can create access overlap.\n\
\nNo messages, message content, or member lists were read.\n";
    assert_eq!(audit_report(42, &sample()), expected);
}

#[test]
fn audit_report_of_an_empty_guild() {
    let expected = "Hermes Watch server audit \u{2014} guild `7`\n\
Channels: 0 total\n\
Types: \n\
Custom permission overwrites: 0 channels (0 role, 0 member)\n\
\nChannel layout:\n\
\nPotential overlaps:\n\
\u{2705} No duplicate channel names detected.\n\
\u{2705} No channel-specific permission overwrites detected.\n\
\nNo messages, message content, or member lists were read.\n";
    assert_eq!(audit_report(7, &vec![]), expected);
}

#[test]
fn empty_category_and_unknown_kinds() {
    let channels = vec![
        channel(10, "b", 4, 2, None, vec![]),
        channel(11, "A", 4, 2, None, vec![]),
        channel(12, "x", 200, 0, Some(10), vec![]),
    ];
    let report = audit_report(1, &channels);
    assert!(report.contains("Types: category=2, unknown=1\n"));
    assert!(report.contains("\u{1f4c1} A\n  (empty)\n\u{1f4c1} b\n  # x\n"));
}

#[test]
fn split_report_fills_chunks_with_whole_lines() {
    assert_eq!(split_report("a\nbb\nccc", 4), vec!["a\nbb", "ccc"]);
    assert_eq!(split_report("x\nyyyyyy", 3), vec!["x", "yyyyyy"]);
    assert_eq!(split_report("", 10), Vec::<String>::new());
    assert_eq!(split_report("\na", 10), vec!["a"]);
    assert_eq!(split_report("a\r\nb\n", 10), vec!["a\nb"]);
    // byte lengths, not characters: "é" takes two bytes
    assert_eq!(split_report("é\né", 4), vec!["é", "é"]);
    assert_eq!(split_report("é\né", 5), vec!["é\né"]);
}

#[test]
fn audit_messages_wrap_each_chunk() {
    let line = "x".repeat(1000);
    let report = format!("{line}\n{line}\n");
    let messages = audit_messages(&report);
    assert_eq!(messages.len(), 2);
    assert_eq!(messages[0], format!("```text\n{line}\n```"));
    assert_eq!(messages[1], format!("Audit continued:\n```text\n{line}\n```"));
}
