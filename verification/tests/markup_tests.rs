use lisp_repl::markup::DiscordCode;

#[test]
fn extract_code_works() {
    // Any code works here, but I like the word 'blah'.
    assert_eq!("`blah`".strip_discord_code(), "blah");
    assert_eq!("`blah".strip_discord_code(), "blah");
    assert_eq!("blah`".strip_discord_code(), "blah");
    assert_eq!("```blah```".strip_discord_code(), "blah");
    assert_eq!("```blah".strip_discord_code(), "blah");
    assert_eq!("blah```".strip_discord_code(), "blah");
    assert_eq!("```lisp\nblah```".strip_discord_code(), "blah");
    assert_eq!("```lisp\nblah".strip_discord_code(), "blah");
    assert_eq!("lisp\nblah```".strip_discord_code(), "lisp\nblah");
}

#[test]
fn markup_round_trip() {
    assert_eq!("```lisp\nfoo".strip_discord_code(), "foo");
    assert_eq!("`foo`".strip_discord_code(), "foo");
    let wrapped = "foo".as_discord_code();
    assert_eq!(wrapped, "```lisp\nfoo\n```");
    assert_eq!(wrapped.strip_discord_code(), "foo");
}

#[test]
fn wrap_always_fences() {
    let wrapped = String::from("(+ 1 2)").as_discord_code();
    assert_eq!(wrapped, "```lisp\n(+ 1 2)\n```");
    let rewrapped = wrapped.as_discord_code();
    assert_eq!(rewrapped, "```lisp\n```lisp\n(+ 1 2)\n```\n```");
}

#[test]
fn plain_text_passes_through_trimmed() {
    assert_eq!("  blah  ".strip_discord_code(), "blah");
    assert_eq!("blah".strip_discord_code(), "blah");
    assert_eq!("".strip_discord_code(), "");
}
