use supramark_markdown::supramark::emoji::{emoji_shortcode, is_emoji_shortcode_name, replace_emoji_shortcodes};

#[test]
fn replaces_known_shortcodes() {
    assert_eq!(replace_emoji_shortcodes(":smile: hi"), "\u{1F604} hi");
    assert_eq!(replace_emoji_shortcodes(":smile::joy:"), "\u{1F604}\u{1F602}");
    assert_eq!(replace_emoji_shortcodes("I :heart: :coffee:"), "I \u{2764}\u{FE0F} \u{2615}");
}

#[test]
fn keeps_unknown_shortcodes_and_stray_colons() {
    assert_eq!(replace_emoji_shortcodes(":nope: x"), ":nope: x");
    assert_eq!(replace_emoji_shortcodes("a:b:c"), "a:b:c");
    assert_eq!(replace_emoji_shortcodes("time 10:30"), "time 10:30");
    assert_eq!(replace_emoji_shortcodes(":Smile:"), ":Smile:");
    assert_eq!(replace_emoji_shortcodes("x :tada"), "x :tada");
}

#[test]
fn a_colon_that_opens_nothing_lets_the_next_one_open() {
    assert_eq!(replace_emoji_shortcodes("::tea:"), ":\u{1F375}");
}

#[test]
fn replaces_nul_with_replacement_character() {
    assert_eq!(replace_emoji_shortcodes("a\0b"), "a\u{FFFD}b");
}

#[test]
fn plain_text_is_unchanged() {
    assert_eq!(replace_emoji_shortcodes("- \u{4E2D}\u{6587} list"), "- \u{4E2D}\u{6587} list");
}

#[test]
fn shortcode_names() {
    assert!(is_emoji_shortcode_name("smile"));
    assert!(is_emoji_shortcode_name("a_b-1"));
    assert!(!is_emoji_shortcode_name(""));
    assert!(!is_emoji_shortcode_name("Smile"));
    assert!(!is_emoji_shortcode_name("a b"));
    assert_eq!(emoji_shortcode("tea"), Some("\u{1F375}"));
    assert_eq!(emoji_shortcode("warning"), Some("\u{26A0}\u{FE0F}"));
    assert_eq!(emoji_shortcode("rocket"), Some("\u{1F680}"));
    assert_eq!(emoji_shortcode("wink"), Some("\u{1F609}"));
    assert_eq!(emoji_shortcode("unknown"), None);
}

#[test]
fn replacing_twice_is_replacing_once() {
    for s in [":smile: :joy: :wink:", "::smile::", ":x:smile:", "a\0:tea:b:unknown:", ":smile:smile:"] {
        let once = replace_emoji_shortcodes(s);
        assert_eq!(replace_emoji_shortcodes(&once), once);
        assert!(!once.contains('\0'));
    }
    assert_eq!(replace_emoji_shortcodes(":smile: :joy: :wink:"), "😄 😂 😉");
}
