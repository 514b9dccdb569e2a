use blocky::{
    ChatFormatting, ClickAction, ClickActionError, ClickEvent, ComponentContent, ParseError,
    Reader, ResourceLocation, ResourceLocationError, Style, TextColor, TextComponent,
    TranslatableComponent,
};

#[test]
fn reader_cursor() {
    let mut r = Reader::new("ab c");
    assert_eq!(r.len(), 4);
    assert_eq!(r.position(), 0);
    assert_eq!(r.remaining(), 4);
    assert!(r.has_remaining(4));
    assert!(!r.has_remaining(5));
    assert_eq!(r.peek(), Ok('a'));
    assert_eq!(r.peek_nth(1), Ok('b'));
    assert_eq!(r.peek_nth(9), Err(ParseError::Insufficient));
    assert_eq!(r.read(), Ok('a'));
    assert_eq!(r.read_nth(1), Ok(' '));
    assert_eq!(r.position(), 3);
    r.skip();
    assert!(r.done());
    r.skip();
    assert_eq!(r.position(), 4);
    assert_eq!(r.read(), Err(ParseError::Insufficient));
    r.set_position(1);
    assert_eq!(r.expect('b'), Ok(()));
    assert_eq!(r.expect('x'), Err(ParseError::Unexpected { expected: 'x', found: ' ' }));
}

#[test]
fn reader_strings() {
    let mut r = Reader::new("  abc_1.+-x!rest");
    assert_eq!(r.skip_whitespace(), Ok(()));
    assert_eq!(r.position(), 2);
    assert_eq!(r.read_unquoted_string().unwrap(), "abc_1.+-x");
    assert_eq!(r.peek(), Ok('!'));

    let mut r = Reader::new("'it\\'s \\\\ ok' tail");
    assert_eq!(r.read_quoted_string().unwrap(), "it's \\ ok");
    assert_eq!(r.peek(), Ok(' '));

    let mut r = Reader::new("x");
    assert_eq!(r.read_quoted_string(), Err(ParseError::InvalidQuote));

    let mut r = Reader::new("ab\\n");
    assert_eq!(r.read_string_until('"'), Err(ParseError::InvalidEscape));
    assert_eq!(r.position(), 3);

    let mut r = Reader::new("\"q\" w");
    assert_eq!(r.read_string().unwrap(), "q");
    let mut r = Reader::new("");
    assert_eq!(r.read_string().unwrap(), "");
    assert!(Reader::is_quote('\''));
    assert!(!Reader::is_quote('a'));
    assert!(Reader::is_allowed_in_unquoted_string('+'));
    assert!(!Reader::is_allowed_in_unquoted_string(' '));
}

#[test]
fn whitespace_is_unicode_white_space() {
    let mut r = Reader::new("\u{3000}\t\n x");
    r.skip_whitespace().unwrap();
    assert_eq!(r.peek(), Ok('x'));
}

#[test]
fn chat_formatting() {
    assert!(ChatFormatting::Red.is_color());
    assert!(!ChatFormatting::Bold.is_color());
    assert!(!ChatFormatting::Reset.is_color());
    assert!(ChatFormatting::Italic.is_format());
    assert_eq!(ChatFormatting::DarkBlue.name(), "dark_blue");
    assert_eq!(ChatFormatting::Gold.code(), '6');
    assert_eq!(ChatFormatting::Gold.color(), Some(16755200));
    assert_eq!(ChatFormatting::Bold.color(), None);
    assert_eq!(ChatFormatting::clean_name("Dark_Blue 2"), "darkblue");
    assert_eq!(ChatFormatting::get_by_name("DARK BLUE"), Some(ChatFormatting::DarkBlue));
    assert_eq!(ChatFormatting::get_by_name("reset"), Some(ChatFormatting::Reset));
    assert_eq!(ChatFormatting::get_by_name("nothing"), None);
    assert_eq!(ChatFormatting::get_by_name("bold"), None);
    assert_eq!(ChatFormatting::values().len(), 21);
}

#[test]
fn resource_locations() {
    let l = ResourceLocation::new("", "stone").unwrap();
    assert_eq!(l.namespace(), "minecraft");
    assert_eq!(l.path(), "stone");
    let l = ResourceLocation::new("mod", "a/b.c").unwrap();
    assert_eq!(l.namespace(), "mod");
    assert_eq!(l.path(), "a/b.c");
    assert_eq!(ResourceLocation::new("Mod", "x").unwrap_err(), ResourceLocationError::InvalidNamespace);
    assert_eq!(ResourceLocation::new("mod", "").unwrap_err(), ResourceLocationError::InvalidPath);
    assert_eq!(ResourceLocation::new("mod", "a b").unwrap_err(), ResourceLocationError::InvalidPath);
}

#[test]
fn click_events() {
    assert_eq!(ClickAction::OpenUrl.name(), "open_url");
    assert!(!ClickAction::OpenFile.is_allowed_from_server());
    assert!(ClickAction::RunCommand.is_allowed_from_server());
    assert_eq!(ClickAction::parse("change_page"), Ok(ClickAction::ChangePage));
    assert_eq!(ClickAction::parse("nope"), Err(ClickActionError::Invalid("nope".to_string())));
    let e = ClickEvent::new(ClickAction::OpenUrl, "this is a test!");
    assert_eq!(e.action(), &ClickAction::OpenUrl);
    assert_eq!(e.value(), "this is a test!");
}

#[test]
fn text_colors() {
    assert_eq!(TextColor::from_color(0xff).format_value(), "#0000FF");
    assert_eq!(TextColor::from_color(0x1234567).format_value(), "#1234567");
    assert_eq!(TextColor::parse("#ff00aa"), Some(TextColor::from_color(0xff00aa)));
    assert_eq!(TextColor::parse("#+10"), Some(TextColor::from_color(16)));
    assert_eq!(TextColor::parse("#"), None);
    assert_eq!(TextColor::parse("#xyz"), None);
    assert_eq!(TextColor::parse("#100000000"), None);
    assert_eq!(TextColor::parse("red"), Some(TextColor::new(16733525, Some("red".to_string()))));
    assert_eq!(TextColor::parse("bold"), None);
}

#[test]
fn components() {
    let mut c = TextComponent::new("this is a test!");
    assert!(c.style().is_empty());
    c.style_mut().bold = Some(true);
    assert!(!c.style().is_empty());
    assert_eq!(c.text(), "this is a test!");
    c.set_text("other");
    assert_eq!(c.contents(), "other");
    c.text_mut().push('!');
    assert_eq!(c.text(), "other!");

    let mut t = TranslatableComponent::new_with_empty_args("chat.type.text");
    assert_eq!(t.key(), "chat.type.text");
    t.set_key("k");
    t.key_mut().push('2');
    assert_eq!(t.key(), "k2");
    assert_eq!(t.contents(), "");
    assert!(Style::default().is_empty());
}

#[test]
fn text_forms() {
    assert_eq!(ChatFormatting::Gold.to_text(), "\u{a7}6");
    assert_eq!(ChatFormatting::Reset.to_text(), "\u{a7}r");
    assert_eq!(ResourceLocation::new("", "stone").unwrap().to_text(), "minecraft:stone");
    assert_eq!(TextColor::parse("red").unwrap().to_text(), "red");
    assert_eq!(TextColor::from_color(0xabc).to_text(), "#000ABC");
}
