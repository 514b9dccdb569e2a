use vstd::prelude::*;

verus! {

/// A formatting code of chat text: one of sixteen colours, a style, or reset.
#[derive(Debug, Clone, Copy, PartialEq, Eq, Structural)]
pub enum ChatFormatting {
    Black,
    DarkBlue,
    DarkGreen,
    DarkAqua,
    DarkRed,
    DarkPurple,
    Gold,
    Gray,
    DarkGray,
    Blue,
    Green,
    Aqua,
    Red,
    LightPurple,
    Yellow,
    White,
    Obfuscated,
    Bold,
    Strikethrough,
    Underline,
    Italic,
    Reset,
}

/// What a string's lowercase form is, character by character as Unicode
/// defines it.
pub uninterp spec fn lower_of(s: Seq<char>) -> Seq<char>;

/// Relies on `str::to_lowercase`, whose result depends on the text alone.
#[verifier::external_body]
fn to_lowercase(s: &str) -> (r: String)
    ensures
        r@ == lower_of(s@),
{
    s.to_lowercase()
}

/// The letters `a` to `z` of `s`, in order.
pub open spec fn letters(s: Seq<char>) -> Seq<char>
    decreases s.len(),
{
    if s.len() == 0 {
        Seq::empty()
    } else {
        letters(s.drop_last()) + if 'a' <= s.last() && s.last() <= 'z' {
            seq![s.last()]
        } else {
            Seq::empty()
        }
    }
}

pub open spec fn spec_name(f: ChatFormatting) -> Seq<char> {
    match f {
        ChatFormatting::Black => "black"@,
        ChatFormatting::DarkBlue => "dark_blue"@,
        ChatFormatting::DarkGreen => "dark_green"@,
        ChatFormatting::DarkAqua => "dark_aqua"@,
        ChatFormatting::DarkRed => "dark_red"@,
        ChatFormatting::DarkPurple => "dark_purple"@,
        ChatFormatting::Gold => "gold"@,
        ChatFormatting::Gray => "gray"@,
        ChatFormatting::DarkGray => "dark_gray"@,
        ChatFormatting::Blue => "blue"@,
        ChatFormatting::Green => "green"@,
        ChatFormatting::Aqua => "aqua"@,
        ChatFormatting::Red => "red"@,
        ChatFormatting::LightPurple => "light_purple"@,
        ChatFormatting::Yellow => "yellow"@,
        ChatFormatting::White => "white"@,
        ChatFormatting::Obfuscated => "obfuscated"@,
        ChatFormatting::Bold => "bold"@,
        ChatFormatting::Strikethrough => "strikethrough"@,
        ChatFormatting::Underline => "underline"@,
        ChatFormatting::Italic => "italic"@,
        ChatFormatting::Reset => "reset"@,
    }
}

pub open spec fn spec_code(f: ChatFormatting) -> char {
    match f {
        ChatFormatting::Black => '0',
        ChatFormatting::DarkBlue => '1',
        ChatFormatting::DarkGreen => '2',
        ChatFormatting::DarkAqua => '3',
        ChatFormatting::DarkRed => '4',
        ChatFormatting::DarkPurple => '5',
        ChatFormatting::Gold => '6',
        ChatFormatting::Gray => '7',
        ChatFormatting::DarkGray => '8',
        ChatFormatting::Blue => '9',
        ChatFormatting::Green => 'a',
        ChatFormatting::Aqua => 'b',
        ChatFormatting::Red => 'c',
        ChatFormatting::LightPurple => 'd',
        ChatFormatting::Yellow => 'e',
        ChatFormatting::White => 'f',
        ChatFormatting::Obfuscated => 'k',
        ChatFormatting::Bold => 'l',
        ChatFormatting::Strikethrough => 'm',
        ChatFormatting::Underline => 'n',
        ChatFormatting::Italic => 'o',
        ChatFormatting::Reset => 'r',
    }
}

pub open spec fn spec_is_format(f: ChatFormatting) -> bool {
    matches!(f, ChatFormatting::Obfuscated | ChatFormatting::Bold | ChatFormatting::Strikethrough
        | ChatFormatting::Underline | ChatFormatting::Italic)
}

pub open spec fn spec_color(f: ChatFormatting) -> Option<u32> {
    match f {
        ChatFormatting::Black => Some(0),
        ChatFormatting::DarkBlue => Some(170),
        ChatFormatting::DarkGreen => Some(43520),
        ChatFormatting::DarkAqua => Some(43690),
        ChatFormatting::DarkRed => Some(11141120),
        ChatFormatting::DarkPurple => Some(11141290),
        ChatFormatting::Gold => Some(16755200),
        ChatFormatting::Gray => Some(11184810),
        ChatFormatting::DarkGray => Some(5592405),
        ChatFormatting::Blue => Some(5592575),
        ChatFormatting::Green => Some(5635925),
        ChatFormatting::Aqua => Some(5636095),
        ChatFormatting::Red => Some(16733525),
        ChatFormatting::LightPurple => Some(16733695),
        ChatFormatting::Yellow => Some(16777045),
        ChatFormatting::White => Some(16777215),
        _ => None,
    }
}

/// The formattings that lookup by name knows, in order; `Bold` is not
/// among them.
pub open spec fn spec_values() -> Seq<ChatFormatting> {
    seq![
        ChatFormatting::Black,
        ChatFormatting::DarkBlue,
        ChatFormatting::DarkGreen,
        ChatFormatting::DarkAqua,
        ChatFormatting::DarkRed,
        ChatFormatting::DarkPurple,
        ChatFormatting::Gold,
        ChatFormatting::Gray,
        ChatFormatting::DarkGray,
        ChatFormatting::Blue,
        ChatFormatting::Green,
        ChatFormatting::Aqua,
        ChatFormatting::Red,
        ChatFormatting::LightPurple,
        ChatFormatting::Yellow,
        ChatFormatting::White,
        ChatFormatting::Obfuscated,
        ChatFormatting::Strikethrough,
        ChatFormatting::Underline,
        ChatFormatting::Italic,
        ChatFormatting::Reset,
    ]
}

/// Keeps the letters `a` to `z` of `s`.
pub fn letters_only(s: &str) -> (r: String)
    ensures
        r@ == letters(s@),
{
    let mut r = String::new();
    for c in it: s.chars()
        invariant
            it.seq() == s@,
            r@ == letters(s@.take(it.index() as int)),
    {
        proof {
            let i = it.index() as int;
            assert(s@.take(i + 1).drop_last() =~= s@.take(i));
        }
        if c >= 'a' && c <= 'z' {
            crate::reader::push_char(&mut r, c);
        }
    }
    assert(s@.take(s@.len() as int) =~= s@);
    r
}

impl ChatFormatting {
    pub fn values() -> (r: Vec<ChatFormatting>)
        ensures
            r@ == spec_values(),
    {
        let r = vec![
            ChatFormatting::Black,
            ChatFormatting::DarkBlue,
            ChatFormatting::DarkGreen,
            ChatFormatting::DarkAqua,
            ChatFormatting::DarkRed,
            ChatFormatting::DarkPurple,
            ChatFormatting::Gold,
            ChatFormatting::Gray,
            ChatFormatting::DarkGray,
            ChatFormatting::Blue,
            ChatFormatting::Green,
            ChatFormatting::Aqua,
            ChatFormatting::Red,
            ChatFormatting::LightPurple,
            ChatFormatting::Yellow,
            ChatFormatting::White,
            ChatFormatting::Obfuscated,
            ChatFormatting::Strikethrough,
            ChatFormatting::Underline,
            ChatFormatting::Italic,
            ChatFormatting::Reset,
        ];
        assert(r@ =~= spec_values());
        r
    }

    /// A colour is neither a style nor reset.
    pub fn is_color(&self) -> (r: bool)
        ensures
            r == (!spec_is_format(*self) && *self != ChatFormatting::Reset),
    {
        !self.is_format() && *self != ChatFormatting::Reset
    }

    pub fn is_format(&self) -> (r: bool)
        ensures
            r == spec_is_format(*self),
    {
        match self {
            ChatFormatting::Obfuscated | ChatFormatting::Bold | ChatFormatting::Strikethrough
            | ChatFormatting::Underline | ChatFormatting::Italic => true,
            _ => false,
        }
    }

    pub fn name(&self) -> (r: &'static str)
        ensures
            r@ == spec_name(*self),
    {
        match self {
            ChatFormatting::Black => "black",
            ChatFormatting::DarkBlue => "dark_blue",
            ChatFormatting::DarkGreen => "dark_green",
            ChatFormatting::DarkAqua => "dark_aqua",
            ChatFormatting::DarkRed => "dark_red",
            ChatFormatting::DarkPurple => "dark_purple",
            ChatFormatting::Gold => "gold",
            ChatFormatting::Gray => "gray",
            ChatFormatting::DarkGray => "dark_gray",
            ChatFormatting::Blue => "blue",
            ChatFormatting::Green => "green",
            ChatFormatting::Aqua => "aqua",
            ChatFormatting::Red => "red",
            ChatFormatting::LightPurple => "light_purple",
            ChatFormatting::Yellow => "yellow",
            ChatFormatting::White => "white",
            ChatFormatting::Obfuscated => "obfuscated",
            ChatFormatting::Bold => "bold",
            ChatFormatting::Strikethrough => "strikethrough",
            ChatFormatting::Underline => "underline",
            ChatFormatting::Italic => "italic",
            ChatFormatting::Reset => "reset",
        }
    }

    /// The character that follows the section sign in a formatting code.
    pub fn code(&self) -> (r: char)
        ensures
            r == spec_code(*self),
    {
        match self {
            ChatFormatting::Black => '0',
            ChatFormatting::DarkBlue => '1',
            ChatFormatting::DarkGreen => '2',
            ChatFormatting::DarkAqua => '3',
            ChatFormatting::DarkRed => '4',
            ChatFormatting::DarkPurple => '5',
            ChatFormatting::Gold => '6',
            ChatFormatting::Gray => '7',
            ChatFormatting::DarkGray => '8',
            ChatFormatting::Blue => '9',
            ChatFormatting::Green => 'a',
            ChatFormatting::Aqua => 'b',
            ChatFormatting::Red => 'c',
            ChatFormatting::LightPurple => 'd',
            ChatFormatting::Yellow => 'e',
            ChatFormatting::White => 'f',
            ChatFormatting::Obfuscated => 'k',
            ChatFormatting::Bold => 'l',
            ChatFormatting::Strikethrough => 'm',
            ChatFormatting::Underline => 'n',
            ChatFormatting::Italic => 'o',
            ChatFormatting::Reset => 'r',
        }
    }

    /// The formatting code as it stands in text: the section sign and the
    /// code character.
    pub fn to_text(&self) -> (r: String)
        ensures
            r@ == seq!['\u{a7}', spec_code(*self)],
    {
        let mut r = String::new();
        crate::reader::push_char(&mut r, '\u{a7}');
        crate::reader::push_char(&mut r, self.code());
        assert(r@ =~= seq!['\u{a7}', spec_code(*self)]);
        r
    }

    /// The RGB value of a colour; styles and reset have none.
    pub fn color(&self) -> (r: Option<u32>)
        ensures
            r == spec_color(*self),
    {
        match self {
            ChatFormatting::Black => Some(0),
            ChatFormatting::DarkBlue => Some(170),
            ChatFormatting::DarkGreen => Some(43520),
            ChatFormatting::DarkAqua => Some(43690),
            ChatFormatting::DarkRed => Some(11141120),
            ChatFormatting::DarkPurple => Some(11141290),
            ChatFormatting::Gold => Some(16755200),
            ChatFormatting::Gray => Some(11184810),
            ChatFormatting::DarkGray => Some(5592405),
            ChatFormatting::Blue => Some(5592575),
            ChatFormatting::Green => Some(5635925),
            ChatFormatting::Aqua => Some(5636095),
            ChatFormatting::Red => Some(16733525),
            ChatFormatting::LightPurple => Some(16733695),
            ChatFormatting::Yellow => Some(16777045),
            ChatFormatting::White => Some(16777215),
            _ => None,
        }
    }

    /// A name reduced for lookup: lowercased, with everything but `a` to `z`
    /// removed.
    pub fn clean_name(name: &str) -> (r: String)
        ensures
            r@ == letters(lower_of(name@)),
    {
        let lower = to_lowercase(name);
        letters_only(lower.as_str())
    }

    /// The first formatting among `values` whose reduced name is `cleaned`.
    pub fn find_clean(cleaned: &str) -> (r: Option<ChatFormatting>)
        ensures
            match r {
                Some(f) => exists|i: int|
                    0 <= i < spec_values().len() && spec_values()[i] == f && letters(
                        spec_name(f),
                    ) == cleaned@,
                None => forall|i: int|
                    0 <= i < spec_values().len() ==> letters(spec_name(#[trigger] spec_values()[i]))
                        != cleaned@,
            },
    {
        let values = ChatFormatting::values();
        let mut i: usize = 0;
        while i < values.len()
            invariant
                i <= values@.len(),
                values@ == spec_values(),
                forall|j: int| 0 <= j < i ==> letters(spec_name(#[trigger] spec_values()[j])) != cleaned@,
            decreases values@.len() - i,
        {
            let f = values[i];
            let n = letters_only(f.name());
            if n == String::from_str(cleaned) {
                return Some(f);
            }
            i += 1;
        }
        None
    }

    /// Looks a formatting up by name, ignoring case and anything but letters.
    pub fn get_by_name(s: &str) -> (r: Option<ChatFormatting>)
        ensures
            match r {
                Some(f) => exists|i: int|
                    0 <= i < spec_values().len() && spec_values()[i] == f && letters(
                        spec_name(f),
                    ) == letters(lower_of(s@)),
                None => forall|i: int|
                    0 <= i < spec_values().len() ==> letters(spec_name(#[trigger] spec_values()[i]))
                        != letters(lower_of(s@)),
            },
    {
        let cleaned = ChatFormatting::clean_name(s);
        ChatFormatting::find_clean(cleaned.as_str())
    }
}

} // verus!
