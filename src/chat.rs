use vstd::prelude::*;
use crate::formatting::{ChatFormatting, spec_color, spec_is_format, spec_name};
use crate::location::ResourceLocation;
use crate::reader::{chars_of, push_char};

verus! {

#[derive(Debug, Clone, PartialEq)]
pub enum ClickActionError {
    Invalid(String),
}

/// What clicking a piece of chat text does.
#[derive(Debug, Clone, Copy, PartialEq, Eq, Structural)]
pub enum ClickAction {
    OpenUrl,
    OpenFile,
    RunCommand,
    SuggestCommand,
    ChangePage,
    CopyToClipboard,
}

pub open spec fn action_name(a: ClickAction) -> Seq<char> {
    match a {
        ClickAction::OpenUrl => "open_url"@,
        ClickAction::OpenFile => "open_file"@,
        ClickAction::RunCommand => "run_command"@,
        ClickAction::SuggestCommand => "suggest_command"@,
        ClickAction::ChangePage => "change_page"@,
        ClickAction::CopyToClipboard => "copy_to_clipboard"@,
    }
}

impl ClickAction {
    pub fn name(&self) -> (r: &'static str)
        ensures
            r@ == action_name(*self),
    {
        match self {
            ClickAction::OpenUrl => "open_url",
            ClickAction::OpenFile => "open_file",
            ClickAction::RunCommand => "run_command",
            ClickAction::SuggestCommand => "suggest_command",
            ClickAction::ChangePage => "change_page",
            ClickAction::CopyToClipboard => "copy_to_clipboard",
        }
    }

    /// Every action but opening a file may come from a server.
    pub fn is_allowed_from_server(&self) -> (r: bool)
        ensures
            r == (*self != ClickAction::OpenFile),
    {
        match self {
            ClickAction::OpenFile => false,
            _ => true,
        }
    }

    /// The action with this name.
    pub fn parse(s: &str) -> (r: Result<ClickAction, ClickActionError>)
        ensures
            match r {
                Ok(a) => action_name(a) == s@,
                Err(ClickActionError::Invalid(t)) => t@ == s@ && forall|a: ClickAction|
                    action_name(a) != s@,
            },
    {
        let all = [
            ClickAction::OpenUrl,
            ClickAction::OpenFile,
            ClickAction::RunCommand,
            ClickAction::SuggestCommand,
            ClickAction::ChangePage,
            ClickAction::CopyToClipboard,
        ];
        let given = String::from_str(s);
        let mut i: usize = 0;
        while i < 6
            invariant
                i <= 6,
                given@ == s@,
                all@ == seq![
                    ClickAction::OpenUrl,
                    ClickAction::OpenFile,
                    ClickAction::RunCommand,
                    ClickAction::SuggestCommand,
                    ClickAction::ChangePage,
                    ClickAction::CopyToClipboard,
                ],
                forall|j: int| 0 <= j < i ==> action_name(#[trigger] all@[j]) != s@,
            decreases 6 - i,
        {
            let a = all[i];
            if String::from_str(a.name()) == given {
                return Ok(a);
            }
            i += 1;
        }
        proof {
            assert forall|a: ClickAction| action_name(a) != s@ by {
                match a {
                    ClickAction::OpenUrl => assert(all@[0] == a),
                    ClickAction::OpenFile => assert(all@[1] == a),
                    ClickAction::RunCommand => assert(all@[2] == a),
                    ClickAction::SuggestCommand => assert(all@[3] == a),
                    ClickAction::ChangePage => assert(all@[4] == a),
                    ClickAction::CopyToClipboard => assert(all@[5] == a),
                }
            }
        }
        Err(ClickActionError::Invalid(given))
    }
}

#[derive(Debug, Clone, Copy, PartialEq, Eq, Structural)]
pub enum ClickEventError {
    Parse,
}

/// An action and its argument, attached to chat text.
#[derive(Debug, Clone, PartialEq)]
pub struct ClickEvent {
    action: ClickAction,
    value: String,
}

impl ClickEvent {
    pub closed spec fn spec_action(&self) -> ClickAction {
        self.action
    }

    pub closed spec fn spec_value(&self) -> Seq<char> {
        self.value@
    }

    pub fn new(action: ClickAction, value: &str) -> (r: ClickEvent)
        ensures
            r.spec_action() == action,
            r.spec_value() == value@,
    {
        ClickEvent { action, value: String::from_str(value) }
    }

    pub fn action(&self) -> (r: &ClickAction)
        ensures
            *r == self.spec_action(),
    {
        &self.action
    }

    pub fn value(&self) -> (r: &str)
        ensures
            r@ == self.spec_value(),
    {
        self.value.as_str()
    }
}

#[derive(Debug, Clone, Copy, PartialEq, Eq, Structural)]
pub enum ComponentError {
    Parse,
}

/// The plain text that a component contributes.
pub trait ComponentContent {
    fn contents(&self) -> &str;
}

#[derive(Debug, Clone, PartialEq)]
pub enum StyleError {
    InvalidType(String),
    InvalidColor(String),
    Parse,
}

/// Upper-case hexadecimal digits of `n`.
pub open spec fn hex_text(n: nat) -> Seq<char>
    decreases n,
{
    if n < 16 {
        seq![hex_char(n)]
    } else {
        hex_text(n / 16).push(hex_char(n % 16))
    }
}

pub open spec fn hex_char(d: nat) -> char {
    if d < 10 {
        ((d + 48) as u8) as char
    } else {
        ((d + 55) as u8) as char
    }
}

/// `s` with zeros in front up to six characters.
pub open spec fn pad6(s: Seq<char>) -> Seq<char> {
    if s.len() >= 6 {
        s
    } else {
        Seq::new((6 - s.len()) as nat, |i: int| '0') + s
    }
}

/// The value of a hexadecimal digit of either case.
pub open spec fn hex_digit_value(c: char) -> Option<nat> {
    if '0' <= c && c <= '9' {
        Some(((c as u32) - 48) as nat)
    } else if 'a' <= c && c <= 'f' {
        Some(((c as u32) - 87) as nat)
    } else if 'A' <= c && c <= 'F' {
        Some(((c as u32) - 55) as nat)
    } else {
        None
    }
}

/// The value of a string of hexadecimal digits, if every character is one.
pub open spec fn hex_value(s: Seq<char>) -> Option<nat>
    decreases s.len(),
{
    if s.len() == 0 {
        Some(0)
    } else {
        match (hex_value(s.drop_last()), hex_digit_value(s.last())) {
            (Some(v), Some(d)) => Some(v * 16 + d),
            _ => None,
        }
    }
}

/// What `u32::from_str_radix(s, 16)` accepts: an optional `+`, then at least
/// one hexadecimal digit, with a value that fits.
pub open spec fn parse_hex_u32(s: Seq<char>) -> Option<u32> {
    let t = if s.len() > 0 && s[0] == '+' {
        s.drop_first()
    } else {
        s
    };
    if t.len() == 0 {
        None
    } else {
        match hex_value(t) {
            Some(v) => if v <= 0xffff_ffff {
                Some(v as u32)
            } else {
                None
            },
            None => None,
        }
    }
}

/// A colour of chat text: an RGB value, and the name of a formatting colour
/// when it is one.
#[derive(Debug, Clone, PartialEq)]
pub struct TextColor {
    value: u32,
    name: Option<String>,
}

fn push_hex(out: &mut String, n: u32)
    ensures
        final(out)@ == old(out)@ + hex_text(n as nat),
    decreases n,
{
    if n >= 16 {
        push_hex(out, n / 16);
    }
    let d = n % 16;
    let c = if d < 10 {
        ((d + 48) as u8) as char
    } else {
        ((d + 55) as u8) as char
    };
    push_char(out, c);
    assert(final(out)@ =~= old(out)@ + hex_text(n as nat));
}

fn hex_len(n: u32) -> (r: usize)
    ensures
        r == hex_text(n as nat).len(),
        r <= 8,
    decreases n,
{
    if n >= 16 {
        let k = hex_len(n / 16);
        proof {
            reveal_with_fuel(p16, 8);
            assert(p16(7) == 0x1000_0000);
            lemma_hex_len_bound((n / 16) as nat, 7);
        }
        k + 1
    } else {
        1
    }
}

pub open spec fn p16(k: nat) -> nat
    decreases k,
{
    if k == 0 {
        1
    } else {
        16 * p16((k - 1) as nat)
    }
}

proof fn lemma_hex_len_bound(n: nat, k: nat)
    requires
        k >= 1,
        n < p16(k),
    ensures
        hex_text(n).len() <= k,
    decreases n,
{
    if n >= 16 {
        assert(n / 16 < p16((k - 1) as nat)) by (nonlinear_arith)
            requires n < p16(k), p16(k) == 16 * p16((k - 1) as nat), n >= 16;
        if k == 1 {
            assert(p16(0) == 1);
        }
        lemma_hex_len_bound(n / 16, (k - 1) as nat);
    }
}

proof fn lemma_hex_prefix(s: Seq<char>, n: int)
    requires
        0 <= n <= s.len(),
    ensures
        hex_value(s.subrange(0, n)) is None ==> hex_value(s) is None,
        hex_value(s) matches Some(b) ==> hex_value(s.subrange(0, n)) matches Some(a) && a <= b,
    decreases s.len(),
{
    if n < s.len() {
        assert(s.drop_last().subrange(0, n) =~= s.subrange(0, n));
        lemma_hex_prefix(s.drop_last(), n);
    } else {
        assert(s.subrange(0, n) =~= s);
    }
}

fn hex_digit(c: char) -> (r: Option<u32>)
    ensures
        match hex_digit_value(c) {
            Some(d) => r == Some(d as u32) && d < 16,
            None => r is None,
        },
{
    if c >= '0' && c <= '9' {
        Some(c as u32 - 48)
    } else if c >= 'a' && c <= 'f' {
        Some(c as u32 - 87)
    } else if c >= 'A' && c <= 'F' {
        Some(c as u32 - 55)
    } else {
        None
    }
}

/// `u32::from_str_radix(t[from..], 16)`.
fn parse_hex_from(t: &Vec<char>, from: usize) -> (r: Option<u32>)
    requires
        from <= t@.len(),
    ensures
        r == parse_hex_u32(t@.subrange(from as int, t@.len() as int)),
{
    let ghost s = t@.subrange(from as int, t@.len() as int);
    let mut i = from;
    if i < t.len() && t[i] == '+' {
        i += 1;
    }
    let ghost u = t@.subrange(i as int, t@.len() as int);
    assert(u =~= if s.len() > 0 && s[0] == '+' {
        s.drop_first()
    } else {
        s
    });
    if i == t.len() {
        return None;
    }
    let start = i;
    let mut acc: u64 = 0;
    while i < t.len()
        invariant
            start <= i <= t@.len(),
            u == t@.subrange(start as int, t@.len() as int),
            s == t@.subrange(from as int, t@.len() as int),
            u == if s.len() > 0 && s[0] == '+' {
                s.drop_first()
            } else {
                s
            },
            u.len() > 0,
            hex_value(t@.subrange(start as int, i as int)) == Some(acc as nat),
            acc <= 0xffff_ffff,
        decreases t@.len() - i,
    {
        assert(u[i - start] == t@[i as int]);
        assert(u.subrange(0, i + 1 - start) =~= t@.subrange(start as int, i + 1));
        assert(t@.subrange(start as int, i + 1).drop_last() =~= t@.subrange(start as int, i as int));
        match hex_digit(t[i]) {
            None => {
                proof {
                    lemma_hex_prefix(u, i + 1 - start);
                }
                return None;
            },
            Some(d) => {
                let next = acc * 16 + d as u64;
                if next > 0xffff_ffff {
                    proof {
                        lemma_hex_prefix(u, i + 1 - start);
                    }
                    return None;
                }
                acc = next;
            },
        }
        i += 1;
    }
    assert(t@.subrange(start as int, i as int) =~= u);
    Some(acc as u32)
}

impl TextColor {
    pub closed spec fn spec_value(&self) -> u32 {
        self.value
    }

    pub closed spec fn spec_name(&self) -> Option<Seq<char>> {
        match self.name {
            Some(n) => Some(n@),
            None => None,
        }
    }

    pub fn new(value: u32, name: Option<String>) -> (r: TextColor)
        ensures
            r.spec_value() == value,
            r.spec_name() == match name {
                Some(n) => Some(n@),
                None => None::<Seq<char>>,
            },
    {
        TextColor { value, name }
    }

    pub fn from_color(value: u32) -> (r: TextColor)
        ensures
            r.spec_value() == value,
            r.spec_name() is None,
    {
        TextColor::new(value, None)
    }

    /// Reads `#` and a hexadecimal value, or the name of a formatting colour.
    pub fn parse(s: &str) -> (r: Option<TextColor>)
        ensures
            s@.len() > 0 && s@[0] == '#' ==> match parse_hex_u32(s@.drop_first()) {
                Some(v) => r matches Some(c) && c.spec_value() == v && c.spec_name() is None,
                None => r is None,
            },
            !(s@.len() > 0 && s@[0] == '#') ==> match r {
                Some(c) => exists|f: ChatFormatting|
                    !spec_is_format(f) && f != ChatFormatting::Reset && spec_name(f) == s@
                        && spec_color(f) == Some(c.spec_value()) && c.spec_name() == Some(s@),
                None => forall|f: ChatFormatting|
                    !spec_is_format(f) && f != ChatFormatting::Reset ==> spec_name(f) != s@,
            },
    {
        let t = chars_of(s);
        if t.len() > 0 && t[0] == '#' {
            assert(t@.subrange(1, t@.len() as int) =~= s@.drop_first());
            return match parse_hex_from(&t, 1) {
                Some(v) => Some(TextColor::from_color(v)),
                None => None,
            };
        }
        let values = ChatFormatting::values();
        let given = String::from_str(s);
        let mut i: usize = 0;
        while i < values.len()
            invariant
                i <= values@.len(),
                values@ == crate::formatting::spec_values(),
                given@ == s@,
                !(s@.len() > 0 && s@[0] == '#'),
                forall|j: int|
                    0 <= j < i && !spec_is_format(#[trigger] values@[j]) && values@[j]
                        != ChatFormatting::Reset ==> spec_name(values@[j]) != s@,
            decreases values@.len() - i,
        {
            let f = values[i];
            if f.is_color() && String::from_str(f.name()) == given {
                match f.color() {
                    Some(v) => {
                        return Some(TextColor::new(v, Some(given)));
                    },
                    None => {},
                }
            }
            i += 1;
        }
        proof {
            assert forall|f: ChatFormatting|
                !spec_is_format(f) && f != ChatFormatting::Reset implies spec_name(f) != s@ by {
                let k: int = match f {
                    ChatFormatting::Black => 0,
                    ChatFormatting::DarkBlue => 1,
                    ChatFormatting::DarkGreen => 2,
                    ChatFormatting::DarkAqua => 3,
                    ChatFormatting::DarkRed => 4,
                    ChatFormatting::DarkPurple => 5,
                    ChatFormatting::Gold => 6,
                    ChatFormatting::Gray => 7,
                    ChatFormatting::DarkGray => 8,
                    ChatFormatting::Blue => 9,
                    ChatFormatting::Green => 10,
                    ChatFormatting::Aqua => 11,
                    ChatFormatting::Red => 12,
                    ChatFormatting::LightPurple => 13,
                    ChatFormatting::Yellow => 14,
                    ChatFormatting::White => 15,
                    _ => 20,
                };
                assert(values@[k] == f);
            }
        }
        None
    }

    /// The colour's name when it has one, else its `format_value`.
    pub fn to_text(&self) -> (r: String)
        ensures
            match self.spec_name() {
                Some(n) => r@ == n,
                None => r@ == seq!['#'] + pad6(hex_text(self.spec_value() as nat)),
            },
    {
        match &self.name {
            Some(n) => n.clone(),
            None => self.format_value(),
        }
    }

    /// `#` and the value in upper-case hexadecimal, at least six digits.
    pub fn format_value(&self) -> (r: String)
        ensures
            r@ == seq!['#'] + pad6(hex_text(self.spec_value() as nat)),
    {
        let mut out = String::new();
        push_char(&mut out, '#');
        let n = hex_len(self.value);
        let mut k = n;
        while k < 6
            invariant
                n <= k,
                k <= 6 || k == n,
                out@ == seq!['#'] + Seq::new((k - n) as nat, |i: int| '0'),
            decreases 6 - k,
        {
            push_char(&mut out, '0');
            k += 1;
            assert(out@ =~= seq!['#'] + Seq::new((k - n) as nat, |i: int| '0'));
        }
        push_hex(&mut out, self.value);
        assert(out@ =~= seq!['#'] + pad6(hex_text(self.spec_value() as nat)));
        out
    }
}


/// How a piece of chat text looks; every attribute may be left unset.
#[derive(Debug, Clone, PartialEq)]
pub struct Style {
    pub color: Option<TextColor>,
    pub bold: Option<bool>,
    pub italic: Option<bool>,
    pub underlined: Option<bool>,
    pub strikethrough: Option<bool>,
    pub obfuscated: Option<bool>,
    pub click_event: Option<ClickEvent>,
    pub insertion: Option<String>,
    pub font: Option<ResourceLocation>,
}

impl Style {
    pub open spec fn spec_is_empty(&self) -> bool {
        &&& self.color is None
        &&& self.bold is None
        &&& self.italic is None
        &&& self.underlined is None
        &&& self.strikethrough is None
        &&& self.obfuscated is None
        &&& self.click_event is None
        &&& self.insertion is None
        &&& self.font is None
    }

    /// No attribute is set.
    pub fn is_empty(&self) -> (r: bool)
        ensures
            r == self.spec_is_empty(),
    {
        self.color.is_none() && self.bold.is_none() && self.italic.is_none()
            && self.underlined.is_none() && self.strikethrough.is_none()
            && self.obfuscated.is_none() && self.click_event.is_none()
            && self.insertion.is_none() && self.font.is_none()
    }
}

impl Default for Style {
    fn default() -> (r: Style)
        ensures
            r.spec_is_empty(),
    {
        Style {
            color: None,
            bold: None,
            italic: None,
            underlined: None,
            strikethrough: None,
            obfuscated: None,
            click_event: None,
            insertion: None,
            font: None,
        }
    }
}

/// A component that shows a literal text.
#[derive(Debug, Clone, PartialEq)]
pub struct TextComponent {
    style: Style,
    text: String,
}

impl TextComponent {
    pub closed spec fn spec_text(&self) -> Seq<char> {
        self.text@
    }

    pub closed spec fn spec_style(&self) -> Style {
        self.style
    }

    pub fn style(&self) -> (r: &Style)
        ensures
            *r == self.spec_style(),
    {
        &self.style
    }

    pub fn style_mut(&mut self) -> (r: &mut Style)
        ensures
            *r == old(self).spec_style(),
            final(self).spec_style() == *final(r),
            final(self).spec_text() == old(self).spec_text(),
    {
        &mut self.style
    }

    pub fn new(text: &str) -> (r: TextComponent)
        ensures
            r.spec_text() == text@,
            r.spec_style().spec_is_empty(),
    {
        TextComponent { style: Style::default(), text: String::from_str(text) }
    }

    pub fn text(&self) -> (r: &String)
        ensures
            r@ == self.spec_text(),
    {
        &self.text
    }

    pub fn text_mut(&mut self) -> (r: &mut String)
        ensures
            r@ == old(self).spec_text(),
            final(self).spec_text() == final(r)@,
            final(self).spec_style() == old(self).spec_style(),
    {
        &mut self.text
    }

    pub fn set_text(&mut self, text: &str)
        ensures
            final(self).spec_text() == text@,
            final(self).spec_style() == old(self).spec_style(),
    {
        self.text = String::from_str(text);
    }
}

impl ComponentContent for TextComponent {
    fn contents(&self) -> &str {
        self.text.as_str()
    }
}

/// A component that shows the translation of a key.
#[derive(Debug, Clone, PartialEq)]
pub struct TranslatableComponent {
    style: Style,
    key: String,
}

impl TranslatableComponent {
    pub closed spec fn spec_key(&self) -> Seq<char> {
        self.key@
    }

    pub closed spec fn spec_style(&self) -> Style {
        self.style
    }

    pub fn style(&self) -> (r: &Style)
        ensures
            *r == self.spec_style(),
    {
        &self.style
    }

    pub fn style_mut(&mut self) -> (r: &mut Style)
        ensures
            *r == old(self).spec_style(),
            final(self).spec_style() == *final(r),
            final(self).spec_key() == old(self).spec_key(),
    {
        &mut self.style
    }

    pub fn new_with_empty_args(key: &str) -> (r: TranslatableComponent)
        ensures
            r.spec_key() == key@,
            r.spec_style().spec_is_empty(),
    {
        TranslatableComponent { style: Style::default(), key: String::from_str(key) }
    }

    pub fn key(&self) -> (r: &String)
        ensures
            r@ == self.spec_key(),
    {
        &self.key
    }

    pub fn key_mut(&mut self) -> (r: &mut String)
        ensures
            r@ == old(self).spec_key(),
            final(self).spec_key() == final(r)@,
            final(self).spec_style() == old(self).spec_style(),
    {
        &mut self.key
    }

    pub fn set_key(&mut self, key: &str)
        ensures
            final(self).spec_key() == key@,
            final(self).spec_style() == old(self).spec_style(),
    {
        self.key = String::from_str(key);
    }
}

impl ComponentContent for TranslatableComponent {
    fn contents(&self) -> &str {
        ""
    }
}

} // verus!
