//! Colors and styles of text, and the ANSI escape sequences that select them.

use vstd::prelude::*;

verus! {

/// The sixteen colors that ANSI escape sequences select.
#[derive(Clone, Copy, Debug, PartialEq, Eq)]
pub enum Color {
    Black,
    Red,
    Green,
    Yellow,
    Blue,
    Magenta,
    Cyan,
    White,
    BrightBlack,
    BrightRed,
    BrightGreen,
    BrightYellow,
    BrightBlue,
    BrightMagenta,
    BrightCyan,
    BrightWhite,
}

impl Color {
    /// Where the color stands among its eight: 0 for black up to 7 for white.
    pub open spec fn hue(self) -> u8 {
        match self {
            Color::Black | Color::BrightBlack => 0,
            Color::Red | Color::BrightRed => 1,
            Color::Green | Color::BrightGreen => 2,
            Color::Yellow | Color::BrightYellow => 3,
            Color::Blue | Color::BrightBlue => 4,
            Color::Magenta | Color::BrightMagenta => 5,
            Color::Cyan | Color::BrightCyan => 6,
            Color::White | Color::BrightWhite => 7,
        }
    }

    /// Whether the color is one of the eight bright ones.
    pub open spec fn bright(self) -> bool {
        match self {
            Color::BrightBlack
            | Color::BrightRed
            | Color::BrightGreen
            | Color::BrightYellow
            | Color::BrightBlue
            | Color::BrightMagenta
            | Color::BrightCyan
            | Color::BrightWhite => true,
            _ => false,
        }
    }

    /// The code that selects the color for the text: 30 to 37, and 90 to 97
    /// for the bright colors.
    pub open spec fn spec_ansi_foreground(self) -> u8 {
        if self.bright() {
            (90 + self.hue()) as u8
        } else {
            (30 + self.hue()) as u8
        }
    }

    /// The code that selects the color for the background: 40 to 47, and 100
    /// to 107 for the bright colors.
    pub open spec fn spec_ansi_background(self) -> u8 {
        if self.bright() {
            (100 + self.hue()) as u8
        } else {
            (40 + self.hue()) as u8
        }
    }

    /// The color that stands at `hue` among the eight normal colors, or
    /// among the eight bright ones.
    pub open spec fn of_hue(hue: u8, bright: bool) -> Color {
        if hue == 0 {
            if bright {
                Color::BrightBlack
            } else {
                Color::Black
            }
        } else if hue == 1 {
            if bright {
                Color::BrightRed
            } else {
                Color::Red
            }
        } else if hue == 2 {
            if bright {
                Color::BrightGreen
            } else {
                Color::Green
            }
        } else if hue == 3 {
            if bright {
                Color::BrightYellow
            } else {
                Color::Yellow
            }
        } else if hue == 4 {
            if bright {
                Color::BrightBlue
            } else {
                Color::Blue
            }
        } else if hue == 5 {
            if bright {
                Color::BrightMagenta
            } else {
                Color::Magenta
            }
        } else if hue == 6 {
            if bright {
                Color::BrightCyan
            } else {
                Color::Cyan
            }
        } else {
            if bright {
                Color::BrightWhite
            } else {
                Color::White
            }
        }
    }

    /// The color that a code selects for the text, if it selects one.
    pub open spec fn spec_from_ansi_foreground(byte: u8) -> Option<Color> {
        if 30 <= byte <= 37 {
            Some(Self::of_hue((byte - 30) as u8, false))
        } else if 90 <= byte <= 97 {
            Some(Self::of_hue((byte - 90) as u8, true))
        } else {
            None
        }
    }

    /// The color that a code selects for the background, if it selects one.
    pub open spec fn spec_from_ansi_background(byte: u8) -> Option<Color> {
        if 40 <= byte <= 47 {
            Some(Self::of_hue((byte - 40) as u8, false))
        } else if 100 <= byte <= 107 {
            Some(Self::of_hue((byte - 100) as u8, true))
        } else {
            None
        }
    }

    /// The color that `byte` selects for the text; `None` where it selects
    /// none.
    #[verifier::when_used_as_spec(spec_from_ansi_foreground)]
    pub fn from_ansi_foreground(byte: u8) -> (color: Option<Color>)
        ensures
            color == Self::spec_from_ansi_foreground(byte),
            color matches Some(c) ==> c.spec_ansi_foreground() == byte,
            color is None ==> forall|c: Color| c.spec_ansi_foreground() != byte,
    {
        let color = match byte {
            30 => Some(Color::Black),
            31 => Some(Color::Red),
            32 => Some(Color::Green),
            33 => Some(Color::Yellow),
            34 => Some(Color::Blue),
            35 => Some(Color::Magenta),
            36 => Some(Color::Cyan),
            37 => Some(Color::White),
            90 => Some(Color::BrightBlack),
            91 => Some(Color::BrightRed),
            92 => Some(Color::BrightGreen),
            93 => Some(Color::BrightYellow),
            94 => Some(Color::BrightBlue),
            95 => Some(Color::BrightMagenta),
            96 => Some(Color::BrightCyan),
            97 => Some(Color::BrightWhite),
            _ => None,
        };
        color
    }

    /// The color that `byte` selects for the background; `None` where it
    /// selects none.
    #[verifier::when_used_as_spec(spec_from_ansi_background)]
    pub fn from_ansi_background(byte: u8) -> (color: Option<Color>)
        ensures
            color == Self::spec_from_ansi_background(byte),
            color matches Some(c) ==> c.spec_ansi_background() == byte,
            color is None ==> forall|c: Color| c.spec_ansi_background() != byte,
    {
        let color = match byte {
            40 => Some(Color::Black),
            41 => Some(Color::Red),
            42 => Some(Color::Green),
            43 => Some(Color::Yellow),
            44 => Some(Color::Blue),
            45 => Some(Color::Magenta),
            46 => Some(Color::Cyan),
            47 => Some(Color::White),
            100 => Some(Color::BrightBlack),
            101 => Some(Color::BrightRed),
            102 => Some(Color::BrightGreen),
            103 => Some(Color::BrightYellow),
            104 => Some(Color::BrightBlue),
            105 => Some(Color::BrightMagenta),
            106 => Some(Color::BrightCyan),
            107 => Some(Color::BrightWhite),
            _ => None,
        };
        color
    }

    /// The code that selects the color for the text.
    #[verifier::when_used_as_spec(spec_ansi_foreground)]
    pub fn ansi_foreground(self) -> (byte: u8)
        ensures
            byte == self.spec_ansi_foreground(),
    {
        match self {
            Color::Black => 30,
            Color::Red => 31,
            Color::Green => 32,
            Color::Yellow => 33,
            Color::Blue => 34,
            Color::Magenta => 35,
            Color::Cyan => 36,
            Color::White => 37,
            Color::BrightBlack => 90,
            Color::BrightRed => 91,
            Color::BrightGreen => 92,
            Color::BrightYellow => 93,
            Color::BrightBlue => 94,
            Color::BrightMagenta => 95,
            Color::BrightCyan => 96,
            Color::BrightWhite => 97,
        }
    }

    /// The code that selects the color for the background.
    #[verifier::when_used_as_spec(spec_ansi_background)]
    pub fn ansi_background(self) -> (byte: u8)
        ensures
            byte == self.spec_ansi_background(),
    {
        match self {
            Color::Black => 40,
            Color::Red => 41,
            Color::Green => 42,
            Color::Yellow => 43,
            Color::Blue => 44,
            Color::Magenta => 45,
            Color::Cyan => 46,
            Color::White => 47,
            Color::BrightBlack => 100,
            Color::BrightRed => 101,
            Color::BrightGreen => 102,
            Color::BrightYellow => 103,
            Color::BrightBlue => 104,
            Color::BrightMagenta => 105,
            Color::BrightCyan => 106,
            Color::BrightWhite => 107,
        }
    }

    /// The color as 24 bits: red in the high byte, then green, then blue.
    pub open spec fn code_rgb(self) -> u32 {
        match self {
            Color::Black => 0x000000,
            Color::Red => 0xcd0000,
            Color::Green => 0x00cd00,
            Color::Yellow => 0xcdcd00,
            Color::Blue => 0x0000cd,
            Color::Magenta => 0xcd00cd,
            Color::Cyan => 0x00cdcd,
            Color::White => 0xe5e5e5,
            Color::BrightBlack => 0x7f7f7f,
            Color::BrightRed => 0xff0000,
            Color::BrightGreen => 0x00ff00,
            Color::BrightYellow => 0xffff00,
            Color::BrightBlue => 0x5c5cff,
            Color::BrightMagenta => 0xff00ff,
            Color::BrightCyan => 0x00ffff,
            Color::BrightWhite => 0xffffff,
        }
    }

    /// The red, green and blue parts of the color, eight bits each.
    pub fn rgb_888(self) -> (parts: (u8, u8, u8))
        ensures
            parts.0 == self.code_rgb() / 0x1_0000,
            parts.1 == self.code_rgb() / 0x100 % 0x100,
            parts.2 == self.code_rgb() % 0x100,
    {
        match self {
            Color::Black => (0x00, 0x00, 0x00),
            Color::Red => (0xcd, 0x00, 0x00),
            Color::Green => (0x00, 0xcd, 0x00),
            Color::Yellow => (0xcd, 0xcd, 0x00),
            Color::Blue => (0x00, 0x00, 0xcd),
            Color::Magenta => (0xcd, 0x00, 0xcd),
            Color::Cyan => (0x00, 0xcd, 0xcd),
            Color::White => (0xe5, 0xe5, 0xe5),
            Color::BrightBlack => (0x7f, 0x7f, 0x7f),
            Color::BrightRed => (0xff, 0x00, 0x00),
            Color::BrightGreen => (0x00, 0xff, 0x00),
            Color::BrightYellow => (0xff, 0xff, 0x00),
            Color::BrightBlue => (0x5c, 0x5c, 0xff),
            Color::BrightMagenta => (0xff, 0x00, 0xff),
            Color::BrightCyan => (0x00, 0xff, 0xff),
            Color::BrightWhite => (0xff, 0xff, 0xff),
        }
    }

    /// Two colors with one code for the text are one color.
    pub proof fn lemma_foreground_code_names_one_color(self, other: Color)
        requires
            self.spec_ansi_foreground() == other.spec_ansi_foreground(),
        ensures
            self == other,
    {
    }

    /// Two colors with one code for the background are one color.
    pub proof fn lemma_background_code_names_one_color(self, other: Color)
        requires
            self.spec_ansi_background() == other.spec_ansi_background(),
        ensures
            self == other,
    {
    }

    /// The code of a color selects that color, for the text and for the
    /// background; and no code selects a color for both.
    pub proof fn lemma_code_round_trip(self)
        ensures
            Self::spec_from_ansi_foreground(self.spec_ansi_foreground()) == Some(self),
            Self::spec_from_ansi_background(self.spec_ansi_background()) == Some(self),
            Self::spec_from_ansi_background(self.spec_ansi_foreground()) is None,
            Self::spec_from_ansi_foreground(self.spec_ansi_background()) is None,
    {
    }
}

/// How text is to be shown: in which colors, or as it is by default.
#[derive(Clone, Copy, Debug, PartialEq, Eq)]
pub struct Style {
    /// Go back to the default style.
    pub reset: bool,
    /// The color of the text, where the style sets one.
    pub foreground_color: Option<Color>,
    /// The color of the background, where the style sets one.
    pub background_color: Option<Color>,
}

/// The byte that starts an escape sequence.
pub const ESCAPE: u8 = 0x1b;

/// The value of the digits `digits`, read as a decimal number.
pub open spec fn decimal_value(digits: Seq<u8>) -> int
    decreases digits.len(),
{
    if digits.len() == 0 {
        0
    } else {
        10 * decimal_value(digits.drop_last()) + (digits.last() - 0x30)
    }
}

/// Every byte of `digits` is a decimal digit.
pub open spec fn all_digits(digits: Seq<u8>) -> bool {
    forall|i: int| 0 <= i < digits.len() ==> 0x30 <= #[trigger] digits[i] <= 0x39
}

/// The number that a command of an escape sequence names: decimal digits, at
/// least one, with a plus sign before them or not, that stand for no more than
/// 255.
pub open spec fn command_value(command: Seq<u8>) -> Option<u8> {
    let digits = if command.len() > 0 && command[0] == 0x2b {
        command.drop_first()
    } else {
        command
    };
    if digits.len() > 0 && all_digits(digits) && decimal_value(digits) <= 255 {
        Some(decimal_value(digits) as u8)
    } else {
        None
    }
}

/// Position of the first `;` of `commands`, or their length.
pub open spec fn first_command_len(commands: Seq<u8>) -> int
    decreases commands.len(),
{
    if commands.len() == 0 || commands[0] == 0x3b {
        0
    } else {
        1 + first_command_len(commands.drop_first())
    }
}

/// The decimal digits of `value`, without zeros before them.
pub open spec fn decimal_digits(value: u8) -> Seq<u8> {
    if value < 10 {
        seq![(0x30 + value) as u8]
    } else if value < 100 {
        seq![(0x30 + value / 10) as u8, (0x30 + value % 10) as u8]
    } else {
        seq![
            (0x30 + value / 100) as u8,
            (0x30 + value / 10 % 10) as u8,
            (0x30 + value % 10) as u8,
        ]
    }
}

impl Style {
    /// The style that goes back to the default.
    pub open spec fn spec_reset_style() -> Style {
        Style { reset: true, foreground_color: None, background_color: None }
    }

    /// The style that changes nothing.
    pub open spec fn spec_plain() -> Style {
        Style { reset: false, foreground_color: None, background_color: None }
    }

    /// The style that goes back to the default.
    pub fn reset_style() -> (style: Style)
        ensures
            style == Self::spec_reset_style(),
    {
        Style { reset: true, foreground_color: None, background_color: None }
    }

    /// The style after command `command` has been applied: 0 asks for the
    /// default, the code of a color sets that color.
    pub open spec fn with_command(self, command: u8) -> Style {
        Style {
            reset: self.reset || command == 0,
            foreground_color: match Color::spec_from_ansi_foreground(command) {
                Some(color) => Some(color),
                None => self.foreground_color,
            },
            background_color: match Color::spec_from_ansi_background(command) {
                Some(color) => Some(color),
                None => self.background_color,
            },
        }
    }

    /// The style after the commands of `commands`, which `;` separates, have
    /// been applied in their order; `None` where one of them names no number.
    pub open spec fn with_commands(self, commands: Seq<u8>) -> Option<Style>
        decreases commands.len(),
    {
        let len = first_command_len(commands);
        match command_value(commands.subrange(0, len)) {
            None => None,
            Some(command) => if len < 0 || len >= commands.len() {
                Some(self.with_command(command))
            } else {
                self.with_command(command).with_commands(
                    commands.subrange(len + 1, commands.len() as int),
                )
            },
        }
    }

    /// The style that an escape sequence selects: the sequence starts with
    /// ESC and `[`, ends with `m`, and holds commands in between.
    pub open spec fn spec_parse(sequence: Seq<u8>) -> Option<Style> {
        if sequence.len() >= 3 && sequence[0] == ESCAPE && sequence[1] == 0x5b && sequence.last()
            == 0x6d {
            Self::spec_plain().with_commands(sequence.subrange(2, sequence.len() - 1))
        } else {
            None
        }
    }

    /// The style on top of `self` that `other` asks for: `default` where
    /// `other` resets, else the colors of `other` where it sets them and those
    /// of `self` where it does not.
    pub open spec fn spec_merge(self, other: Style, default: Style) -> Style {
        if other.reset {
            default
        } else {
            Style {
                reset: false,
                foreground_color: match other.foreground_color {
                    Some(color) => Some(color),
                    None => self.foreground_color,
                },
                background_color: match other.background_color {
                    Some(color) => Some(color),
                    None => self.background_color,
                },
            }
        }
    }

    /// The escape sequence that selects the style: ESC, `[`, the codes of
    /// the colors that the style sets with `;` between them, and `m`; the
    /// sequence of code 0 for a style that resets; nothing for a style that
    /// sets nothing.
    pub open spec fn spec_sequence(self) -> Seq<u8> {
        if self.reset {
            seq![ESCAPE, 0x5b, 0x30, 0x6d]
        } else {
            match (self.foreground_color, self.background_color) {
                (None, None) => Seq::empty(),
                (Some(foreground), None) => seq![ESCAPE, 0x5b] + decimal_digits(
                    foreground.spec_ansi_foreground(),
                ) + seq![0x6du8],
                (None, Some(background)) => seq![ESCAPE, 0x5b] + decimal_digits(
                    background.spec_ansi_background(),
                ) + seq![0x6du8],
                (Some(foreground), Some(background)) => seq![ESCAPE, 0x5b] + decimal_digits(
                    foreground.spec_ansi_foreground(),
                ) + seq![0x3bu8] + decimal_digits(background.spec_ansi_background()) + seq![
                    0x6du8,
                ],
            }
        }
    }

    /// Appends the decimal digits of `value` to `bytes`.
    fn push_decimal(bytes: &mut Vec<u8>, value: u8)
        ensures
            final(bytes)@ == old(bytes)@ + decimal_digits(value),
    {
        if value >= 100 {
            bytes.push(0x30 + value / 100);
        }
        if value >= 10 {
            bytes.push(0x30 + value / 10 % 10);
        }
        bytes.push(0x30 + value % 10);
        assert(bytes@ =~= old(bytes)@ + decimal_digits(value));
    }

    /// The escape sequence that selects the style: see `spec_sequence`.
    pub fn sequence(self) -> (bytes: Vec<u8>)
        ensures
            bytes@ == self.spec_sequence(),
    {
        let mut bytes: Vec<u8> = Vec::new();
        if self.reset {
            bytes.push(ESCAPE);
            bytes.push(0x5b);
            bytes.push(0x30);
            bytes.push(0x6d);
            assert(bytes@ =~= self.spec_sequence());
            return bytes;
        }
        if self.foreground_color.is_none() && self.background_color.is_none() {
            assert(bytes@ =~= self.spec_sequence());
            return bytes;
        }
        bytes.push(ESCAPE);
        bytes.push(0x5b);
        assert(bytes@ =~= seq![ESCAPE, 0x5b]);
        match self.foreground_color {
            Some(foreground) => {
                Self::push_decimal(&mut bytes, foreground.ansi_foreground());
                if self.background_color.is_some() {
                    bytes.push(0x3b);
                }
            },
            None => {},
        }
        match self.background_color {
            Some(background) => {
                Self::push_decimal(&mut bytes, background.ansi_background());
            },
            None => {},
        }
        bytes.push(0x6d);
        assert(bytes@ =~= self.spec_sequence());
        bytes
    }

    /// The digits of a number are one command, which names that number.
    pub proof fn lemma_one_command(self, code: u8)
        ensures
            self.with_commands(decimal_digits(code)) == Some(self.with_command(code)),
    {
        let commands = decimal_digits(code);
        lemma_decimal_digits(code, Seq::<u8>::empty());
        assert(commands + Seq::<u8>::empty() =~= commands);
        assert(commands.subrange(0, commands.len() as int) =~= commands);
    }

    /// The digits of two numbers with `;` between them are two commands,
    /// which name these numbers.
    pub proof fn lemma_two_commands(self, first: u8, second: u8)
        ensures
            self.with_commands(decimal_digits(first) + seq![0x3bu8] + decimal_digits(second))
                == Some(self.with_command(first).with_command(second)),
    {
        let rest = seq![0x3bu8] + decimal_digits(second);
        let commands = decimal_digits(first) + seq![0x3bu8] + decimal_digits(second);
        assert(commands =~= decimal_digits(first) + rest);
        lemma_decimal_digits(first, rest);
        let len = decimal_digits(first).len() as int;
        assert(first_command_len(commands) == len);
        assert(commands.subrange(0, len) =~= decimal_digits(first));
        assert(commands.subrange(len + 1, commands.len() as int) =~= decimal_digits(second));
        self.with_command(first).lemma_one_command(second);
    }

    /// The escape sequence of a style selects that style: the style that
    /// resets where the style resets, else the style itself, where it sets a
    /// color. A style that sets nothing has no sequence.
    pub proof fn lemma_sequence_round_trip(self)
        ensures
            self.reset ==> Self::spec_parse(self.spec_sequence()) == Some(Self::spec_reset_style()),
            !self.reset && (self.foreground_color is Some || self.background_color is Some)
                ==> Self::spec_parse(self.spec_sequence()) == Some(self),
            !self.reset && self.foreground_color is None && self.background_color is None
                ==> self.spec_sequence().len() == 0,
    {
        let sequence = self.spec_sequence();
        let plain = Self::spec_plain();
        if self.reset {
            assert(sequence.subrange(2, sequence.len() - 1) =~= decimal_digits(0));
            plain.lemma_one_command(0);
        } else {
            match (self.foreground_color, self.background_color) {
                (None, None) => {},
                (Some(foreground), None) => {
                    let code = foreground.spec_ansi_foreground();
                    assert(sequence.subrange(2, sequence.len() - 1) =~= decimal_digits(code));
                    plain.lemma_one_command(code);
                    foreground.lemma_code_round_trip();
                },
                (None, Some(background)) => {
                    let code = background.spec_ansi_background();
                    assert(sequence.subrange(2, sequence.len() - 1) =~= decimal_digits(code));
                    plain.lemma_one_command(code);
                    background.lemma_code_round_trip();
                },
                (Some(foreground), Some(background)) => {
                    let first = foreground.spec_ansi_foreground();
                    let second = background.spec_ansi_background();
                    assert(sequence.subrange(2, sequence.len() - 1) =~= decimal_digits(first)
                        + seq![0x3bu8] + decimal_digits(second));
                    plain.lemma_two_commands(first, second);
                    foreground.lemma_code_round_trip();
                    background.lemma_code_round_trip();
                },
            }
        }
    }

    /// Parses one command of an escape sequence.
    fn parse_command(command: &[u8]) -> (value: Option<u8>)
        ensures
            value == command_value(command@),
    {
        let start: usize = if command.len() > 0 && command[0] == 0x2b {
            1
        } else {
            0
        };
        let ghost digits = if command@.len() > 0 && command@[0] == 0x2b {
            command@.drop_first()
        } else {
            command@
        };
        assert(digits =~= command@.subrange(start as int, command@.len() as int));
        if start == command.len() {
            return None;
        }
        let mut value: u16 = 0;
        let mut i: usize = start;
        assert(digits.subrange(0, 0) =~= Seq::<u8>::empty());
        while i < command.len()
            invariant
                start <= i <= command@.len(),
                digits == command@.subrange(start as int, command@.len() as int),
                digits == if command@.len() > 0 && command@[0] == 0x2b {
                    command@.drop_first()
                } else {
                    command@
                },
                digits.len() > 0,
                all_digits(digits.subrange(0, i - start)),
                value == decimal_value(digits.subrange(0, i - start)),
                value <= 255,
            decreases command@.len() - i,
        {
            let byte = command[i];
            let ghost prefix = digits.subrange(0, i - start);
            let ghost longer = digits.subrange(0, i + 1 - start);
            assert(longer.drop_last() =~= prefix);
            assert(longer.last() == byte);
            if byte < 0x30 || byte > 0x39 {
                assert(!all_digits(digits)) by {
                    assert(digits[i - start] == byte);
                }
                return None;
            }
            let next = value * 10 + (byte - 0x30) as u16;
            if next > 255 {
                proof {
                    assert(decimal_value(longer) > 255);
                    lemma_decimal_value_grows(digits, i + 1 - start);
                }
                return None;
            }
            assert(all_digits(longer)) by {
                assert forall|k: int| 0 <= k < longer.len() implies 0x30 <= #[trigger] longer[k]
                    <= 0x39 by {
                    if k < i - start {
                        assert(prefix[k] == longer[k]);
                    }
                }
            }
            value = next;
            i += 1;
        }
        assert(digits.subrange(0, digits.len() as int) =~= digits);
        Some(value as u8)
    }

    /// The style that the escape sequence `sequence` selects: see
    /// `spec_parse`.
    pub fn parse_bytes(sequence: &[u8]) -> (style: Option<Style>)
        ensures
            style == Self::spec_parse(sequence@),
    {
        let len = sequence.len();
        if len < 3 || sequence[0] != ESCAPE || sequence[1] != 0x5b || sequence[len - 1] != 0x6d {
            return None;
        }
        let end = len - 1;
        let ghost commands = sequence@.subrange(2, end as int);
        let mut style = Style { reset: false, foreground_color: None, background_color: None };
        let mut start: usize = 2;
        loop
            invariant
                2 <= start <= end,
                end == sequence@.len() - 1,
                commands == sequence@.subrange(2, end as int),
                Self::spec_parse(sequence@) == Self::spec_plain().with_commands(commands),
                style.with_commands(sequence@.subrange(start as int, end as int))
                    == Self::spec_plain().with_commands(commands),
            decreases end - start,
        {
            let ghost rest = sequence@.subrange(start as int, end as int);
            let mut stop = start;
            while stop < end && sequence[stop] != 0x3b
                invariant
                    start <= stop <= end,
                    end < sequence@.len(),
                    rest == sequence@.subrange(start as int, end as int),
                    first_command_len(rest) == (stop - start) + first_command_len(
                        sequence@.subrange(stop as int, end as int),
                    ),
                decreases end - stop,
            {
                assert(sequence@.subrange(stop as int, end as int).drop_first()
                    =~= sequence@.subrange(stop + 1, end as int));
                stop += 1;
            }
            assert(first_command_len(rest) == stop - start);
            assert(rest.subrange(0, stop - start) =~= sequence@.subrange(
                start as int,
                stop as int,
            ));
            let command = match Self::parse_command(&sequence[start..stop]) {
                Some(command) => command,
                None => {
                    return None;
                },
            };
            if command == 0 {
                style.reset = true;
            }
            match Color::from_ansi_foreground(command) {
                Some(color) => {
                    style.foreground_color = Some(color);
                },
                None => {},
            }
            match Color::from_ansi_background(command) {
                Some(color) => {
                    style.background_color = Some(color);
                },
                None => {},
            }
            if stop == end {
                return Some(style);
            }
            assert(rest.subrange(stop - start + 1, rest.len() as int) =~= sequence@.subrange(
                stop + 1,
                end as int,
            ));
            start = stop + 1;
        }
    }

    /// The style that the escape sequence `style_str` selects, where it is
    /// one: see `spec_parse`.
    pub fn parse(style_str: &str) -> (style: Option<Style>)
        ensures
            style == Self::spec_parse(vstd::utf8::encode_utf8(style_str@)),
    {
        Self::parse_bytes(style_str.as_bytes())
    }

    /// The style on top of `self` that `other` asks for: see `spec_merge`.
    #[verifier::when_used_as_spec(spec_merge)]
    pub fn merge(self, other: Style, default: Style) -> (merged: Style)
        ensures
            merged == self.spec_merge(other, default),
    {
        if other.reset {
            default
        } else {
            Style {
                reset: false,
                foreground_color: match other.foreground_color {
                    Some(color) => Some(color),
                    None => self.foreground_color,
                },
                background_color: match other.background_color {
                    Some(color) => Some(color),
                    None => self.background_color,
                },
            }
        }
    }
}

/// The value of digits is no less than the value of the digits they start
/// with.
pub proof fn lemma_decimal_value_grows(digits: Seq<u8>, count: int)
    requires
        0 <= count <= digits.len(),
    ensures
        all_digits(digits) ==> decimal_value(digits.subrange(0, count)) <= decimal_value(digits),
    decreases digits.len() - count,
{
    if count < digits.len() && all_digits(digits) {
        lemma_decimal_value_grows(digits, count + 1);
        let longer = digits.subrange(0, count + 1);
        assert(longer.drop_last() =~= digits.subrange(0, count));
        assert(longer.last() == digits[count]);
        assert(decimal_value(digits.subrange(0, count)) >= 0) by {
            lemma_decimal_value_not_negative(digits.subrange(0, count));
        }
    } else if count == digits.len() {
        assert(digits.subrange(0, count) =~= digits);
    }
}

/// The value of digits is not negative.
pub proof fn lemma_decimal_value_not_negative(digits: Seq<u8>)
    requires
        all_digits(digits),
    ensures
        decimal_value(digits) >= 0,
    decreases digits.len(),
{
    if digits.len() > 0 {
        assert(all_digits(digits.drop_last())) by {
            assert forall|i: int| 0 <= i < digits.drop_last().len() implies 0x30
                <= #[trigger] digits.drop_last()[i] <= 0x39 by {
                assert(digits.drop_last()[i] == digits[i]);
            }
        }
        lemma_decimal_value_not_negative(digits.drop_last());
    }
}

/// The decimal digits of a number name that number, and end where a `;`
/// follows them or nothing does.
pub proof fn lemma_decimal_digits(value: u8, rest: Seq<u8>)
    requires
        rest.len() == 0 || rest[0] == 0x3b,
    ensures
        all_digits(decimal_digits(value)),
        1 <= decimal_digits(value).len() <= 3,
        decimal_value(decimal_digits(value)) == value,
        command_value(decimal_digits(value)) == Some(value),
        first_command_len(decimal_digits(value) + rest) == decimal_digits(value).len(),
{
    let digits = decimal_digits(value);
    reveal_with_fuel(decimal_value, 4);
    reveal_with_fuel(first_command_len, 4);
    let all = digits + rest;
    if value < 10 {
        assert(digits.drop_last() =~= Seq::<u8>::empty());
        assert(all.drop_first() =~= rest);
    } else if value < 100 {
        let one = digits.drop_last();
        assert(one =~= seq![(0x30 + value / 10) as u8]);
        assert(one.drop_last() =~= Seq::<u8>::empty());
        assert(all.drop_first() =~= seq![(0x30 + value % 10) as u8] + rest);
        assert(all.drop_first().drop_first() =~= rest);
    } else {
        let two = digits.drop_last();
        assert(two =~= seq![(0x30 + value / 100) as u8, (0x30 + value / 10 % 10) as u8]);
        let one = two.drop_last();
        assert(one =~= seq![(0x30 + value / 100) as u8]);
        assert(one.drop_last() =~= Seq::<u8>::empty());
        assert(all.drop_first() =~= seq![
            (0x30 + value / 10 % 10) as u8,
            (0x30 + value % 10) as u8,
        ] + rest);
        assert(all.drop_first().drop_first() =~= seq![(0x30 + value % 10) as u8] + rest);
        assert(all.drop_first().drop_first().drop_first() =~= rest);
    }
}

} // verus!
