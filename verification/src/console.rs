//! A console of styled characters: what was received, and the lines that it
//! shows. Drawing the lines is left to the caller.

use crate::formatting::{Color, Style, ESCAPE};
use vstd::prelude::*;

verus! {

/// The byte that ends a line.
pub const NEWLINE: u8 = 0x0a;

/// The byte that ends an escape sequence which selects a style.
pub const STYLE_END: u8 = 0x6d;

/// The character that an empty cell shows.
pub const DEFAULT_CHARACTER: u8 = 0x20;

/// The bytes that are characters of their own end before this one.
pub const ASCII_LIMIT: u8 = 0x80;

/// The style of text for which no style was selected: white on black.
pub open spec fn spec_default_style() -> Style {
    Style {
        reset: false,
        foreground_color: Some(Color::White),
        background_color: Some(Color::Black),
    }
}

/// The style of text for which no style was selected: white on black.
#[verifier::when_used_as_spec(spec_default_style)]
pub fn default_style() -> (style: Style)
    ensures
        style == spec_default_style(),
{
    Style {
        reset: false,
        foreground_color: Some(Color::White),
        background_color: Some(Color::Black),
    }
}

/// A character in its style.
#[derive(Clone, Copy, Debug, PartialEq, Eq)]
pub struct StyledCharacter {
    pub style: Style,
    pub character: u8,
}

/// The console as a mathematical value.
pub struct ConsoleView {
    /// The bytes of an escape sequence that has started and not ended.
    pub current_style_characters: Seq<u8>,
    /// Every byte that was received.
    pub history: Seq<u8>,
    /// Number of characters in a line.
    pub width: int,
    /// Number of lines.
    pub height: int,
    /// The lines, the oldest first.
    pub styled_characters: Seq<Seq<StyledCharacter>>,
    /// Number of characters written in the last line.
    pub horizontal_advancement: int,
    /// The style of the characters that follow.
    pub current_style: Style,
}

/// A line of `width` empty cells.
pub open spec fn blank_line(width: int) -> Seq<StyledCharacter> {
    Seq::new(
        width as nat,
        |i: int| StyledCharacter { style: spec_default_style(), character: DEFAULT_CHARACTER },
    )
}

impl ConsoleView {
    /// There are `height` lines of `width` characters, and no more than
    /// `width` characters are written in the last.
    pub open spec fn wf(self) -> bool {
        &&& 0 <= self.width
        &&& 0 <= self.height
        &&& self.styled_characters.len() == self.height
        &&& forall|i: int|
            0 <= i < self.height ==> (#[trigger] self.styled_characters[i]).len() == self.width
        &&& 0 <= self.horizontal_advancement <= self.width
    }

    /// The console after `character` has been shown. A console without lines
    /// shows nothing. An escape starts a sequence, which takes every character
    /// up to `m`; the style that the sequence selects is then laid over the
    /// current one. A newline, or any character once the last line is full,
    /// drops the oldest line and starts an empty one. Any other character is
    /// written in the last line in the current style.
    pub open spec fn process_character(self, character: u8) -> ConsoleView {
        if self.height == 0 {
            self
        } else if character == ESCAPE || self.current_style_characters.len() > 0 {
            let sequence = self.current_style_characters.push(character);
            if character == STYLE_END {
                ConsoleView {
                    current_style_characters: Seq::empty(),
                    current_style: match Style::spec_parse(sequence) {
                        Some(style) => self.current_style.spec_merge(style, spec_default_style()),
                        None => self.current_style,
                    },
                    ..self
                }
            } else {
                ConsoleView { current_style_characters: sequence, ..self }
            }
        } else if self.horizontal_advancement == self.width || character == NEWLINE {
            ConsoleView {
                styled_characters: self.styled_characters.drop_first().push(
                    blank_line(self.width),
                ),
                horizontal_advancement: 0,
                ..self
            }
        } else {
            ConsoleView {
                styled_characters: self.styled_characters.update(
                    self.height - 1,
                    self.styled_characters[self.height - 1].update(
                        self.horizontal_advancement,
                        StyledCharacter { style: self.current_style, character },
                    ),
                ),
                horizontal_advancement: self.horizontal_advancement + 1,
                ..self
            }
        }
    }

    /// The console after `byte` has been received: it is recorded, and shown.
    pub open spec fn receive_byte(self, byte: u8) -> ConsoleView {
        ConsoleView { history: self.history.push(byte), ..self }.process_character(byte)
    }

    /// The console after the first `count` of `characters` have been shown.
    pub open spec fn process_characters(self, characters: Seq<u8>, count: int) -> ConsoleView
        decreases count,
    {
        if count <= 0 {
            self
        } else {
            self.process_characters(characters, count - 1).process_character(characters[count - 1])
        }
    }

    /// The console after it has been given `height` lines of `width`
    /// characters: unchanged where it had them; else the lines are emptied, the
    /// last one counted as full, the default style selected, and everything
    /// received so far shown again.
    pub open spec fn resize(self, width: int, height: int) -> ConsoleView {
        if width == self.width && height == self.height {
            self
        } else {
            ConsoleView {
                width,
                height,
                styled_characters: Seq::new(height as nat, |i: int| blank_line(width)),
                horizontal_advancement: width,
                current_style: spec_default_style(),
                ..self
            }.process_characters(self.history, self.history.len() as int)
        }
    }

    /// Showing a character keeps the console well formed, and its size.
    pub proof fn lemma_process_character_wf(self, character: u8)
        requires
            self.wf(),
        ensures
            self.process_character(character).wf(),
            self.process_character(character).width == self.width,
            self.process_character(character).height == self.height,
            self.process_character(character).history == self.history,
    {
    }
}

/// A console that receives text byte by byte.
pub struct Console {
    current_style_characters: Vec<u8>,
    history: Vec<u8>,
    width: usize,
    height: usize,
    styled_characters: Vec<Vec<StyledCharacter>>,
    horizontal_advancement: usize,
    current_style: Style,
}

/// The lines of a console, as mathematical values.
pub open spec fn lines_view(lines: Seq<Vec<StyledCharacter>>) -> Seq<Seq<StyledCharacter>> {
    Seq::new(lines.len(), |i: int| lines[i]@)
}

/// A line of `width` empty cells.
fn new_blank_line(width: usize) -> (line: Vec<StyledCharacter>)
    ensures
        line@ == blank_line(width as int),
{
    let mut line: Vec<StyledCharacter> = Vec::new();
    let mut i: usize = 0;
    while i < width
        invariant
            i <= width,
            line@ == blank_line(i as int),
        decreases width - i,
    {
        line.push(StyledCharacter { style: default_style(), character: DEFAULT_CHARACTER });
        assert(line@ =~= blank_line(i + 1));
        i += 1;
    }
    line
}

impl Console {
    /// The console as a mathematical value.
    pub closed spec fn view(&self) -> ConsoleView {
        ConsoleView {
            current_style_characters: self.current_style_characters@,
            history: self.history@,
            width: self.width as int,
            height: self.height as int,
            styled_characters: lines_view(self.styled_characters@),
            horizontal_advancement: self.horizontal_advancement as int,
            current_style: self.current_style,
        }
    }

    /// A console without lines, which has received nothing.
    pub fn new() -> (console: Console)
        ensures
            console@.wf(),
            console@.width == 0,
            console@.height == 0,
            console@.history.len() == 0,
            console@.current_style_characters.len() == 0,
            console@.styled_characters.len() == 0,
            console@.horizontal_advancement == 0,
            console@.current_style == spec_default_style(),
    {
        Console {
            current_style_characters: Vec::new(),
            history: Vec::new(),
            width: 0,
            height: 0,
            styled_characters: Vec::new(),
            horizontal_advancement: 0,
            current_style: default_style(),
        }
    }

    /// Number of characters in a line.
    pub fn width(&self) -> (width: usize)
        ensures
            width == self@.width,
    {
        self.width
    }

    /// Number of lines.
    pub fn height(&self) -> (height: usize)
        ensures
            height == self@.height,
    {
        self.height
    }

    /// The character at column `x` of line `y`, in its style.
    pub fn styled_character(&self, x: usize, y: usize) -> (cell: StyledCharacter)
        requires
            self@.wf(),
            x < self@.width,
            y < self@.height,
        ensures
            cell == self@.styled_characters[y as int][x as int],
    {
        assert(self@.styled_characters[y as int] == self.styled_characters@[y as int]@);
        self.styled_characters[y][x]
    }

    /// Receives `byte`, which is a character of its own: it is recorded, and
    /// shown.
    pub fn receive_byte(&mut self, byte: u8)
        requires
            old(self)@.wf(),
            byte < ASCII_LIMIT,
        ensures
            final(self)@ == old(self)@.receive_byte(byte),
            final(self)@.wf(),
    {
        self.history.push(byte);
        self.process_character(byte);
    }

    /// Shows `character`: see `ConsoleView::process_character`.
    pub fn process_character(&mut self, character: u8)
        requires
            old(self)@.wf(),
        ensures
            final(self)@ == old(self)@.process_character(character),
            final(self)@.wf(),
    {
        proof {
            self@.lemma_process_character_wf(character);
        }
        if self.height == 0 {
            return ;
        }
        if character == ESCAPE || self.current_style_characters.len() > 0 {
            self.current_style_characters.push(character);
            if character == STYLE_END {
                match Style::parse_bytes(self.current_style_characters.as_slice()) {
                    Some(style) => {
                        self.current_style = self.current_style.merge(style, default_style());
                    },
                    None => {},
                }
                self.current_style_characters = Vec::new();
            }
            return ;
        }
        let ghost lines = self@.styled_characters;
        if self.horizontal_advancement == self.width || character == NEWLINE {
            self.styled_characters.remove(0);
            self.styled_characters.push(new_blank_line(self.width));
            self.horizontal_advancement = 0;
            assert(lines_view(self.styled_characters@) =~= lines.drop_first().push(
                blank_line(self.width as int),
            ));
            return ;
        }
        let mut line = match self.styled_characters.pop() {
            Some(line) => line,
            None => Vec::new(),
        };
        assert(line@ == lines[self.height - 1]);
        line[self.horizontal_advancement] = StyledCharacter {
            style: self.current_style,
            character,
        };
        self.styled_characters.push(line);
        self.horizontal_advancement = self.horizontal_advancement + 1;
        assert(lines_view(self.styled_characters@) =~= lines.update(
            self.height - 1,
            lines[self.height - 1].update(
                self.horizontal_advancement - 1,
                StyledCharacter { style: self.current_style, character },
            ),
        ));
    }

    /// Gives the console `height` lines of `width` characters: see
    /// `ConsoleView::resize`.
    pub fn resize(&mut self, width: usize, height: usize)
        requires
            old(self)@.wf(),
        ensures
            final(self)@ == old(self)@.resize(width as int, height as int),
            final(self)@.wf(),
            final(self)@.width == width,
            final(self)@.height == height,
    {
        if width == self.width && height == self.height {
            return ;
        }
        self.width = width;
        self.height = height;
        let mut styled_characters: Vec<Vec<StyledCharacter>> = Vec::new();
        let mut y: usize = 0;
        while y < height
            invariant
                y <= height,
                styled_characters@.len() == y,
                lines_view(styled_characters@) == Seq::new(
                    y as nat,
                    |i: int| blank_line(width as int),
                ),
            decreases height - y,
        {
            let ghost before = styled_characters@;
            styled_characters.push(new_blank_line(width));
            assert forall|i: int| 0 <= i < y + 1 implies lines_view(styled_characters@)[i]
                == blank_line(width as int) by {
                if i < y {
                    assert(lines_view(before)[i] == before[i]@);
                }
            }
            assert(lines_view(styled_characters@) =~= Seq::new(
                (y + 1) as nat,
                |i: int| blank_line(width as int),
            ));
            y += 1;
        }
        self.styled_characters = styled_characters;
        self.horizontal_advancement = width;
        self.current_style = default_style();
        let ghost start = self@;
        let count = self.history.len();
        let mut i: usize = 0;
        while i < count
            invariant
                i <= count,
                count == start.history.len(),
                self@.wf(),
                self@.history == start.history,
                self@.width == width,
                self@.height == height,
                self@ == start.process_characters(start.history, i as int),
            decreases count - i,
        {
            let character = self.history[i];
            proof {
                self@.lemma_process_character_wf(character);
            }
            self.process_character(character);
            i += 1;
        }
    }
}

} // verus!
