use ext2_core::console::{default_style, Console, StyledCharacter};
use ext2_core::formatting::{Color, Style};

const ALL: [Color; 16] = [
    Color::Black,
    Color::Red,
    Color::Green,
    Color::Yellow,
    Color::Blue,
    Color::Magenta,
    Color::Cyan,
    Color::White,
    Color::BrightBlack,
    Color::BrightRed,
    Color::BrightGreen,
    Color::BrightYellow,
    Color::BrightBlue,
    Color::BrightMagenta,
    Color::BrightCyan,
    Color::BrightWhite,
];

const PLAIN: Style = Style { reset: false, foreground_color: None, background_color: None };

#[test]
fn color_codes() {
    for (index, color) in ALL.into_iter().enumerate() {
        let offset = (index % 8) as u8;
        let foreground = if index < 8 { 30 + offset } else { 90 + offset };
        let background = if index < 8 { 40 + offset } else { 100 + offset };
        assert_eq!(color.ansi_foreground(), foreground);
        assert_eq!(color.ansi_background(), background);
        assert_eq!(Color::from_ansi_foreground(foreground), Some(color));
        assert_eq!(Color::from_ansi_background(background), Some(color));
        assert_eq!(Color::from_ansi_foreground(background), None);
        assert_eq!(Color::from_ansi_background(foreground), None);
    }
    for byte in [0u8, 29, 38, 39, 48, 89, 98, 99, 108, 255] {
        assert_eq!(Color::from_ansi_foreground(byte), None);
        assert_eq!(Color::from_ansi_background(byte), None);
    }
}

#[test]
fn styles_are_parsed() {
    assert_eq!(Style::parse("\u{1b}[0m"), Some(Style { reset: true, ..PLAIN }));
    assert_eq!(
        Style::parse("\u{1b}[31m"),
        Some(Style { foreground_color: Some(Color::Red), ..PLAIN })
    );
    assert_eq!(
        Style::parse("\u{1b}[31;107m"),
        Some(Style {
            reset: false,
            foreground_color: Some(Color::Red),
            background_color: Some(Color::BrightWhite),
        })
    );
    // the last color of a kind wins; unknown numbers change nothing
    assert_eq!(
        Style::parse("\u{1b}[31;1;32;0;255m"),
        Some(Style { reset: true, foreground_color: Some(Color::Green), background_color: None })
    );
    assert_eq!(Style::parse("\u{1b}[+37;0040m"), Some(default_style()));
    assert_eq!(Style::parse_bytes(b"\x1b[94m"), Style::parse("\u{1b}[94m"));
}

#[test]
fn what_is_no_style_is_refused() {
    for text in [
        "",
        "m",
        "\u{1b}[",
        "\u{1b}[m",
        "\u{1b}[;m",
        "\u{1b}[31;m",
        "\u{1b}[;31m",
        "\u{1b}[31",
        "[31m",
        "\u{1b}31m",
        "\u{1b}[256m",
        "\u{1b}[-1m",
        "\u{1b}[+m",
        "\u{1b}[3 1m",
        "\u{1b}[31mm",
        "\u{1b}[3\u{e9}m",
        "x\u{1b}[31m",
    ] {
        assert_eq!(Style::parse(text), None, "{:?}", text);
    }
}

#[test]
fn styles_are_merged() {
    let default = default_style();
    let current = Style {
        reset: false,
        foreground_color: Some(Color::Red),
        background_color: Some(Color::Blue),
    };
    let green = Style { foreground_color: Some(Color::Green), ..PLAIN };
    assert_eq!(
        current.merge(green, default),
        Style {
            reset: false,
            foreground_color: Some(Color::Green),
            background_color: Some(Color::Blue),
        }
    );
    assert_eq!(current.merge(PLAIN, default), current);
    assert_eq!(current.merge(Style::reset_style(), default), default);
    let reset_and_color = Style { reset: true, foreground_color: Some(Color::Cyan), ..PLAIN };
    assert_eq!(current.merge(reset_and_color, default), default);
}

fn row(console: &Console, y: usize) -> String {
    (0..console.width()).map(|x| console.styled_character(x, y).character as char).collect()
}

fn feed(console: &mut Console, text: &str) {
    for byte in text.bytes() {
        console.receive_byte(byte);
    }
}

#[test]
fn a_console_without_lines_only_records() {
    let mut console = Console::new();
    assert_eq!(console.width(), 0);
    assert_eq!(console.height(), 0);
    feed(&mut console, "ab\n");
    assert_eq!(console.height(), 0);
    console.resize(4, 2);
    assert_eq!(console.width(), 4);
    assert_eq!(console.height(), 2);
    // what was received is shown once there are lines: the first character
    // finds the last line counted as full and starts a new one, the second is
    // written, and the newline starts another line
    assert_eq!(row(&console, 0), "b   ");
    assert_eq!(row(&console, 1), "    ");
}

#[test]
fn characters_lines_and_styles() {
    let mut console = Console::new();
    console.resize(5, 3);
    feed(&mut console, "\nab\u{1b}[31mc\u{1b}[0m\nxyz");
    assert_eq!(row(&console, 0), "     ");
    assert_eq!(row(&console, 1), "abc  ");
    assert_eq!(row(&console, 2), "xyz  ");
    assert_eq!(
        console.styled_character(0, 1),
        StyledCharacter { style: default_style(), character: b'a' }
    );
    assert_eq!(
        console.styled_character(2, 1).style,
        Style {
            reset: false,
            foreground_color: Some(Color::Red),
            background_color: Some(Color::Black),
        }
    );
    assert_eq!(console.styled_character(0, 2).style, default_style());
    // a full line: the next character starts a line, and is not shown
    feed(&mut console, "12345");
    assert_eq!(row(&console, 1), "xyz12");
    assert_eq!(row(&console, 2), "45   ");
    // a sequence that selects no style changes nothing, and is not shown
    feed(&mut console, "\u{1b}[xm!");
    assert_eq!(row(&console, 2), "45!  ");
    assert_eq!(console.styled_character(2, 2).style, default_style());
    // the same size changes nothing; another size shows everything again
    console.resize(5, 3);
    assert_eq!(row(&console, 2), "45!  ");
    console.resize(8, 2);
    assert_eq!(row(&console, 0), "xyz12345");
    assert_eq!(row(&console, 1), "        ");
}

#[test]
fn colors_have_their_red_green_and_blue_parts() {
    assert_eq!(Color::Black.rgb_888(), (0x00, 0x00, 0x00));
    assert_eq!(Color::Red.rgb_888(), (0xcd, 0x00, 0x00));
    assert_eq!(Color::Green.rgb_888(), (0x00, 0xcd, 0x00));
    assert_eq!(Color::Yellow.rgb_888(), (0xcd, 0xcd, 0x00));
    assert_eq!(Color::Blue.rgb_888(), (0x00, 0x00, 0xcd));
    assert_eq!(Color::Magenta.rgb_888(), (0xcd, 0x00, 0xcd));
    assert_eq!(Color::Cyan.rgb_888(), (0x00, 0xcd, 0xcd));
    assert_eq!(Color::White.rgb_888(), (0xe5, 0xe5, 0xe5));
    assert_eq!(Color::BrightBlack.rgb_888(), (0x7f, 0x7f, 0x7f));
    assert_eq!(Color::BrightRed.rgb_888(), (0xff, 0x00, 0x00));
    assert_eq!(Color::BrightGreen.rgb_888(), (0x00, 0xff, 0x00));
    assert_eq!(Color::BrightYellow.rgb_888(), (0xff, 0xff, 0x00));
    assert_eq!(Color::BrightBlue.rgb_888(), (0x5c, 0x5c, 0xff));
    assert_eq!(Color::BrightMagenta.rgb_888(), (0xff, 0x00, 0xff));
    assert_eq!(Color::BrightCyan.rgb_888(), (0x00, 0xff, 0xff));
    assert_eq!(Color::BrightWhite.rgb_888(), (0xff, 0xff, 0xff));
}

#[test]
fn the_sequence_of_a_style_selects_that_style() {
    let plain = Style { reset: false, foreground_color: None, background_color: None };
    assert_eq!(plain.sequence(), Vec::<u8>::new());
    assert_eq!(Style::reset_style().sequence(), b"\x1b[0m".to_vec());
    let red = Style { reset: false, foreground_color: Some(Color::Red), background_color: None };
    assert_eq!(red.sequence(), b"\x1b[31m".to_vec());
    let on_bright_white =
        Style { reset: false, foreground_color: None, background_color: Some(Color::BrightWhite) };
    assert_eq!(on_bright_white.sequence(), b"\x1b[107m".to_vec());
    let both = Style {
        reset: false,
        foreground_color: Some(Color::BrightBlue),
        background_color: Some(Color::Yellow),
    };
    assert_eq!(both.sequence(), b"\x1b[94;43m".to_vec());
    // a style that resets says nothing of colors
    let reset_and_red =
        Style { reset: true, foreground_color: Some(Color::Red), background_color: None };
    assert_eq!(reset_and_red.sequence(), b"\x1b[0m".to_vec());
    assert_eq!(Style::parse_bytes(&reset_and_red.sequence()), Some(Style::reset_style()));
    for foreground in ALL {
        let style =
            Style { reset: false, foreground_color: Some(foreground), background_color: None };
        assert_eq!(Style::parse_bytes(&style.sequence()), Some(style));
        for background in ALL {
            let style = Style {
                reset: false,
                foreground_color: Some(foreground),
                background_color: Some(background),
            };
            assert_eq!(Style::parse_bytes(&style.sequence()), Some(style));
            let style =
                Style { reset: false, foreground_color: None, background_color: Some(background) };
            assert_eq!(Style::parse_bytes(&style.sequence()), Some(style));
        }
    }
}
