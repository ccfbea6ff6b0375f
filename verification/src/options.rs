//! The command line: which options there are and what they set.

use vstd::prelude::*;
use vstd::utf8::*;
use crate::arith::Arith;
use crate::config;
use crate::config::Config;
use crate::count;
use crate::count::CountScan;
use crate::double::Double;
use crate::gamma;
use crate::text;
use crate::text::{split_triplet, text_of};

verus! {

/// An option of the command line.
#[derive(Clone, Copy, Debug, PartialEq, Eq, Structural)]
pub enum Setting {
    Temp,
    Black,
    White,
    Gamma,
    Gain,
    Offset,
    Contrast,
    Brightness,
    Posterize,
    Solarize,
    Invert,
    NoRed,
    NoGreen,
    NoBlue,
    Help,
}

/// What kind of argument an option takes.
#[derive(Clone, Copy, Debug, PartialEq, Eq, Structural)]
pub enum ArgumentKind {
    /// None.
    Nothing,
    /// A number.
    Number,
    /// Three numbers, one per channel.
    Triplet,
    /// A whole number that is not negative.
    Count,
}

/// The argument of an option, `None` where it is missing or malformed.
#[derive(Clone, Copy, Debug, PartialEq, Eq)]
pub enum Argument {
    Nothing,
    Number(Option<Double>),
    Triplet(Option<(Double, Double, Double)>),
    Count(Option<u32>),
}

/// How the command line goes on behind an option.
#[derive(Clone, Copy, Debug, PartialEq, Eq, Structural)]
pub enum Outcome {
    /// The option was set.
    Continue,
    /// The argument was missing or malformed: complain and give up.
    BadValue,
    /// Show the usage and leave.
    Help,
}

/// A number that was scanned from the front of an argument.
#[derive(Clone, Copy, Debug, PartialEq, Eq, Structural)]
pub struct NumberScan {
    pub value: Double,
    /// How many characters the number takes up; none where there is none.
    pub consumed: usize,
}

impl Setting {
    /// The letter of the option.
    pub open spec fn letter(self) -> u8 {
        match self {
            Setting::Temp => 't' as u8,
            Setting::Black => 'k' as u8,
            Setting::White => 'w' as u8,
            Setting::Gamma => 'g' as u8,
            Setting::Gain => 'G' as u8,
            Setting::Offset => 'O' as u8,
            Setting::Contrast => 'c' as u8,
            Setting::Brightness => 'b' as u8,
            Setting::Posterize => 'p' as u8,
            Setting::Solarize => 's' as u8,
            Setting::Invert => 'i' as u8,
            Setting::NoRed => 'x' as u8,
            Setting::NoGreen => 'y' as u8,
            Setting::NoBlue => 'z' as u8,
            Setting::Help => 'h' as u8,
        }
    }

    /// The long name of the option.
    pub open spec fn name(self) -> Seq<char> {
        match self {
            Setting::Temp => "temp"@,
            Setting::Black => "black"@,
            Setting::White => "white"@,
            Setting::Gamma => "gamma"@,
            Setting::Gain => "gain"@,
            Setting::Offset => "offset"@,
            Setting::Contrast => "contrast"@,
            Setting::Brightness => "brightness"@,
            Setting::Posterize => "posterize"@,
            Setting::Solarize => "solarize"@,
            Setting::Invert => "invert"@,
            Setting::NoRed => "no-red"@,
            Setting::NoGreen => "no-green"@,
            Setting::NoBlue => "no-blue"@,
            Setting::Help => "help"@,
        }
    }

    /// The kind of argument that the option takes.
    pub open spec fn kind(self) -> ArgumentKind {
        match self {
            Setting::Gain | Setting::Offset => ArgumentKind::Triplet,
            Setting::Posterize => ArgumentKind::Count,
            Setting::Invert
            | Setting::NoRed
            | Setting::NoGreen
            | Setting::NoBlue
            | Setting::Help => ArgumentKind::Nothing,
            _ => ArgumentKind::Number,
        }
    }

    /// Whether the argument is of the kind that the option takes.
    pub open spec fn takes(self, argument: Argument) -> bool {
        match self.kind() {
            ArgumentKind::Nothing => argument is Nothing,
            ArgumentKind::Number => argument is Number,
            ArgumentKind::Triplet => argument is Triplet,
            ArgumentKind::Count => argument is Count,
        }
    }

    /// The letter of the option.
    pub fn short_name(self) -> (r: u8)
        ensures
            r == self.letter(),
    {
        match self {
            Setting::Temp => 't' as u8,
            Setting::Black => 'k' as u8,
            Setting::White => 'w' as u8,
            Setting::Gamma => 'g' as u8,
            Setting::Gain => 'G' as u8,
            Setting::Offset => 'O' as u8,
            Setting::Contrast => 'c' as u8,
            Setting::Brightness => 'b' as u8,
            Setting::Posterize => 'p' as u8,
            Setting::Solarize => 's' as u8,
            Setting::Invert => 'i' as u8,
            Setting::NoRed => 'x' as u8,
            Setting::NoGreen => 'y' as u8,
            Setting::NoBlue => 'z' as u8,
            Setting::Help => 'h' as u8,
        }
    }

    /// The long name of the option.
    pub fn long_name(self) -> (r: &'static str)
        ensures
            r@ == self.name(),
    {
        match self {
            Setting::Temp => "temp",
            Setting::Black => "black",
            Setting::White => "white",
            Setting::Gamma => "gamma",
            Setting::Gain => "gain",
            Setting::Offset => "offset",
            Setting::Contrast => "contrast",
            Setting::Brightness => "brightness",
            Setting::Posterize => "posterize",
            Setting::Solarize => "solarize",
            Setting::Invert => "invert",
            Setting::NoRed => "no-red",
            Setting::NoGreen => "no-green",
            Setting::NoBlue => "no-blue",
            Setting::Help => "help",
        }
    }

    /// The kind of argument that the option takes.
    pub fn argument_kind(self) -> (r: ArgumentKind)
        ensures
            r == self.kind(),
    {
        match self {
            Setting::Gain | Setting::Offset => ArgumentKind::Triplet,
            Setting::Posterize => ArgumentKind::Count,
            Setting::Invert
            | Setting::NoRed
            | Setting::NoGreen
            | Setting::NoBlue
            | Setting::Help => ArgumentKind::Nothing,
            _ => ArgumentKind::Number,
        }
    }

    /// The option with the letter that the option parser returned, taken as
    /// one byte; `None` for any other code.
    pub fn from_code(code: i32) -> (r: Option<Setting>)
        ensures
            match r {
                Some(setting) => setting.letter() == code as u8,
                None => forall|setting: Setting| #[trigger] setting.letter() != code as u8,
            },
    {
        let letter: u8 = #[verifier::truncate] (code as u8);
        let options = all_settings();
        let mut i: usize = 0;
        while i < options.len()
            invariant
                i <= options.len(),
                options@ == spec_all_settings(),
                letter == code as u8,
                forall|j: int| 0 <= j < i ==> (#[trigger] options@[j]).letter() != letter,
            decreases options.len() - i,
        {
            if options[i].short_name() == letter {
                return Some(options[i]);
            }
            i = i + 1;
        }
        proof {
            assert forall|setting: Setting| #[trigger] setting.letter() != code as u8 by {
                lemma_all_settings(setting);
            }
        }
        None
    }
}

/// Every option, in the order of the usage table.
pub open spec fn spec_all_settings() -> Seq<Setting> {
    seq![
        Setting::Temp,
        Setting::Black,
        Setting::White,
        Setting::Gamma,
        Setting::Gain,
        Setting::Offset,
        Setting::Contrast,
        Setting::Brightness,
        Setting::Posterize,
        Setting::Solarize,
        Setting::Invert,
        Setting::NoRed,
        Setting::NoGreen,
        Setting::NoBlue,
        Setting::Help,
    ]
}

proof fn lemma_all_settings(setting: Setting)
    ensures
        exists|i: int|
            0 <= i < spec_all_settings().len() && #[trigger] spec_all_settings()[i] == setting,
{
    let i: int = match setting {
        Setting::Temp => 0,
        Setting::Black => 1,
        Setting::White => 2,
        Setting::Gamma => 3,
        Setting::Gain => 4,
        Setting::Offset => 5,
        Setting::Contrast => 6,
        Setting::Brightness => 7,
        Setting::Posterize => 8,
        Setting::Solarize => 9,
        Setting::Invert => 10,
        Setting::NoRed => 11,
        Setting::NoGreen => 12,
        Setting::NoBlue => 13,
        Setting::Help => 14,
    };
    assert(spec_all_settings()[i] == setting);
}

/// Every option.
pub fn all_settings() -> (r: Vec<Setting>)
    ensures
        r@ == spec_all_settings(),
{
    let r = vec![
        Setting::Temp,
        Setting::Black,
        Setting::White,
        Setting::Gamma,
        Setting::Gain,
        Setting::Offset,
        Setting::Contrast,
        Setting::Brightness,
        Setting::Posterize,
        Setting::Solarize,
        Setting::Invert,
        Setting::NoRed,
        Setting::NoGreen,
        Setting::NoBlue,
        Setting::Help,
    ];
    assert(r@ =~= spec_all_settings());
    r
}

/// The letters of some options, each that takes an argument followed by a
/// colon.
pub open spec fn letters_of(settings: Seq<Setting>) -> Seq<u8>
    decreases settings.len(),
{
    if settings.len() == 0 {
        Seq::empty()
    } else {
        let last = settings.last();
        let front = letters_of(settings.drop_last()).push(last.letter());
        if last.kind() is Nothing {
            front
        } else {
            front.push(':' as u8)
        }
    }
}

/// The description of the short options that `getopt` takes.
pub fn short_options() -> (r: Vec<u8>)
    ensures
        r@ == letters_of(spec_all_settings()),
{
    let options = all_settings();
    let mut r: Vec<u8> = Vec::new();
    let mut i: usize = 0;
    while i < options.len()
        invariant
            i <= options.len(),
            options@ == spec_all_settings(),
            r@ == letters_of(options@.take(i as int)),
        decreases options.len() - i,
    {
        assert(options@.take(i + 1).drop_last() =~= options@.take(i as int));
        r.push(options[i].short_name());
        if !matches!(options[i].argument_kind(), ArgumentKind::Nothing) {
            r.push(':' as u8);
        }
        i = i + 1;
    }
    assert(options@.take(i as int) =~= options@);
    r
}

/// The number that a scan gives; `None` where there was nothing to scan or no
/// number was found.
pub open spec fn number_of(scan: Option<NumberScan>) -> Option<Double> {
    match scan {
        Some(scan) => if scan.consumed == 0 {
            None
        } else {
            Some(scan.value)
        },
        None => None,
    }
}

/// The number that an argument begins with; `None` where the argument is
/// missing or does not begin with one.
pub fn parse_f64(scan: Option<NumberScan>) -> (r: Option<Double>)
    ensures
        r == number_of(scan),
        r == (match scan {
            Some(scan) => if scan.consumed == 0 {
                None
            } else {
                Some(scan.value)
            },
            None => None,
        }),
{
    match scan {
        None => None,
        Some(scan) => {
            if scan.consumed == 0 {
                None
            } else {
                Some(scan.value)
            }
        },
    }
}

/// The count that a scan gives; `None` where there was nothing to scan, no
/// number was found, or the number exceeds a `u32`.
pub open spec fn count_of(scan: Option<CountScan>) -> Option<u32> {
    match scan {
        Some(scan) => if scan.consumed == 0 || scan.value > u32::MAX {
            None
        } else {
            Some(scan.value as u32)
        },
        None => None,
    }
}

/// The whole number that an argument begins with; `None` where the argument is
/// missing, does not begin with one, or the number exceeds a `u32`.
pub fn parse_u32(scan: Option<CountScan>) -> (r: Option<u32>)
    ensures
        r == count_of(scan),
{
    match scan {
        None => None,
        Some(scan) => {
            if scan.consumed == 0 || scan.value > u32::MAX as u64 {
                None
            } else {
                Some(scan.value as u32)
            }
        },
    }
}

/// The decimal text of a count gives the count back, whatever follows it that
/// does not begin with a digit.
pub proof fn law_count_comes_back(n: u32, rest: Seq<u8>)
    requires
        rest.len() == 0 || !count::is_digit(rest[0]),
        count::decimal_text(n as nat).len() + rest.len() <= usize::MAX,
    ensures
        count_of(Some(count::scanned(count::decimal_text(n as nat) + rest))) == Some(n),
{
    count::law_decimal_text_comes_back(n as nat, rest);
    count::lemma_decimal_text(n as nat);
}

/// Whether `f` accepts every text.
pub open spec fn reads_all<F: Fn(&str) -> Option<Double>>(f: F) -> bool {
    forall|s: &str| #[trigger] call_requires(f, (s,))
}

/// Whether every result of `f` is the one that `reader` gives.
pub open spec fn reads<F: Fn(&str) -> Option<Double>>(
    f: F,
    reader: spec_fn(Seq<char>) -> Option<Double>,
) -> bool {
    forall|s: &str, r: Option<Double>| #[trigger] call_ensures(f, (s,), r) ==> r == reader(s@)
}

/// Whether `r` are the numbers that the three fields of `s` hold, or `None`
/// where there are less fields or one of them holds no number.
pub open spec fn numbers_of(
    reader: spec_fn(Seq<char>) -> Option<Double>,
    s: Seq<char>,
    r: Option<(Double, Double, Double)>,
) -> bool {
    match r {
        Some(numbers) => exists|parts: (Seq<char>, Seq<char>, Seq<char>)|
            {
                &&& #[trigger] text::triplet_of(s, parts)
                &&& reader(parts.0) == Some(numbers.0)
                &&& reader(parts.1) == Some(numbers.1)
                &&& reader(parts.2) == Some(numbers.2)
            },
        None => forall|parts: (Seq<char>, Seq<char>, Seq<char>)|
            #[trigger] text::triplet_of(s, parts) ==> reader(parts.0) is None || reader(
                parts.1,
            ) is None || reader(parts.2) is None,
    }
}

/// Parses an argument of the form `<r>:<g>:<b>`, each of whose fields `f`
/// reads as a number; `None` where the argument is missing, is not UTF-8, has
/// less than three fields, or has a field that is no number.
pub fn parse_triplet<F: Fn(&str) -> Option<Double>>(f: &F, argument: Option<&[u8]>) -> (r: Option<
    (Double, Double, Double),
>)
    requires
        reads_all(*f),
    ensures
        argument is None ==> r is None,
        argument is Some && !valid_utf8(argument->0@) ==> r is None,
        forall|reader: spec_fn(Seq<char>) -> Option<Double>|
            argument is Some && valid_utf8(argument->0@) && #[trigger] reads(*f, reader)
                ==> numbers_of(reader, decode_utf8(argument->0@), r),
{
    let bytes: &[u8] = match argument {
        None => {
            return None;
        },
        Some(bytes) => bytes,
    };
    let s: &str = match text_of(bytes) {
        None => {
            return None;
        },
        Some(s) => s,
    };
    proof {
        encode_utf8_decode_utf8(s@);
    }
    match split_triplet(s) {
        None => None,
        Some(parts) => {
            let ghost fields = (parts.0@, parts.1@, parts.2@);
            let red = f(parts.0);
            let green = f(parts.1);
            let blue = f(parts.2);
            proof {
                assert forall|other: (Seq<char>, Seq<char>, Seq<char>)|
                    #[trigger] text::triplet_of(s@, other) implies other == fields by {
                    text::law_triplet_splits(s@, fields, other);
                }
                assert(text::triplet_of(s@, fields));
            }
            match (red, green, blue) {
                (Some(r), Some(g), Some(b)) => Some((r, g, b)),
                _ => None,
            }
        },
    }
}

/// Whether a reader takes no text with a colon for a number.
pub open spec fn rejects_colons(reader: spec_fn(Seq<char>) -> Option<Double>) -> bool {
    forall|s: Seq<char>| s.contains(':') ==> #[trigger] reader(s) is None
}

/// Three fields that read as numbers, joined by colons, give these numbers
/// back.
pub proof fn law_triplet_comes_back(
    reader: spec_fn(Seq<char>) -> Option<Double>,
    fields: (Seq<char>, Seq<char>, Seq<char>),
    numbers: (Double, Double, Double),
    r: Option<(Double, Double, Double)>,
)
    requires
        rejects_colons(reader),
        reader(fields.0) == Some(numbers.0),
        reader(fields.1) == Some(numbers.1),
        reader(fields.2) == Some(numbers.2),
    ensures
        numbers_of(reader, fields.0 + seq![':'] + fields.1 + seq![':'] + fields.2, r) <==> r
            == Some(numbers),
{
    let s = fields.0 + seq![':'] + fields.1 + seq![':'] + fields.2;
    text::law_triplet_joins(fields.0, fields.1, fields.2);
    assert(text::triplet_of(s, fields));
    if numbers_of(reader, s, r) && r is Some {
        let parts = choose|parts: (Seq<char>, Seq<char>, Seq<char>)|
            {
                &&& #[trigger] text::triplet_of(s, parts)
                &&& reader(parts.0) == Some((r->0).0)
                &&& reader(parts.1) == Some((r->0).1)
                &&& reader(parts.2) == Some((r->0).2)
            };
        text::law_triplet_splits(s, fields, parts);
    }
}

/// A text is read as a triplet if and only if it holds exactly two colons and
/// each of its three fields reads as a number.
pub proof fn law_triplet_is_read(
    reader: spec_fn(Seq<char>) -> Option<Double>,
    s: Seq<char>,
    r: Option<(Double, Double, Double)>,
)
    requires
        rejects_colons(reader),
        numbers_of(reader, s, r),
    ensures
        r is Some <==> text::two_colons(s) && exists|parts: (Seq<char>, Seq<char>, Seq<char>)|
            {
                &&& #[trigger] text::triplet_of(s, parts)
                &&& reader(parts.0) is Some
                &&& reader(parts.1) is Some
                &&& reader(parts.2) is Some
            },
{
    if r is Some {
        let parts = choose|parts: (Seq<char>, Seq<char>, Seq<char>)|
            {
                &&& #[trigger] text::triplet_of(s, parts)
                &&& reader(parts.0) == Some((r->0).0)
                &&& reader(parts.1) == Some((r->0).1)
                &&& reader(parts.2) == Some((r->0).2)
            };
        text::law_triplet_has_two_colons(s, parts);
    }
}

/// What the options so far came to.
#[derive(Clone, Copy, Debug)]
pub struct CommandLine {
    pub config: Config,
    /// Whether a colour temperature was given.
    pub temp_set: bool,
}

/// How the command line goes on behind an option with this argument.
pub open spec fn outcome(setting: Setting, argument: Argument) -> Outcome {
    match argument {
        Argument::Nothing => if setting is Help {
            Outcome::Help
        } else {
            Outcome::Continue
        },
        Argument::Number(v) => if v is Some {
            Outcome::Continue
        } else {
            Outcome::BadValue
        },
        Argument::Triplet(v) => if v is Some {
            Outcome::Continue
        } else {
            Outcome::BadValue
        },
        Argument::Count(v) => if v is Some {
            Outcome::Continue
        } else {
            Outcome::BadValue
        },
    }
}

impl CommandLine {
    /// The command line with one more option, whose argument is well-formed.
    pub open spec fn with(self, setting: Setting, argument: Argument) -> CommandLine {
        let number = argument->Number_0->0;
        let triplet = argument->Triplet_0->0;
        let config = self.config;
        match setting {
            Setting::Temp => CommandLine {
                config: Config { temp: number, ..config },
                temp_set: true,
            },
            Setting::Black => CommandLine {
                config: Config { level_black: number, ..config },
                ..self
            },
            Setting::White => CommandLine {
                config: Config { level_white: number, ..config },
                ..self
            },
            Setting::Gamma => CommandLine { config: Config { gamma: number, ..config }, ..self },
            Setting::Gain => CommandLine {
                config: Config {
                    gain_r: triplet.0,
                    gain_g: triplet.1,
                    gain_b: triplet.2,
                    ..config
                },
                ..self
            },
            Setting::Offset => CommandLine {
                config: Config {
                    offset_r: triplet.0,
                    offset_g: triplet.1,
                    offset_b: triplet.2,
                    ..config
                },
                ..self
            },
            Setting::Contrast => CommandLine {
                config: Config { contrast: number, ..config },
                ..self
            },
            Setting::Brightness => CommandLine {
                config: Config { brightness: number, ..config },
                ..self
            },
            Setting::Posterize => CommandLine {
                config: Config { posterize_levels: argument->Count_0->0, ..config },
                ..self
            },
            Setting::Solarize => CommandLine {
                config: Config { solarize_value: number, ..config },
                ..self
            },
            Setting::Invert => CommandLine { config: Config { invert: true, ..config }, ..self },
            Setting::NoRed => CommandLine { config: Config { disable_r: true, ..config }, ..self },
            Setting::NoGreen => CommandLine { config: Config { disable_g: true, ..config }, ..self },
            Setting::NoBlue => CommandLine { config: Config { disable_b: true, ..config }, ..self },
            Setting::Help => self,
        }
    }

    /// The settings, or `None` where no colour temperature was given.
    pub open spec fn settings(self) -> Option<Config> {
        if self.temp_set {
            Some(self.config)
        } else {
            None
        }
    }

    /// A command line without options.
    pub fn new() -> (r: CommandLine)
        ensures
            r.config == config::neutral(),
            !r.temp_set,
    {
        CommandLine { config: Config::default(), temp_set: false }
    }

    /// Takes in one option.
    pub fn apply(&mut self, setting: Setting, argument: Argument) -> (r: Outcome)
        requires
            setting.takes(argument),
        ensures
            r == outcome(setting, argument),
            *final(self) == (if r is Continue {
                old(self).with(setting, argument)
            } else {
                *old(self)
            }),
    {
        match argument {
            Argument::Number(None) | Argument::Triplet(None) | Argument::Count(None) => {
                return Outcome::BadValue;
            },
            Argument::Number(Some(number)) => match setting {
                Setting::Temp => {
                    self.config.temp = number;
                    self.temp_set = true;
                },
                Setting::Black => {
                    self.config.level_black = number;
                },
                Setting::White => {
                    self.config.level_white = number;
                },
                Setting::Gamma => {
                    self.config.gamma = number;
                },
                Setting::Contrast => {
                    self.config.contrast = number;
                },
                Setting::Brightness => {
                    self.config.brightness = number;
                },
                _ => {
                    self.config.solarize_value = number;
                },
            },
            Argument::Triplet(Some((r, g, b))) => match setting {
                Setting::Gain => {
                    self.config.gain_r = r;
                    self.config.gain_g = g;
                    self.config.gain_b = b;
                },
                _ => {
                    self.config.offset_r = r;
                    self.config.offset_g = g;
                    self.config.offset_b = b;
                },
            },
            Argument::Count(Some(count)) => {
                self.config.posterize_levels = count;
            },
            Argument::Nothing => match setting {
                Setting::Invert => {
                    self.config.invert = true;
                },
                Setting::NoRed => {
                    self.config.disable_r = true;
                },
                Setting::NoGreen => {
                    self.config.disable_g = true;
                },
                Setting::NoBlue => {
                    self.config.disable_b = true;
                },
                _ => {
                    return Outcome::Help;
                },
            },
        }
        Outcome::Continue
    }

    /// The settings, or `None` where no colour temperature was given.
    pub fn finish(&self) -> (r: Option<Config>)
        ensures
            r == self.settings(),
            r == (if self.temp_set {
                Some(self.config)
            } else {
                None
            }),
    {
        if self.temp_set {
            Some(self.config)
        } else {
            None
        }
    }
}

/// The command line with a list of options, all of them well-formed.
pub open spec fn with_all(start: CommandLine, options: Seq<(Setting, Argument)>) -> CommandLine
    decreases options.len(),
{
    if options.len() == 0 {
        start
    } else {
        with_all(start, options.drop_last()).with(options.last().0, options.last().1)
    }
}

/// Of an option that is given twice, the last one counts.
pub proof fn law_last_option_counts(
    line: CommandLine,
    setting: Setting,
    first: Argument,
    second: Argument,
)
    ensures
        line.with(setting, first).with(setting, second) == line.with(setting, second),
{
}

/// The order of different options is of no account.
pub proof fn law_options_commute(
    line: CommandLine,
    a: Setting,
    x: Argument,
    b: Setting,
    y: Argument,
)
    requires
        a != b,
    ensures
        line.with(a, x).with(b, y) == line.with(b, y).with(a, x),
{
}

/// A command line is complete if and only if a colour temperature is among its
/// options.
pub proof fn law_temperature_is_required(
    start: CommandLine,
    options: Seq<(Setting, Argument)>,
)
    requires
        !start.temp_set,
    ensures
        with_all(start, options).temp_set <==> exists|i: int|
            0 <= i < options.len() && #[trigger] options[i].0 == Setting::Temp,
    decreases options.len(),
{
    if options.len() > 0 {
        let front = options.drop_last();
        law_temperature_is_required(start, front);
        if exists|i: int| 0 <= i < front.len() && #[trigger] front[i].0 == Setting::Temp {
            let i = choose|i: int| 0 <= i < front.len() && #[trigger] front[i].0 == Setting::Temp;
            assert(options[i].0 == Setting::Temp);
        }
        if options.last().0 == Setting::Temp {
            assert(options[options.len() - 1].0 == Setting::Temp);
        }
        if exists|i: int| 0 <= i < options.len() && #[trigger] options[i].0 == Setting::Temp {
            let i = choose|i: int|
                0 <= i < options.len() && #[trigger] options[i].0 == Setting::Temp;
            if i < front.len() {
                assert(front[i].0 == Setting::Temp);
            }
        }
    }
}

/// No two options share a letter, so that each is found by its own.
pub proof fn law_letters_are_distinct(a: Setting, b: Setting)
    ensures
        a.letter() == b.letter() ==> a == b,
{
}

/// Which argument each option takes: the gain and the offset three numbers, the
/// posterizing a count, the switches and the help nothing, the others a number.
pub proof fn law_arguments(setting: Setting, argument: Argument)
    ensures
        setting.takes(argument) <==> match argument {
            Argument::Triplet(_) => setting == Setting::Gain || setting == Setting::Offset,
            Argument::Count(_) => setting == Setting::Posterize,
            Argument::Nothing => setting == Setting::Invert || setting == Setting::NoRed || setting
                == Setting::NoGreen || setting == Setting::NoBlue || setting == Setting::Help,
            Argument::Number(_) => setting == Setting::Temp || setting == Setting::Black || setting
                == Setting::White || setting == Setting::Gamma || setting == Setting::Contrast
                || setting == Setting::Brightness || setting == Setting::Solarize,
        },
{
}

/// How the command line goes on: a missing argument is bad, help is shown, and
/// everything else is taken in.
pub proof fn law_outcomes(setting: Setting, argument: Argument)
    requires
        setting.takes(argument),
    ensures
        outcome(setting, argument) == Outcome::BadValue <==> argument == Argument::Number(None)
            || argument == Argument::Triplet(None) || argument == Argument::Count(None),
        outcome(setting, argument) == Outcome::Help <==> setting == Setting::Help,
        outcome(setting, argument) == Outcome::Continue <==> setting != Setting::Help && argument
            != Argument::Number(None) && argument != Argument::Triplet(None) && argument
            != Argument::Count(None),
{
}

/// Every field of the settings is what the option that is named after it says,
/// if that was the option, and what it was before otherwise. The three numbers
/// of a triplet go to red, green and blue.
pub proof fn law_options_set_their_fields(
    line: CommandLine,
    setting: Setting,
    number: Double,
    triplet: (Double, Double, Double),
    count: u32,
    argument: Argument,
)
    requires
        setting.takes(argument),
        argument == Argument::Nothing || argument == Argument::Number(Some(number)) || argument
            == Argument::Triplet(Some(triplet)) || argument == Argument::Count(Some(count)),
    ensures
        ({
            let (old, new) = (line.config, line.with(setting, argument).config);
            &&& new.temp == if setting == Setting::Temp { number } else { old.temp }
            &&& new.level_black == if setting == Setting::Black { number } else { old.level_black }
            &&& new.level_white == if setting == Setting::White { number } else { old.level_white }
            &&& new.gamma == if setting == Setting::Gamma { number } else { old.gamma }
            &&& new.gain_r == if setting == Setting::Gain { triplet.0 } else { old.gain_r }
            &&& new.gain_g == if setting == Setting::Gain { triplet.1 } else { old.gain_g }
            &&& new.gain_b == if setting == Setting::Gain { triplet.2 } else { old.gain_b }
            &&& new.offset_r == if setting == Setting::Offset { triplet.0 } else { old.offset_r }
            &&& new.offset_g == if setting == Setting::Offset { triplet.1 } else { old.offset_g }
            &&& new.offset_b == if setting == Setting::Offset { triplet.2 } else { old.offset_b }
            &&& new.contrast == if setting == Setting::Contrast { number } else { old.contrast }
            &&& new.brightness == if setting == Setting::Brightness {
                number
            } else {
                old.brightness
            }
            &&& new.posterize_levels == if setting == Setting::Posterize {
                count
            } else {
                old.posterize_levels
            }
            &&& new.solarize_value == if setting == Setting::Solarize {
                number
            } else {
                old.solarize_value
            }
            &&& new.invert == (setting == Setting::Invert || old.invert)
            &&& new.disable_r == (setting == Setting::NoRed || old.disable_r)
            &&& new.disable_g == (setting == Setting::NoGreen || old.disable_g)
            &&& new.disable_b == (setting == Setting::NoBlue || old.disable_b)
            &&& line.with(setting, argument).temp_set == (setting == Setting::Temp
                || line.temp_set)
        }),
{
}

/// Switching a colour off turns its third of the table to zeros and leaves the
/// other two thirds as they are.
pub proof fn law_switches(
    unit: spec_fn(Arith) -> Double,
    line: CommandLine,
    size: nat,
    switch: Setting,
)
    requires
        switch == Setting::NoRed || switch == Setting::NoGreen || switch == Setting::NoBlue,
    ensures
        ({
            let old = gamma::table(unit, size, line.config);
            let new = gamma::table(unit, size, line.with(switch, Argument::Nothing).config);
            let n = size as int;
            &&& old.len() == 3 * n
            &&& new.len() == 3 * n
            &&& forall|i: int|
                0 <= i < n ==> #[trigger] new[i] == if switch == Setting::NoRed {
                    0
                } else {
                    old[i]
                }
            &&& forall|i: int|
                n <= i < 2 * n ==> #[trigger] new[i] == if switch == Setting::NoGreen {
                    0
                } else {
                    old[i]
                }
            &&& forall|i: int|
                2 * n <= i < 3 * n ==> #[trigger] new[i] == if switch == Setting::NoBlue {
                    0
                } else {
                    old[i]
                }
        }),
{
}

/// A number is there if and only if some of the argument was taken up by one.
pub proof fn law_number(scan: Option<NumberScan>)
    ensures
        number_of(scan) is Some <==> scan is Some && scan->0.consumed > 0,
        number_of(scan) is Some ==> number_of(scan)->0 == scan->0.value,
{
}

/// A count is there if and only if some of the argument was taken up by a
/// number, and that number is below 2 to the power 32.
pub proof fn law_count(scan: Option<CountScan>)
    ensures
        count_of(scan) is Some <==> scan is Some && scan->0.consumed > 0 && scan->0.value
            < 0x1_0000_0000,
        count_of(scan) is Some ==> count_of(scan)->0 == scan->0.value,
{
}

/// The settings are complete if and only if a temperature was given, and they
/// are those that the options came to.
pub proof fn law_finished(line: CommandLine)
    ensures
        line.settings() is Some <==> line.temp_set,
        line.settings() is Some ==> line.settings()->0 == line.config,
{
}

} // verus!
