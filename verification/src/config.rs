//! The options of a run, and how they are read from its arguments.

use vstd::prelude::*;
use vstd::string::*;
use crate::display::Charset;
use crate::utils::{same_text, texts};

verus! {

/// How a tree is walked and drawn.
#[derive(Copy, Clone, Debug)]
pub struct Config {
    pub levels: Option<usize>,
    pub only_show_directories: bool,
    pub print_hidden: bool,
    pub charset: Charset,
}

impl Config {
    /// The configuration of a run without options.
    pub fn new() -> (r: Self)
        ensures
            r == default_config(),
    {
        Config {
            levels: None,
            only_show_directories: false,
            print_hidden: false,
            charset: Charset::Fancy,
        }
    }
}

/// The configuration of a run without options: no depth limit, files shown,
/// hidden entries left out, box-drawing glyphs.
pub open spec fn default_config() -> Config {
    Config {
        levels: None,
        only_show_directories: false,
        print_hidden: false,
        charset: Charset::Fancy,
    }
}

/// The root paths and the configuration of one run.
#[derive(Debug)]
pub struct Args {
    pub paths: Vec<String>,
    pub config: Config,
}

/// The mathematical value of an [`Args`].
pub ghost struct ArgsView {
    pub paths: Seq<Seq<char>>,
    pub config: Config,
}

impl View for Args {
    type V = ArgsView;

    open spec fn view(&self) -> ArgsView {
        ArgsView { paths: texts(self.paths@), config: self.config }
    }
}

/// What is known after some of the arguments have been read: the paths and
/// options so far, and whether the next argument is the value of an option.
pub ghost struct Scan {
    pub args: ArgsView,
    pub is_parsing_level: bool,
    pub is_parsing_charset: bool,
}

/// The state before any argument has been read.
pub open spec fn scan_start() -> Scan {
    Scan {
        args: ArgsView { paths: Seq::empty(), config: default_config() },
        is_parsing_level: false,
        is_parsing_charset: false,
    }
}

/// Reads one argument. `-L` announces a depth, which the next argument must
/// then be; `-d` and `-a` set their flags; `--charset` announces a glyph set,
/// which is the next argument that is none of these; anything else is a path.
/// `None` where a depth is expected and the argument is not one.
pub open spec fn scan_step(scan: Scan, arg: Seq<char>) -> Option<Scan> {
    let config = scan.args.config;
    if arg == "-L"@ {
        Some(Scan { is_parsing_level: true, ..scan })
    } else if scan.is_parsing_level {
        match parsed_int(arg) {
            Some(levels) => Some(
                Scan {
                    args: ArgsView { config: Config { levels: Some(levels), ..config }, ..scan.args },
                    is_parsing_level: false,
                    ..scan
                },
            ),
            None => None,
        }
    } else if arg == "-d"@ {
        Some(
            Scan {
                args: ArgsView {
                    config: Config { only_show_directories: true, ..config },
                    ..scan.args
                },
                ..scan
            },
        )
    } else if arg == "-a"@ {
        Some(
            Scan {
                args: ArgsView { config: Config { print_hidden: true, ..config }, ..scan.args },
                ..scan
            },
        )
    } else if arg == "--charset"@ {
        Some(Scan { is_parsing_charset: true, ..scan })
    } else if scan.is_parsing_charset {
        Some(
            Scan {
                args: ArgsView {
                    config: Config { charset: parsed_charset(arg), ..config },
                    ..scan.args
                },
                is_parsing_charset: false,
                ..scan
            },
        )
    } else {
        Some(Scan { args: ArgsView { paths: scan.args.paths.push(arg), ..scan.args }, ..scan })
    }
}

/// Reads the arguments from first to last; `None` as soon as one is refused.
pub open spec fn scan_all(arguments: Seq<Seq<char>>) -> Option<Scan>
    decreases arguments.len(),
{
    if arguments.len() == 0 {
        Some(scan_start())
    } else {
        match scan_all(arguments.drop_last()) {
            Some(scan) => scan_step(scan, arguments.last()),
            None => None,
        }
    }
}

/// What a list of arguments means: the paths and options read from it, with
/// the current directory as the one path where none was given. `None` where
/// the value of a `-L` is not a number that fits.
pub open spec fn parsed_args(arguments: Seq<Seq<char>>) -> Option<ArgsView> {
    match scan_all(arguments) {
        Some(scan) => Some(
            if scan.args.paths.len() == 0 {
                ArgsView { paths: seq!["."@], ..scan.args }
            } else {
                scan.args
            },
        ),
        None => None,
    }
}

/// The message that comes with a depth that cannot be read.
pub open spec fn parse_error() -> Seq<char> {
    "Couldn't parse string"@
}

impl Args {
    /// Reads the arguments of a run. Fails where the value of a `-L` is not
    /// a depth.
    pub fn from_args(arguments: &[String]) -> (r: Result<Self, &'static str>)
        ensures
            match r {
                Ok(args) => parsed_args(texts(arguments@)) == Some(args@),
                Err(message) => parsed_args(texts(arguments@)) is None && message@
                    == parse_error(),
            },
    {
        let mut args = Args::new();
        let mut is_parsing_level = false;
        let mut is_parsing_charset = false;
        let ghost all = texts(arguments@);
        let mut i: usize = 0;
        while i < arguments.len()
            invariant
                i <= arguments@.len(),
                all == texts(arguments@),
                scan_all(all.take(i as int)) == Some(
                    Scan { args: args@, is_parsing_level, is_parsing_charset },
                ),
            decreases arguments@.len() - i,
        {
            let arg = &arguments[i];
            let ghost before = Scan { args: args@, is_parsing_level, is_parsing_charset };
            proof {
                assert(all.take(i as int + 1).drop_last() =~= all.take(i as int));
            }
            if same_text(arg.as_str(), "-L") {
                is_parsing_level = true;
            } else if is_parsing_level {
                match parse_int(arg.as_str()) {
                    Ok(levels) => {
                        args.config.levels = Some(levels);
                    },
                    Err(message) => {
                        proof {
                            lemma_scan_all_fails_for_good(all, i as int + 1);
                        }
                        return Err(message);
                    },
                }
                is_parsing_level = false;
            } else if same_text(arg.as_str(), "-d") {
                args.config.only_show_directories = true;
            } else if same_text(arg.as_str(), "-a") {
                args.config.print_hidden = true;
            } else if same_text(arg.as_str(), "--charset") {
                is_parsing_charset = true;
            } else if is_parsing_charset {
                args.config.charset = parse_charset(arg.as_str());
                is_parsing_charset = false;
            } else {
                args.paths.push(arg.clone());
                assert(args@.paths =~= before.args.paths.push(arg@));
            }
            i += 1;
        }
        assert(all.take(i as int) =~= all);
        if args.paths.len() == 0 {
            args.paths.push(".".to_owned());
            assert(args@.paths =~= seq!["."@]);
        }
        Ok(args)
    }

    /// No paths, and the configuration of a run without options.
    pub fn new() -> (r: Self)
        ensures
            r@ == scan_start().args,
    {
        let r = Args { config: Config::new(), paths: Vec::new() };
        assert(r@.paths =~= Seq::empty());
        r
    }
}

/// Once the arguments up to some point are refused, so is the whole list.
pub proof fn lemma_scan_all_fails_for_good(arguments: Seq<Seq<char>>, upto: int)
    requires
        0 <= upto <= arguments.len(),
        scan_all(arguments.take(upto)) is None,
    ensures
        scan_all(arguments) is None,
    decreases arguments.len(),
{
    if upto == arguments.len() {
        assert(arguments.take(upto) =~= arguments);
    } else {
        assert(arguments.drop_last().take(upto) =~= arguments.take(upto));
        lemma_scan_all_fails_for_good(arguments.drop_last(), upto);
    }
}

/// The glyph set that a `--charset` value selects: `ascii` the plain one,
/// anything else the box-drawing one.
pub open spec fn parsed_charset(string: Seq<char>) -> Charset {
    if string == "ascii"@ {
        Charset::Ascii
    } else {
        Charset::Fancy
    }
}

/// The glyph set that a `--charset` value selects.
pub fn parse_charset(string: &str) -> (r: Charset)
    ensures
        r == parsed_charset(string@),
{
    if same_text(string, "ascii") {
        Charset::Ascii
    } else {
        Charset::Fancy
    }
}

/// Whether a character is one of the ten decimal digits.
pub open spec fn is_digit(c: char) -> bool {
    '0' <= c <= '9'
}

/// The number a decimal digit stands for.
pub open spec fn digit_value(c: char) -> nat {
    if is_digit(c) {
        (c as nat - '0' as nat) as nat
    } else {
        0
    }
}

/// The number that a string of decimal digits denotes, the first digit
/// counting most.
pub open spec fn decimal_value(digits: Seq<char>) -> nat
    decreases digits.len(),
{
    if digits.len() == 0 {
        0
    } else {
        decimal_value(digits.drop_last()) * 10 + digit_value(digits.last())
    }
}

/// The depth that a string denotes: its decimal value, where it is made of
/// decimal digits alone, at least one, and the value fits.
pub open spec fn parsed_int(string: Seq<char>) -> Option<usize> {
    if string.len() > 0 && (forall|i: int|
        0 <= i < string.len() ==> is_digit(#[trigger] string[i])) && decimal_value(string)
        <= usize::MAX {
        Some(decimal_value(string) as usize)
    } else {
        None
    }
}

/// The value of a string is at least the value of each of its prefixes.
pub proof fn lemma_decimal_value_grows(digits: Seq<char>, upto: int)
    requires
        0 <= upto <= digits.len(),
    ensures
        decimal_value(digits.take(upto)) <= decimal_value(digits),
    decreases digits.len(),
{
    if upto == digits.len() {
        assert(digits.take(upto) =~= digits);
    } else {
        assert(digits.drop_last().take(upto) =~= digits.take(upto));
        lemma_decimal_value_grows(digits.drop_last(), upto);
    }
}

/// Reads a depth: a decimal number that fits. A string without a digit is
/// none.
pub fn parse_int(string: &str) -> (r: Result<usize, &'static str>)
    ensures
        match r {
            Ok(value) => parsed_int(string@) == Some(value),
            Err(message) => parsed_int(string@) is None && message@ == parse_error(),
        },
{
    if string.is_empty() {
        return Err("Couldn't parse string");
    }
    let mut value: usize = 0;
    for c in it: string.chars()
        invariant
            it.seq() == string@,
            value == decimal_value(string@.take(it.index() as int)),
            forall|i: int| 0 <= i < it.index() ==> is_digit(#[trigger] string@[i]),
    {
        let ghost k = it.index() as int;
        proof {
            assert(string@.take(k + 1).drop_last() =~= string@.take(k));
        }
        if !(c >= '0' && c <= '9') {
            return Err("Couldn't parse string");
        }
        let digit: usize = (c as u32 - '0' as u32) as usize;
        if value > (usize::MAX - digit) / 10 {
            proof {
                lemma_decimal_value_grows(string@, k + 1);
            }
            return Err("Couldn't parse string");
        }
        value = value * 10 + digit;
    }
    assert(string@.take(string@.len() as int) =~= string@);
    Ok(value)
}

} // verus!
