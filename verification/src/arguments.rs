//! Command lines.

use crate::api::{VariableWrite, Write};
use crate::arrange::views;
use crate::decimal::{decimal_number, first_of, parse_single};
use crate::numerals::{find_user_fault, parse_user_number, user_fault, user_number, NumberFault};
use crate::psb::{PsbDecryptionKey, PsbNormalizeOptions};
use crate::single::Single;
use crate::text::{
    chars_of, lemma_pieces_len, opt_string, pieces, same_text, split, starts_with, strip_prefix,
    stripped, text_of, texts,
};
use vstd::prelude::*;

verus! {

/// A path on a command line: an argument by its place, kept as the system gave it,
/// or a text behind an equals sign.
#[derive(Debug)]
pub enum PathArg {
    Argument(usize),
    Text(String),
}

/// A `PathArg` by its characters.
pub enum PathText {
    Argument(usize),
    Text(Seq<char>),
}

impl View for PathArg {
    type V = PathText;

    open spec fn view(&self) -> PathText {
        match self {
            PathArg::Argument(i) => PathText::Argument(*i),
            PathArg::Text(s) => PathText::Text(s@),
        }
    }
}

pub open spec fn opt_path(p: Option<PathArg>) -> Option<PathText> {
    match p {
        Some(path) => Some(path@),
        None => None,
    }
}

/// Why a text is no floating-point number.
#[derive(Clone, Copy, Debug, PartialEq, Eq, Structural)]
pub enum FloatFault {
    /// There is no character.
    Empty,
    /// The characters are no number.
    Bad,
}

impl FloatFault {
    /// The message for users.
    pub open spec fn spec_message(self) -> Seq<char> {
        match self {
            FloatFault::Empty => "cannot parse float from empty string"@,
            FloatFault::Bad => "invalid float literal"@,
        }
    }

    pub fn message(self) -> (r: String)
        ensures
            r@ == self.spec_message(),
    {
        match self {
            FloatFault::Empty => "cannot parse float from empty string".to_owned(),
            FloatFault::Bad => "invalid float literal".to_owned(),
        }
    }
}

/// Why a text that is no floating-point number is none.
pub open spec fn float_fault(s: Seq<char>) -> FloatFault {
    if s.len() == 0 {
        FloatFault::Empty
    } else {
        FloatFault::Bad
    }
}

fn find_float_fault(s: &str) -> (r: FloatFault)
    ensures
        r == float_fault(s@),
{
    if s.is_empty() {
        FloatFault::Empty
    } else {
        FloatFault::Bad
    }
}

/// Why a command line is refused.
#[derive(Debug)]
pub enum ArgumentError {
    /// An option stands at the end without its value.
    MissingValue(&'static str),
    /// A text is no whole number that fits.
    BadNumber(NumberFault),
    /// A text is no number.
    BadFloat(FloatFault),
    Unexpected(&'static str),
    KeyAndSearch,
    MissingInput,
    MissingOutput,
    /// A write to a variable has no equals sign.
    BadWrite,
    EmptyName,
}

/// An `ArgumentError` by its characters.
pub enum ArgumentFault {
    MissingValue(Seq<char>),
    BadNumber(NumberFault),
    BadFloat(FloatFault),
    Unexpected(Seq<char>),
    KeyAndSearch,
    MissingInput,
    MissingOutput,
    BadWrite,
    EmptyName,
}

impl View for ArgumentError {
    type V = ArgumentFault;

    open spec fn view(&self) -> ArgumentFault {
        match self {
            ArgumentError::MissingValue(s) => ArgumentFault::MissingValue(s@),
            ArgumentError::BadNumber(f) => ArgumentFault::BadNumber(*f),
            ArgumentError::BadFloat(f) => ArgumentFault::BadFloat(*f),
            ArgumentError::Unexpected(s) => ArgumentFault::Unexpected(s@),
            ArgumentError::KeyAndSearch => ArgumentFault::KeyAndSearch,
            ArgumentError::MissingInput => ArgumentFault::MissingInput,
            ArgumentError::MissingOutput => ArgumentFault::MissingOutput,
            ArgumentError::BadWrite => ArgumentFault::BadWrite,
            ArgumentError::EmptyName => ArgumentFault::EmptyName,
        }
    }
}

impl ArgumentFault {
    /// The message for users.
    pub open spec fn message(self) -> Seq<char> {
        match self {
            ArgumentFault::MissingValue(s) => s,
            ArgumentFault::BadNumber(f) => f.spec_message(),
            ArgumentFault::BadFloat(f) => f.spec_message(),
            ArgumentFault::Unexpected(s) => s,
            ArgumentFault::KeyAndSearch => "--bruteforce-key and --key are mutually exclusive"@,
            ArgumentFault::MissingInput => "missing --input"@,
            ArgumentFault::MissingOutput => "missing --output"@,
            ArgumentFault::BadWrite => "variable write must be name=value or name=value,time,easing"@,
            ArgumentFault::EmptyName => "variable name is empty"@,
        }
    }
}

impl ArgumentError {
    /// The message for users.
    pub fn message(&self) -> (r: String)
        ensures
            r@ == self@.message(),
    {
        match self {
            ArgumentError::MissingValue(s) => (*s).to_owned(),
            ArgumentError::BadNumber(f) => f.message(),
            ArgumentError::BadFloat(f) => f.message(),
            ArgumentError::Unexpected(s) => (*s).to_owned(),
            ArgumentError::KeyAndSearch => {
                "--bruteforce-key and --key are mutually exclusive".to_owned()
            },
            ArgumentError::MissingInput => "missing --input".to_owned(),
            ArgumentError::MissingOutput => "missing --output".to_owned(),
            ArgumentError::BadWrite => {
                "variable write must be name=value or name=value,time,easing".to_owned()
            },
            ArgumentError::EmptyName => "variable name is empty".to_owned(),
        }
    }
}

/// Reads a whole number as users write it, of at most 32 bits.
pub fn parse_u32_value(value: &str) -> (r: Result<u32, ArgumentError>)
    ensures
        match user_number(value@, u32::MAX as nat) {
            Some(n) => r is Ok && r->Ok_0 == n,
            None => r is Err && r->Err_0@ == ArgumentFault::BadNumber(
                user_fault(value@, u32::MAX as nat),
            ),
        },
{
    match parse_user_number(value, u32::MAX as u64) {
        Some(n) => {
            assert(n <= u32::MAX);
            Ok(n as u32)
        },
        None => Err(ArgumentError::BadNumber(find_user_fault(value, u32::MAX as u64))),
    }
}

/// Reads a whole number as users write it, of at most a machine word.
pub fn parse_usize_value(value: &str) -> (r: Result<usize, ArgumentError>)
    ensures
        match user_number(value@, usize::MAX as nat) {
            Some(n) => r is Ok && r->Ok_0 == n,
            None => r is Err && r->Err_0@ == ArgumentFault::BadNumber(
                user_fault(value@, usize::MAX as nat),
            ),
        },
{
    match parse_user_number(value, usize::MAX as u64) {
        Some(n) => {
            assert(n <= usize::MAX);
            Ok(n as usize)
        },
        None => Err(ArgumentError::BadNumber(find_user_fault(value, usize::MAX as u64))),
    }
}

/// What an option finds at a place of a command line: nothing, itself without a
/// value, or its value, which is the next argument or what stands behind an equals
/// sign, and the number of arguments that it takes up.
pub enum Seen {
    Not,
    Missing,
    Value { text: Seq<char>, path: PathText, used: int },
}

pub open spec fn seen(args: Seq<Seq<char>>, i: int, name: Seq<char>) -> Seen {
    if args[i] == name {
        if i + 1 < args.len() {
            Seen::Value {
                text: args[i + 1],
                path: PathText::Argument((i + 1) as usize),
                used: 2,
            }
        } else {
            Seen::Missing
        }
    } else {
        match stripped(args[i], name + "="@) {
            Some(text) => Seen::Value { text, path: PathText::Text(text), used: 1 },
            None => Seen::Not,
        }
    }
}

enum SeenArg {
    Not,
    Missing,
    Value { text: String, path: PathArg, used: usize },
}

impl View for SeenArg {
    type V = Seen;

    closed spec fn view(&self) -> Seen {
        match self {
            SeenArg::Not => Seen::Not,
            SeenArg::Missing => Seen::Missing,
            SeenArg::Value { text, path, used } => Seen::Value {
                text: text@,
                path: path@,
                used: *used as int,
            },
        }
    }
}

fn see(args: &Vec<String>, i: usize, name: &str) -> (r: SeenArg)
    requires
        i < args@.len(),
    ensures
        r@ == seen(texts(args@), i as int, name@),
        r matches SeenArg::Value { used, .. } ==> 0 < used && i + used <= args@.len(),
{
    let text = args[i].as_str();
    if same_text(text, name) {
        if args.len() - i > 1 {
            SeenArg::Value {
                text: args[i + 1].clone(),
                path: PathArg::Argument(i + 1),
                used: 2,
            }
        } else {
            SeenArg::Missing
        }
    } else {
        let mut head = name.to_owned();
        head.append("=");
        match strip_prefix(text, head.as_str()) {
            Some(value) => {
                let copy = value.clone();
                SeenArg::Value { text: value, path: PathArg::Text(copy), used: 1 }
            },
            None => SeenArg::Not,
        }
    }
}

/// What becomes of an argument: the command line goes on behind it, help is asked
/// for, or the argument is refused.
pub enum Step<T> {
    Go(T, int),
    Help,
    Refused(ArgumentFault),
}

/// What a command line asks of the extraction of a document.
#[derive(Debug)]
pub struct ExtractOptions {
    pub input: Option<PathArg>,
    pub output_dir: Option<PathArg>,
    pub key: Option<u32>,
    pub decode_mdf: bool,
    pub decode_lz4: bool,
    pub write_root: bool,
    pub write_resources: bool,
    pub write_schema: bool,
    pub write_normalized: bool,
    pub write_emote_schema: bool,
    pub bruteforce_key: bool,
    pub bruteforce_threads: usize,
    pub bruteforce_start: u32,
    pub bruteforce_end: u32,
}

/// `ExtractOptions` by their characters.
pub struct Extraction {
    pub input: Option<PathText>,
    pub output_dir: Option<PathText>,
    pub key: Option<u32>,
    pub decode_mdf: bool,
    pub decode_lz4: bool,
    pub write_root: bool,
    pub write_resources: bool,
    pub write_schema: bool,
    pub write_normalized: bool,
    pub write_emote_schema: bool,
    pub bruteforce_key: bool,
    pub bruteforce_threads: usize,
    pub bruteforce_start: u32,
    pub bruteforce_end: u32,
}

impl View for ExtractOptions {
    type V = Extraction;

    open spec fn view(&self) -> Extraction {
        Extraction {
            input: opt_path(self.input),
            output_dir: opt_path(self.output_dir),
            key: self.key,
            decode_mdf: self.decode_mdf,
            decode_lz4: self.decode_lz4,
            write_root: self.write_root,
            write_resources: self.write_resources,
            write_schema: self.write_schema,
            write_normalized: self.write_normalized,
            write_emote_schema: self.write_emote_schema,
            bruteforce_key: self.bruteforce_key,
            bruteforce_threads: self.bruteforce_threads,
            bruteforce_start: self.bruteforce_start,
            bruteforce_end: self.bruteforce_end,
        }
    }
}

impl Extraction {
    /// Before the first argument.
    pub open spec fn start() -> Extraction {
        Extraction {
            input: None,
            output_dir: None,
            key: None,
            decode_mdf: true,
            decode_lz4: true,
            write_root: true,
            write_resources: true,
            write_schema: false,
            write_normalized: false,
            write_emote_schema: false,
            bruteforce_key: false,
            bruteforce_threads: 0,
            bruteforce_start: 0,
            bruteforce_end: u32::MAX,
        }
    }

    /// How raw input is turned into a plain document.
    pub open spec fn normalize(self) -> PsbNormalizeOptions {
        PsbNormalizeOptions {
            decrypt_key: match self.key {
                Some(key) => Some(PsbDecryptionKey::emote_key(key)),
                None => None,
            },
            decode_mdf: self.decode_mdf,
            decode_lz4: self.decode_lz4,
        }
    }

    /// An argument that takes no value.
    pub open spec fn flagged(self, text: Seq<char>, i: int) -> Step<Extraction> {
        if text == "--no-root"@ {
            Step::Go(Extraction { write_root: false, ..self }, i + 1)
        } else if text == "--no-resources"@ {
            Step::Go(Extraction { write_resources: false, ..self }, i + 1)
        } else if text == "--schema"@ {
            Step::Go(Extraction { write_schema: true, ..self }, i + 1)
        } else if text == "--write-normalized"@ {
            Step::Go(Extraction { write_normalized: true, ..self }, i + 1)
        } else if text == "--emote-schema"@ {
            Step::Go(Extraction { write_emote_schema: true, ..self }, i + 1)
        } else if text == "--no-mdf"@ {
            Step::Go(Extraction { decode_mdf: false, ..self }, i + 1)
        } else if text == "--no-lz4"@ {
            Step::Go(Extraction { decode_lz4: false, ..self }, i + 1)
        } else if text == "--bruteforce-key"@ {
            Step::Go(Extraction { bruteforce_key: true, ..self }, i + 1)
        } else {
            Step::Refused(
                ArgumentFault::Unexpected("unexpected argument; use --input <path> --output <dir>"@),
            )
        }
    }

    /// An argument that names a number of the search for a key, or none.
    pub open spec fn numbered(self, args: Seq<Seq<char>>, i: int) -> Step<Extraction> {
        match seen(args, i, "--bruteforce-threads"@) {
            Seen::Value { text, path, used } => match user_number(text, usize::MAX as nat) {
                Some(n) => Step::Go(
                    Extraction { bruteforce_threads: n as usize, ..self },
                    i + used,
                ),
                None => Step::Refused(ArgumentFault::BadNumber(user_fault(text, usize::MAX as nat))),
            },
            Seen::Missing => Step::Refused(ArgumentFault::MissingValue("--bruteforce-threads"@)),
            Seen::Not => match seen(args, i, "--bruteforce-start"@) {
                Seen::Value { text, path, used } => match user_number(text, u32::MAX as nat) {
                    Some(n) => Step::Go(
                        Extraction { bruteforce_start: n as u32, ..self },
                        i + used,
                    ),
                    None => Step::Refused(ArgumentFault::BadNumber(user_fault(text, u32::MAX as nat))),
                },
                Seen::Missing => Step::Refused(ArgumentFault::MissingValue("--bruteforce-start"@)),
                Seen::Not => match seen(args, i, "--bruteforce-end"@) {
                    Seen::Value { text, path, used } => match user_number(text, u32::MAX as nat) {
                        Some(n) => Step::Go(
                            Extraction { bruteforce_end: n as u32, ..self },
                            i + used,
                        ),
                        None => Step::Refused(ArgumentFault::BadNumber(user_fault(text, u32::MAX as nat))),
                    },
                    Seen::Missing => Step::Refused(
                        ArgumentFault::MissingValue("--bruteforce-end"@),
                    ),
                    Seen::Not => self.flagged(args[i], i),
                },
            },
        }
    }

    /// One argument of a command line.
    pub open spec fn step(self, args: Seq<Seq<char>>, i: int) -> Step<Extraction> {
        if args[i] == "-h"@ || args[i] == "--help"@ {
            Step::Help
        } else {
            match seen(args, i, "--input"@) {
                Seen::Value { text, path, used } => Step::Go(
                    Extraction { input: Some(path), ..self },
                    i + used,
                ),
                Seen::Missing => Step::Refused(ArgumentFault::MissingValue("--input"@)),
                Seen::Not => match seen(args, i, "--output"@) {
                    Seen::Value { text, path, used } => Step::Go(
                        Extraction { output_dir: Some(path), ..self },
                        i + used,
                    ),
                    Seen::Missing => Step::Refused(ArgumentFault::MissingValue("--output"@)),
                    Seen::Not => match seen(args, i, "--key"@) {
                        Seen::Value { text, path, used } => match user_number(
                            text,
                            u32::MAX as nat,
                        ) {
                            Some(n) => Step::Go(
                                Extraction { key: Some(n as u32), ..self },
                                i + used,
                            ),
                            None => Step::Refused(ArgumentFault::BadNumber(user_fault(text, u32::MAX as nat))),
                        },
                        Seen::Missing => Step::Refused(ArgumentFault::MissingValue("--key"@)),
                        Seen::Not => self.numbered(args, i),
                    },
                },
            }
        }
    }

    /// What must hold of a whole command line.
    pub open spec fn fault(self) -> Option<ArgumentFault> {
        if self.bruteforce_key && self.key is Some {
            Some(ArgumentFault::KeyAndSearch)
        } else if self.input is None {
            Some(ArgumentFault::MissingInput)
        } else if !self.bruteforce_key && self.output_dir is None {
            Some(ArgumentFault::MissingOutput)
        } else {
            None
        }
    }
}

/// What a command line comes to: help, options or a refusal.
pub enum Outcome<T> {
    Help,
    Options(T),
    Refused(ArgumentFault),
}

/// The rest of a command line from an argument on.
pub open spec fn extraction_from(o: Extraction, args: Seq<Seq<char>>, i: int) -> Outcome<Extraction>
    decreases args.len() - i,
{
    if i >= args.len() {
        match o.fault() {
            Some(fault) => Outcome::Refused(fault),
            None => Outcome::Options(o),
        }
    } else {
        match o.step(args, i) {
            Step::Help => Outcome::Help,
            Step::Refused(fault) => Outcome::Refused(fault),
            Step::Go(next, j) => if j > i {
                extraction_from(next, args, j)
            } else {
                Outcome::Help
            },
        }
    }
}

/// What an argument did to options that are read.
enum Taken {
    Up(usize),
    Help,
}

impl ExtractOptions {
    fn start() -> (r: ExtractOptions)
        ensures
            r@ == Extraction::start(),
    {
        ExtractOptions {
            input: None,
            output_dir: None,
            key: None,
            decode_mdf: true,
            decode_lz4: true,
            write_root: true,
            write_resources: true,
            write_schema: false,
            write_normalized: false,
            write_emote_schema: false,
            bruteforce_key: false,
            bruteforce_threads: 0,
            bruteforce_start: 0,
            bruteforce_end: u32::MAX,
        }
    }

    /// How raw input is turned into a plain document.
    pub fn normalize(&self) -> (r: PsbNormalizeOptions)
        ensures
            r == self@.normalize(),
    {
        PsbNormalizeOptions {
            decrypt_key: match self.key {
                Some(key) => Some(PsbDecryptionKey::emote_key(key)),
                None => None,
            },
            decode_mdf: self.decode_mdf,
            decode_lz4: self.decode_lz4,
        }
    }

    fn take_flag(&mut self, text: &str) -> (r: Result<Taken, ArgumentError>)
        ensures
            forall|i: int|
                took(r, i, final(self)@, #[trigger] old(self)@.flagged(text@, i)),
    {
        if same_text(text, "--no-root") {
            self.write_root = false;
        } else if same_text(text, "--no-resources") {
            self.write_resources = false;
        } else if same_text(text, "--schema") {
            self.write_schema = true;
        } else if same_text(text, "--write-normalized") {
            self.write_normalized = true;
        } else if same_text(text, "--emote-schema") {
            self.write_emote_schema = true;
        } else if same_text(text, "--no-mdf") {
            self.decode_mdf = false;
        } else if same_text(text, "--no-lz4") {
            self.decode_lz4 = false;
        } else if same_text(text, "--bruteforce-key") {
            self.bruteforce_key = true;
        } else {
            return Err(
                ArgumentError::Unexpected("unexpected argument; use --input <path> --output <dir>"),
            );
        }
        Ok(Taken::Up(1))
    }

    fn take_number(&mut self, args: &Vec<String>, i: usize) -> (r: Result<Taken, ArgumentError>)
        requires
            i < args@.len(),
        ensures
            took(r, i as int, final(self)@, old(self)@.numbered(texts(args@), i as int)),
            r matches Ok(Taken::Up(used)) ==> 0 < used && i + used <= args@.len(),
    {
        match see(args, i, "--bruteforce-threads") {
            SeenArg::Value { text, path: _, used } => {
                return match parse_usize_value(text.as_str()) {
                    Ok(n) => {
                        self.bruteforce_threads = n;
                        Ok(Taken::Up(used))
                    },
                    Err(e) => Err(e),
                };
            },
            SeenArg::Missing => {
                return Err(ArgumentError::MissingValue("--bruteforce-threads"));
            },
            SeenArg::Not => {},
        }
        match see(args, i, "--bruteforce-start") {
            SeenArg::Value { text, path: _, used } => {
                return match parse_u32_value(text.as_str()) {
                    Ok(n) => {
                        self.bruteforce_start = n;
                        Ok(Taken::Up(used))
                    },
                    Err(e) => Err(e),
                };
            },
            SeenArg::Missing => {
                return Err(ArgumentError::MissingValue("--bruteforce-start"));
            },
            SeenArg::Not => {},
        }
        match see(args, i, "--bruteforce-end") {
            SeenArg::Value { text, path: _, used } => {
                return match parse_u32_value(text.as_str()) {
                    Ok(n) => {
                        self.bruteforce_end = n;
                        Ok(Taken::Up(used))
                    },
                    Err(e) => Err(e),
                };
            },
            SeenArg::Missing => {
                return Err(ArgumentError::MissingValue("--bruteforce-end"));
            },
            SeenArg::Not => {},
        }
        let text = args[i].as_str();
        let ghost before = self@;
        let r = self.take_flag(text);
        assert(took(r, i as int, self@, before.flagged(text@, i as int)));
        r
    }

    fn take(&mut self, args: &Vec<String>, i: usize) -> (r: Result<Taken, ArgumentError>)
        requires
            i < args@.len(),
        ensures
            took(r, i as int, final(self)@, old(self)@.step(texts(args@), i as int)),
            r matches Ok(Taken::Up(used)) ==> 0 < used && i + used <= args@.len(),
    {
        if same_text(args[i].as_str(), "-h") || same_text(args[i].as_str(), "--help") {
            return Ok(Taken::Help);
        }
        match see(args, i, "--input") {
            SeenArg::Value { text: _, path, used } => {
                self.input = Some(path);
                return Ok(Taken::Up(used));
            },
            SeenArg::Missing => {
                return Err(ArgumentError::MissingValue("--input"));
            },
            SeenArg::Not => {},
        }
        match see(args, i, "--output") {
            SeenArg::Value { text: _, path, used } => {
                self.output_dir = Some(path);
                return Ok(Taken::Up(used));
            },
            SeenArg::Missing => {
                return Err(ArgumentError::MissingValue("--output"));
            },
            SeenArg::Not => {},
        }
        match see(args, i, "--key") {
            SeenArg::Value { text, path: _, used } => {
                return match parse_u32_value(text.as_str()) {
                    Ok(n) => {
                        self.key = Some(n);
                        Ok(Taken::Up(used))
                    },
                    Err(e) => Err(e),
                };
            },
            SeenArg::Missing => {
                return Err(ArgumentError::MissingValue("--key"));
            },
            SeenArg::Not => {},
        }
        self.take_number(args, i)
    }

    /// Reads a command line, without the name of the program. Gives no options where
    /// help is asked for.
    pub fn parse(args: &Vec<String>) -> (r: Result<Option<ExtractOptions>, ArgumentError>)
        ensures
            match r {
                Ok(Some(o)) => extraction_from(Extraction::start(), texts(args@), 0)
                    == Outcome::Options(o@),
                Ok(None) => extraction_from(Extraction::start(), texts(args@), 0) is Help,
                Err(e) => extraction_from(Extraction::start(), texts(args@), 0) == Outcome::<
                    Extraction,
                >::Refused(e@),
            },
    {
        let ghost all = texts(args@);
        let mut o = ExtractOptions::start();
        let mut i: usize = 0;
        while i < args.len()
            invariant
                i <= args@.len(),
                all == texts(args@),
                extraction_from(Extraction::start(), all, 0) == extraction_from(o@, all, i as int),
            decreases args@.len() - i,
        {
            match o.take(args, i) {
                Err(e) => {
                    return Err(e);
                },
                Ok(Taken::Help) => {
                    return Ok(None);
                },
                Ok(Taken::Up(used)) => {
                    i = i + used;
                },
            }
        }
        if o.bruteforce_key && o.key.is_some() {
            return Err(ArgumentError::KeyAndSearch);
        }
        if o.input.is_none() {
            return Err(ArgumentError::MissingInput);
        }
        if !o.bruteforce_key && o.output_dir.is_none() {
            return Err(ArgumentError::MissingOutput);
        }
        Ok(Some(o))
    }
}

/// A write to a variable as users give it: a name, an equals sign and a value, for
/// timed ones a time and an easing behind commas.
pub open spec fn write_of(text: Seq<char>, timed: bool) -> Result<Write, ArgumentFault> {
    let at = first_of(text, '=');
    if at >= text.len() {
        Err(ArgumentFault::BadWrite)
    } else if at == 0 {
        Err(ArgumentFault::EmptyName)
    } else {
        let row = pieces(text.skip(at as int + 1), ',');
        match decimal_number(row[0]) {
            None => Err(ArgumentFault::BadFloat(float_fault(row[0]))),
            Some(value) => {
                let name = text.take(at as int);
                if !timed {
                    Ok(Write { name, value, time_ticks: Single::zero(), easing: Single::zero() })
                } else {
                    let time_text = piece_or_zero(row, 1);
                    let easing_text = piece_or_zero(row, 2);
                    match decimal_number(time_text) {
                        None => Err(ArgumentFault::BadFloat(float_fault(time_text))),
                        Some(time_ticks) => match decimal_number(easing_text) {
                            None => Err(ArgumentFault::BadFloat(float_fault(easing_text))),
                            Some(easing) => Ok(Write { name, value, time_ticks, easing }),
                        },
                    }
                }
            },
        }
    }
}

/// A piece, or a zero where there are too few.
pub open spec fn piece_or_zero(row: Seq<Seq<char>>, i: int) -> Seq<char> {
    if i < row.len() {
        row[i]
    } else {
        "0"@
    }
}

/// Whether a result is what a text comes to.
pub open spec fn is_write(
    r: Result<VariableWrite, ArgumentError>,
    want: Result<Write, ArgumentFault>,
) -> bool {
    match r {
        Ok(w) => want == Ok::<Write, ArgumentFault>(w@),
        Err(e) => want == Err::<Write, ArgumentFault>(e@),
    }
}

fn find_equals(a: &Vec<char>) -> (r: usize)
    ensures
        r == first_of(a@, '='),
        r <= a@.len(),
{
    let mut i: usize = 0;
    assert(a@.skip(0) =~= a@);
    while i < a.len()
        invariant
            i <= a@.len(),
            first_of(a@, '=') == i + first_of(a@.skip(i as int), '='),
        decreases a@.len() - i,
    {
        let ghost rest = a@.skip(i as int);
        assert(rest[0] == a@[i as int]);
        assert(rest.drop_first() =~= a@.skip(i + 1));
        if a[i] == '=' {
            return i;
        }
        i = i + 1;
    }
    i
}

fn find_piece<'a>(row: &'a Vec<String>, i: usize) -> (r: &'a str)
    ensures
        r@ == piece_or_zero(texts(row@), i as int),
{
    if i < row.len() {
        row[i].as_str()
    } else {
        "0"
    }
}

/// Reads a write to a variable.
pub fn parse_variable_write(text: &str, timed: bool) -> (r: Result<VariableWrite, ArgumentError>)
    ensures
        is_write(r, write_of(text@, timed)),
{
    let a = chars_of(text);
    let at = find_equals(&a);
    if at >= a.len() {
        return Err(ArgumentError::BadWrite);
    }
    if at == 0 {
        return Err(ArgumentError::EmptyName);
    }
    let name = text_of(&a, 0, at);
    let rest = text_of(&a, at + 1, a.len());
    assert(name@ =~= text@.take(at as int));
    assert(rest@ =~= text@.skip(at + 1));
    let row = split(rest.as_str(), ',');
    proof {
        lemma_pieces_len(rest@, ',');
    }
    let first = row[0].as_str();
    let value = match parse_single(first) {
        Some(v) => v,
        None => {
            return Err(ArgumentError::BadFloat(find_float_fault(first)));
        },
    };
    if !timed {
        return Ok(VariableWrite::immediate(name.as_str(), value));
    }
    let time_text = find_piece(&row, 1);
    let time = match parse_single(time_text) {
        Some(v) => v,
        None => {
            return Err(ArgumentError::BadFloat(find_float_fault(time_text)));
        },
    };
    let easing_text = find_piece(&row, 2);
    let easing = match parse_single(easing_text) {
        Some(v) => v,
        None => {
            return Err(ArgumentError::BadFloat(find_float_fault(easing_text)));
        },
    };
    Ok(VariableWrite::timed(name.as_str(), value, time, easing))
}

/// What a command line asks of the player.
#[derive(Debug)]
pub struct PlayerOptions {
    pub input: Option<PathArg>,
    pub key: Option<u32>,
    pub decode_mdf: bool,
    pub decode_lz4: bool,
    pub motion: Option<String>,
    pub timeline: Option<String>,
    pub timeline_time: Option<Single>,
    pub no_timeline: bool,
    pub initial_writes: Vec<VariableWrite>,
    pub control_variable: Option<String>,
    pub dump_frames: Option<PathArg>,
    pub gpu_dump: Option<PathArg>,
    pub debug_frames: bool,
}

/// `PlayerOptions` by their characters.
#[verifier::ext_equal]
pub struct Playing {
    pub input: Option<PathText>,
    pub key: Option<u32>,
    pub decode_mdf: bool,
    pub decode_lz4: bool,
    pub motion: Option<Seq<char>>,
    pub timeline: Option<Seq<char>>,
    pub timeline_time: Option<Single>,
    pub no_timeline: bool,
    pub initial_writes: Seq<Write>,
    pub control_variable: Option<Seq<char>>,
    pub dump_frames: Option<PathText>,
    pub gpu_dump: Option<PathText>,
    pub debug_frames: bool,
}

impl View for PlayerOptions {
    type V = Playing;

    open spec fn view(&self) -> Playing {
        Playing {
            input: opt_path(self.input),
            key: self.key,
            decode_mdf: self.decode_mdf,
            decode_lz4: self.decode_lz4,
            motion: opt_string(self.motion),
            timeline: opt_string(self.timeline),
            timeline_time: self.timeline_time,
            no_timeline: self.no_timeline,
            initial_writes: views(self.initial_writes@),
            control_variable: opt_string(self.control_variable),
            dump_frames: opt_path(self.dump_frames),
            gpu_dump: opt_path(self.gpu_dump),
            debug_frames: self.debug_frames,
        }
    }
}

impl Playing {
    /// Before the first argument.
    pub open spec fn start() -> Playing {
        Playing {
            input: None,
            key: None,
            decode_mdf: true,
            decode_lz4: true,
            motion: None,
            timeline: None,
            timeline_time: None,
            no_timeline: false,
            initial_writes: Seq::empty(),
            control_variable: None,
            dump_frames: None,
            gpu_dump: None,
            debug_frames: false,
        }
    }

    /// How raw input is turned into a plain document.
    pub open spec fn normalize(self) -> PsbNormalizeOptions {
        PsbNormalizeOptions {
            decrypt_key: match self.key {
                Some(key) => Some(PsbDecryptionKey::emote_key(key)),
                None => None,
            },
            decode_mdf: self.decode_mdf,
            decode_lz4: self.decode_lz4,
        }
    }

    /// An argument that takes no value. The first one without a dash in front is the
    /// input, where there is none yet.
    pub open spec fn flagged(self, text: Seq<char>, i: int) -> Step<Playing> {
        if text == "--no-timeline"@ {
            Step::Go(Playing { no_timeline: true, ..self }, i + 1)
        } else if text == "--debug-frames"@ {
            Step::Go(Playing { debug_frames: true, ..self }, i + 1)
        } else if text == "--no-mdf"@ {
            Step::Go(Playing { decode_mdf: false, ..self }, i + 1)
        } else if text == "--no-lz4"@ {
            Step::Go(Playing { decode_lz4: false, ..self }, i + 1)
        } else if !"-"@.is_prefix_of(text) && self.input is None {
            Step::Go(Playing { input: Some(PathText::Text(text)), ..self }, i + 1)
        } else {
            Step::Refused(ArgumentFault::Unexpected("unexpected argument; use --input <model.psb>"@))
        }
    }

    /// An argument that writes a variable, or none.
    pub open spec fn writing(self, args: Seq<Seq<char>>, i: int) -> Step<Playing> {
        match seen(args, i, "--set"@) {
            Seen::Value { text, path, used } => match write_of(text, false) {
                Ok(w) => Step::Go(
                    Playing { initial_writes: self.initial_writes.push(w), ..self },
                    i + used,
                ),
                Err(e) => Step::Refused(e),
            },
            Seen::Missing => Step::Refused(ArgumentFault::MissingValue("--set"@)),
            Seen::Not => match seen(args, i, "--set-timed"@) {
                Seen::Value { text, path, used } => match write_of(text, true) {
                    Ok(w) => Step::Go(
                        Playing { initial_writes: self.initial_writes.push(w), ..self },
                        i + used,
                    ),
                    Err(e) => Step::Refused(e),
                },
                Seen::Missing => Step::Refused(ArgumentFault::MissingValue("--set-timed"@)),
                Seen::Not => match seen(args, i, "--key"@) {
                    Seen::Value { text, path, used } => match user_number(text, u32::MAX as nat) {
                        Some(n) => Step::Go(Playing { key: Some(n as u32), ..self }, i + used),
                        None => Step::Refused(ArgumentFault::BadNumber(user_fault(text, u32::MAX as nat))),
                    },
                    Seen::Missing => Step::Refused(ArgumentFault::MissingValue("--key"@)),
                    Seen::Not => self.flagged(args[i], i),
                },
            },
        }
    }

    /// An argument that names a place to write to, a time or a variable, or none.
    pub open spec fn named(self, args: Seq<Seq<char>>, i: int) -> Step<Playing> {
        match seen(args, i, "--timeline-time"@) {
            Seen::Value { text, path, used } => match decimal_number(text) {
                Some(x) => Step::Go(Playing { timeline_time: Some(x), ..self }, i + used),
                None => Step::Refused(ArgumentFault::BadFloat(float_fault(text))),
            },
            Seen::Missing => Step::Refused(ArgumentFault::MissingValue("--timeline-time"@)),
            Seen::Not => match seen(args, i, "--control-variable"@) {
                Seen::Value { text, path, used } => Step::Go(
                    Playing { control_variable: Some(text), ..self },
                    i + used,
                ),
                Seen::Missing => Step::Refused(ArgumentFault::MissingValue("--control-variable"@)),
                Seen::Not => match seen(args, i, "--dump-frames"@) {
                    Seen::Value { text, path, used } => Step::Go(
                        Playing { dump_frames: Some(path), ..self },
                        i + used,
                    ),
                    Seen::Missing => Step::Refused(ArgumentFault::MissingValue("--dump-frames"@)),
                    Seen::Not => match seen(args, i, "--gpu-dump"@) {
                        Seen::Value { text, path, used } => Step::Go(
                            Playing { gpu_dump: Some(path), ..self },
                            i + used,
                        ),
                        Seen::Missing => Step::Refused(ArgumentFault::MissingValue("--gpu-dump"@)),
                        Seen::Not => self.writing(args, i),
                    },
                },
            },
        }
    }

    /// One argument of a command line.
    pub open spec fn step(self, args: Seq<Seq<char>>, i: int) -> Step<Playing> {
        if args[i] == "-h"@ || args[i] == "--help"@ {
            Step::Help
        } else {
            match seen(args, i, "--input"@) {
                Seen::Value { text, path, used } => Step::Go(
                    Playing { input: Some(path), ..self },
                    i + used,
                ),
                Seen::Missing => Step::Refused(ArgumentFault::MissingValue("--input"@)),
                Seen::Not => match seen(args, i, "--motion"@) {
                    Seen::Value { text, path, used } => Step::Go(
                        Playing { motion: Some(text), ..self },
                        i + used,
                    ),
                    Seen::Missing => Step::Refused(ArgumentFault::MissingValue("--motion"@)),
                    Seen::Not => match seen(args, i, "--timeline"@) {
                        Seen::Value { text, path, used } => Step::Go(
                            Playing { timeline: Some(text), ..self },
                            i + used,
                        ),
                        Seen::Missing => Step::Refused(ArgumentFault::MissingValue("--timeline"@)),
                        Seen::Not => self.named(args, i),
                    },
                },
            }
        }
    }
}

/// The rest of a command line from an argument on.
pub open spec fn playing_from(o: Playing, args: Seq<Seq<char>>, i: int) -> Outcome<Playing>
    decreases args.len() - i,
{
    if i >= args.len() {
        Outcome::Options(o)
    } else {
        match o.step(args, i) {
            Step::Help => Outcome::Help,
            Step::Refused(fault) => Outcome::Refused(fault),
            Step::Go(next, j) => if j > i {
                playing_from(next, args, j)
            } else {
                Outcome::Help
            },
        }
    }
}

impl PlayerOptions {
    fn start() -> (r: PlayerOptions)
        ensures
            r@ == Playing::start(),
    {
        let r = PlayerOptions {
            input: None,
            key: None,
            decode_mdf: true,
            decode_lz4: true,
            motion: None,
            timeline: None,
            timeline_time: None,
            no_timeline: false,
            initial_writes: Vec::new(),
            control_variable: None,
            dump_frames: None,
            gpu_dump: None,
            debug_frames: false,
        };
        assert(r@.initial_writes =~= Seq::<Write>::empty());
        r
    }

    /// How raw input is turned into a plain document.
    pub fn normalize(&self) -> (r: PsbNormalizeOptions)
        ensures
            r == self@.normalize(),
    {
        PsbNormalizeOptions {
            decrypt_key: match self.key {
                Some(key) => Some(PsbDecryptionKey::emote_key(key)),
                None => None,
            },
            decode_mdf: self.decode_mdf,
            decode_lz4: self.decode_lz4,
        }
    }

    fn take_flag(&mut self, text: &str) -> (r: Result<Taken, ArgumentError>)
        ensures
            forall|i: int|
                took(r, i, final(self)@, #[trigger] old(self)@.flagged(text@, i)),
            r matches Ok(Taken::Up(used)) ==> used == 1,
    {
        if same_text(text, "--no-timeline") {
            self.no_timeline = true;
        } else if same_text(text, "--debug-frames") {
            self.debug_frames = true;
        } else if same_text(text, "--no-mdf") {
            self.decode_mdf = false;
        } else if same_text(text, "--no-lz4") {
            self.decode_lz4 = false;
        } else if !starts_with(text, "-") && self.input.is_none() {
            self.input = Some(PathArg::Text(text.to_owned()));
        } else {
            return Err(ArgumentError::Unexpected("unexpected argument; use --input <model.psb>"));
        }
        Ok(Taken::Up(1))
    }

    fn add_write(&mut self, text: &str, timed: bool) -> (r: Result<(), ArgumentError>)
        ensures
            match write_of(text@, timed) {
                Ok(w) => r is Ok && final(self)@ == (Playing {
                    initial_writes: old(self)@.initial_writes.push(w),
                    ..old(self)@
                }),
                Err(e) => r is Err && r->Err_0@ == e,
            },
    {
        match parse_variable_write(text, timed) {
            Ok(w) => {
                let ghost was = self@.initial_writes;
                self.initial_writes.push(w);
                assert(self@.initial_writes =~= was.push(w@));
                Ok(())
            },
            Err(e) => Err(e),
        }
    }

    fn take_write(&mut self, args: &Vec<String>, i: usize) -> (r: Result<Taken, ArgumentError>)
        requires
            i < args@.len(),
        ensures
            took(r, i as int, final(self)@, old(self)@.writing(texts(args@), i as int)),
            r matches Ok(Taken::Up(used)) ==> 0 < used && i + used <= args@.len(),
    {
        match see(args, i, "--set") {
            SeenArg::Value { text, path: _, used } => {
                return match self.add_write(text.as_str(), false) {
                    Ok(()) => Ok(Taken::Up(used)),
                    Err(e) => Err(e),
                };
            },
            SeenArg::Missing => {
                return Err(ArgumentError::MissingValue("--set"));
            },
            SeenArg::Not => {},
        }
        match see(args, i, "--set-timed") {
            SeenArg::Value { text, path: _, used } => {
                return match self.add_write(text.as_str(), true) {
                    Ok(()) => Ok(Taken::Up(used)),
                    Err(e) => Err(e),
                };
            },
            SeenArg::Missing => {
                return Err(ArgumentError::MissingValue("--set-timed"));
            },
            SeenArg::Not => {},
        }
        match see(args, i, "--key") {
            SeenArg::Value { text, path: _, used } => {
                return match parse_u32_value(text.as_str()) {
                    Ok(n) => {
                        self.key = Some(n);
                        Ok(Taken::Up(used))
                    },
                    Err(e) => Err(e),
                };
            },
            SeenArg::Missing => {
                return Err(ArgumentError::MissingValue("--key"));
            },
            SeenArg::Not => {},
        }
        let text = args[i].as_str();
        let ghost before = self@;
        let r = self.take_flag(text);
        assert(took(r, i as int, self@, before.flagged(text@, i as int)));
        r
    }

    fn take_named(&mut self, args: &Vec<String>, i: usize) -> (r: Result<Taken, ArgumentError>)
        requires
            i < args@.len(),
        ensures
            took(r, i as int, final(self)@, old(self)@.named(texts(args@), i as int)),
            r matches Ok(Taken::Up(used)) ==> 0 < used && i + used <= args@.len(),
    {
        match see(args, i, "--timeline-time") {
            SeenArg::Value { text, path: _, used } => {
                return match parse_single(text.as_str()) {
                    Some(x) => {
                        self.timeline_time = Some(x);
                        Ok(Taken::Up(used))
                    },
                    None => Err(ArgumentError::BadFloat(find_float_fault(text.as_str()))),
                };
            },
            SeenArg::Missing => {
                return Err(ArgumentError::MissingValue("--timeline-time"));
            },
            SeenArg::Not => {},
        }
        match see(args, i, "--control-variable") {
            SeenArg::Value { text, path: _, used } => {
                self.control_variable = Some(text);
                return Ok(Taken::Up(used));
            },
            SeenArg::Missing => {
                return Err(ArgumentError::MissingValue("--control-variable"));
            },
            SeenArg::Not => {},
        }
        match see(args, i, "--dump-frames") {
            SeenArg::Value { text: _, path, used } => {
                self.dump_frames = Some(path);
                return Ok(Taken::Up(used));
            },
            SeenArg::Missing => {
                return Err(ArgumentError::MissingValue("--dump-frames"));
            },
            SeenArg::Not => {},
        }
        match see(args, i, "--gpu-dump") {
            SeenArg::Value { text: _, path, used } => {
                self.gpu_dump = Some(path);
                return Ok(Taken::Up(used));
            },
            SeenArg::Missing => {
                return Err(ArgumentError::MissingValue("--gpu-dump"));
            },
            SeenArg::Not => {},
        }
        self.take_write(args, i)
    }

    fn take(&mut self, args: &Vec<String>, i: usize) -> (r: Result<Taken, ArgumentError>)
        requires
            i < args@.len(),
        ensures
            took(r, i as int, final(self)@, old(self)@.step(texts(args@), i as int)),
            r matches Ok(Taken::Up(used)) ==> 0 < used && i + used <= args@.len(),
    {
        if same_text(args[i].as_str(), "-h") || same_text(args[i].as_str(), "--help") {
            return Ok(Taken::Help);
        }
        match see(args, i, "--input") {
            SeenArg::Value { text: _, path, used } => {
                self.input = Some(path);
                return Ok(Taken::Up(used));
            },
            SeenArg::Missing => {
                return Err(ArgumentError::MissingValue("--input"));
            },
            SeenArg::Not => {},
        }
        match see(args, i, "--motion") {
            SeenArg::Value { text, path: _, used } => {
                self.motion = Some(text);
                return Ok(Taken::Up(used));
            },
            SeenArg::Missing => {
                return Err(ArgumentError::MissingValue("--motion"));
            },
            SeenArg::Not => {},
        }
        match see(args, i, "--timeline") {
            SeenArg::Value { text, path: _, used } => {
                self.timeline = Some(text);
                return Ok(Taken::Up(used));
            },
            SeenArg::Missing => {
                return Err(ArgumentError::MissingValue("--timeline"));
            },
            SeenArg::Not => {},
        }
        self.take_named(args, i)
    }

    /// Reads a command line, without the name of the program. Gives no options where
    /// help is asked for.
    pub fn parse(args: &Vec<String>) -> (r: Result<Option<PlayerOptions>, ArgumentError>)
        ensures
            match r {
                Ok(Some(o)) => playing_from(Playing::start(), texts(args@), 0) == Outcome::Options(
                    o@,
                ),
                Ok(None) => playing_from(Playing::start(), texts(args@), 0) is Help,
                Err(e) => playing_from(Playing::start(), texts(args@), 0) == Outcome::<
                    Playing,
                >::Refused(e@),
            },
    {
        let ghost all = texts(args@);
        let mut o = PlayerOptions::start();
        let mut i: usize = 0;
        while i < args.len()
            invariant
                i <= args@.len(),
                all == texts(args@),
                playing_from(Playing::start(), all, 0) == playing_from(o@, all, i as int),
            decreases args@.len() - i,
        {
            match o.take(args, i) {
                Err(e) => {
                    return Err(e);
                },
                Ok(Taken::Help) => {
                    return Ok(None);
                },
                Ok(Taken::Up(used)) => {
                    i = i + used;
                },
            }
        }
        Ok(Some(o))
    }
}

/// Whether a reader did what an argument comes to.
spec fn took<T>(r: Result<Taken, ArgumentError>, i: int, after: T, step: Step<T>) -> bool {
    match r {
        Ok(Taken::Up(used)) => step == Step::Go(after, i + used),
        Ok(Taken::Help) => step is Help,
        Err(e) => step == Step::<T>::Refused(e@),
    }
}

} // verus!
