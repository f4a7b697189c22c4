//! Command-line interface: argument parsing, format auto-detection, and the
//! messages and exit codes of a run.
//!
//! Exit codes follow GNU sort where it has an opinion: `0` success (or
//! `--check` passed), `1` `--check` found disorder or a duplicate, `2`
//! usage or data errors.

use vstd::prelude::*;

use crate::csv;
use crate::extract::Format;
use crate::io::ByteSource;
use crate::keyspec;
use crate::keyspec::{parse_keyspec, Key, KeySpec};
use crate::sorter::{copy_specs, CheckOutcome, Config, Stats};
use crate::text;
use crate::value::{KeyType, MissingOrder};

verus! {

/// What the argument vector asked for.
#[derive(Debug)]
pub enum Parsed {
    Help,
    Version,
    Run(Options),
}

/// The options of a run.
#[derive(Debug)]
pub struct Options {
    pub keys: Vec<KeySpec>,
    pub format: Option<Format>,
    pub delim: Option<u8>,
    pub no_header: bool,
    pub output: Option<String>,
    pub unique: bool,
    pub check: bool,
    pub reverse: bool,
    pub missing: MissingOrder,
    pub lenient: bool,
    pub mem: u64,
    pub tmp: Option<String>,
    pub fan_in: usize,
    pub stats: bool,
    pub file: Option<String>,
}

/// What the options say, as a mathematical value.
pub struct Settings {
    pub keys: Seq<Key>,
    pub format: Option<Format>,
    pub delim: Option<u8>,
    pub no_header: bool,
    pub output: Option<Seq<char>>,
    pub unique: bool,
    pub check: bool,
    pub reverse: bool,
    pub missing: MissingOrder,
    pub lenient: bool,
    pub mem: u64,
    pub tmp: Option<Seq<char>>,
    pub fan_in: usize,
    pub stats: bool,
    pub file: Option<Seq<char>>,
}

/// An optional text.
pub open spec fn text_of(s: Option<String>) -> Option<Seq<char>> {
    match s {
        Some(t) => Some(t@),
        None => None,
    }
}

impl View for Options {
    type V = Settings;

    open spec fn view(&self) -> Settings {
        Settings {
            keys: keyspec::keys(self.keys@),
            format: self.format,
            delim: self.delim,
            no_header: self.no_header,
            output: text_of(self.output),
            unique: self.unique,
            check: self.check,
            reverse: self.reverse,
            missing: self.missing,
            lenient: self.lenient,
            mem: self.mem,
            tmp: text_of(self.tmp),
            fan_in: self.fan_in,
            stats: self.stats,
            file: text_of(self.file),
        }
    }
}

/// The options where none is given.
pub open spec fn defaults() -> Settings {
    Settings {
        keys: Seq::empty(),
        format: None,
        delim: None,
        no_header: false,
        output: None,
        unique: false,
        check: false,
        reverse: false,
        missing: MissingOrder::Last,
        lenient: false,
        mem: 268_435_456,
        tmp: None,
        fan_in: 64,
        stats: false,
        file: None,
    }
}

impl Default for Options {
    fn default() -> (r: Self)
        ensures
            r@ == defaults(),
    {
        let r = Options {
            keys: Vec::new(),
            format: None,
            delim: None,
            no_header: false,
            output: None,
            unique: false,
            check: false,
            reverse: false,
            missing: MissingOrder::Last,
            lenient: false,
            mem: 268_435_456,
            tmp: None,
            fan_in: 64,
            stats: false,
            file: None,
        };
        assert(r@.keys =~= Seq::<Key>::empty());
        r
    }
}

// ---------------------------------------------------------------------------
// Values of options

/// The tab character.
pub const TAB: u8 = 0x09;

/// The delimiter that a text means: one ASCII character, or `\t` or `tab`
/// for a tab; no quote and no newline.
pub open spec fn delimiter(s: Seq<char>) -> Result<u8, Seq<char>> {
    if s == "\\t"@ || s == "\t"@ || s == "tab"@ {
        Ok(TAB)
    } else if s.len() != 1 || (s[0] as u32) >= 0x80 {
        Err("delimiter must be one ASCII character, got '"@ + s + "'"@)
    } else if s[0] == '"' || s[0] == '\n' || s[0] == '\r' {
        Err("delimiter cannot be a quote or a newline"@)
    } else {
        Ok(s[0] as u8)
    }
}

/// One literal character, or the escapes `\t` for tab.
pub fn parse_delim(s: &str) -> (r: Result<u8, String>)
    ensures
        match (r, delimiter(s@)) {
            (Ok(a), Ok(b)) => a == b,
            (Err(a), Err(b)) => a@ == b,
            _ => false,
        },
{
    if text::same_text(s, "\\t") || text::same_text(s, "\t") || text::same_text(s, "tab") {
        return Ok(TAB);
    }
    let cs = text::chars_of(s);
    if cs.len() != 1 || (cs[0] as u32) >= 0x80 {
        return Err(text::join3("delimiter must be one ASCII character, got '", s, "'"));
    }
    let c = cs[0];
    if c == '"' || c == '\n' || c == '\r' {
        return Err(text::owned("delimiter cannot be a quote or a newline"));
    }
    Ok(c as u8)
}

/// The bytes that a unit letter stands for.
pub open spec fn unit(c: char) -> Option<nat> {
    if c == 'K' || c == 'k' {
        Some(1024)
    } else if c == 'M' || c == 'm' {
        Some(1_048_576)
    } else if c == 'G' || c == 'g' {
        Some(1_073_741_824)
    } else {
        None
    }
}

/// The number of bytes that a text means: `1048576`, `64K`, `256M`, `1G`, in
/// binary units; at least one, and the number itself below 2^34.
pub open spec fn size(s: Seq<char>) -> Result<u64, Seq<char>> {
    let t = text::trimmed(s);
    let suffixed = t.len() > 0 && unit(t.last()) is Some;
    let digits = if suffixed {
        text::trimmed(t.drop_last())
    } else {
        text::trimmed(t)
    };
    let factor = if suffixed {
        unit(t.last())->Some_0
    } else {
        1
    };
    match text::unsigned(digits, u64::MAX as nat) {
        None => Err("invalid size '"@ + t + "' (use e.g. 64M, 1G)"@),
        Some(n) => if n >= 17_179_869_184 {
            Err("size '"@ + t + "' is out of range"@)
        } else if n * factor == 0 {
            Err("size must be at least 1 byte"@)
        } else {
            Ok((n * factor) as u64)
        },
    }
}

/// `1048576`, `64K`, `256M`, `1G` — binary units.
pub fn parse_size(s: &str) -> (r: Result<u64, String>)
    ensures
        match (r, size(s@)) {
            (Ok(a), Ok(b)) => a == b,
            (Err(a), Err(b)) => a@ == b,
            _ => false,
        },
{
    let cs = text::chars_of(s);
    let t = text::trim(&cs);
    let n: usize = t.len();
    let mut end: usize = n;
    let mut factor: u64 = 1;
    if n > 0 {
        let c = t[n - 1];
        if c == 'K' || c == 'k' {
            factor = 1024;
            end = n - 1;
        } else if c == 'M' || c == 'm' {
            factor = 1_048_576;
            end = n - 1;
        } else if c == 'G' || c == 'g' {
            factor = 1_073_741_824;
            end = n - 1;
        }
    }
    let body = vstd::slice::slice_subrange(t, 0, end);
    proof {
        if end < n {
            assert(body@ =~= t@.drop_last());
        } else {
            assert(body@ =~= t@);
        }
    }
    let digits = text::trim(body);
    let shown = text::string_of(t);
    match text::parse_unsigned(digits, u64::MAX) {
        None => Err(text::join3("invalid size '", shown.as_str(), "' (use e.g. 64M, 1G)")),
        Some(m) => {
            if m >= 17_179_869_184 {
                return Err(text::join3("size '", shown.as_str(), "' is out of range"));
            }
            assert(m * factor < 0x1_0000_0000_0000_0000) by (nonlinear_arith)
                requires
                    m < 17_179_869_184,
                    factor <= 1_073_741_824,
            ;
            let bytes: u64 = m * factor;
            if bytes == 0 {
                return Err(text::owned("size must be at least 1 byte"));
            }
            Ok(bytes)
        },
    }
}

/// The format that a name means; nothing for `auto`.
pub open spec fn format_value(v: Seq<char>) -> Result<Option<Format>, Seq<char>> {
    if v == "csv"@ {
        Ok(Some(Format::Csv))
    } else if v == "jsonl"@ || v == "ndjson"@ {
        Ok(Some(Format::Jsonl))
    } else if v == "auto"@ {
        Ok(None)
    } else {
        Err("unknown format '"@ + v + "' (csv, jsonl, auto)"@)
    }
}

/// The format that a name means; nothing for `auto`.
fn parse_format(v: &str) -> (r: Result<Option<Format>, String>)
    ensures
        match (r, format_value(v@)) {
            (Ok(a), Ok(b)) => a == b,
            (Err(a), Err(b)) => a@ == b,
            _ => false,
        },
{
    if text::same_text(v, "csv") {
        Ok(Some(Format::Csv))
    } else if text::same_text(v, "jsonl") || text::same_text(v, "ndjson") {
        Ok(Some(Format::Jsonl))
    } else if text::same_text(v, "auto") {
        Ok(None)
    } else {
        Err(text::join3("unknown format '", v, "' (csv, jsonl, auto)"))
    }
}

/// The place of missing values that a word means.
pub open spec fn missing_value(v: Seq<char>) -> Result<MissingOrder, Seq<char>> {
    if v == "first"@ {
        Ok(MissingOrder::First)
    } else if v == "last"@ {
        Ok(MissingOrder::Last)
    } else {
        Err("--missing must be first or last, not '"@ + v + "'"@)
    }
}

/// The place of missing values that a word means.
fn parse_missing(v: &str) -> (r: Result<MissingOrder, String>)
    ensures
        match (r, missing_value(v@)) {
            (Ok(a), Ok(b)) => a == b,
            (Err(a), Err(b)) => a@ == b,
            _ => false,
        },
{
    if text::same_text(v, "first") {
        Ok(MissingOrder::First)
    } else if text::same_text(v, "last") {
        Ok(MissingOrder::Last)
    } else {
        Err(text::join3("--missing must be first or last, not '", v, "'"))
    }
}

/// How many runs are merged at once: two or more.
pub open spec fn fan_in_value(v: Seq<char>) -> Result<usize, Seq<char>> {
    match text::unsigned(v, usize::MAX as nat) {
        None => Err("--fan-in must be an integer"@),
        Some(n) => if n < 2 {
            Err("--fan-in must be at least 2"@)
        } else {
            Ok(n as usize)
        },
    }
}

/// How many runs are merged at once: two or more.
fn parse_fan_in(v: &str) -> (r: Result<usize, String>)
    ensures
        match (r, fan_in_value(v@)) {
            (Ok(a), Ok(b)) => a == b,
            (Err(a), Err(b)) => a@ == b,
            _ => false,
        },
{
    let cs = text::chars_of(v);
    match text::parse_unsigned(&cs, usize::MAX as u64) {
        None => Err(text::owned("--fan-in must be an integer")),
        Some(n) => {
            if n < 2 {
                return Err(text::owned("--fan-in must be at least 2"));
            }
            Ok(n as usize)
        },
    }
}

// ---------------------------------------------------------------------------
// Arguments

/// What the arguments ask for.
pub enum Request {
    Help,
    Version,
    Run(Settings),
}

/// Whether `s` begins with a dash.
pub open spec fn dashed(s: Seq<char>) -> bool {
    s.len() > 0 && s[0] == '-'
}

/// An argument taken apart: `--opt=value` is a name and a value, anything
/// else a name alone.
#[verifier::opaque]
pub open spec fn name_part(arg: Seq<char>, positional: bool) -> Seq<char> {
    let i = text::find(arg, '=');
    if i < arg.len() && dashed(arg.take(i)) && !positional {
        arg.take(i)
    } else {
        arg
    }
}

/// The value behind the name, if there is one.
#[verifier::opaque]
pub open spec fn value_part(arg: Seq<char>, positional: bool) -> Option<Seq<char>> {
    let i = text::find(arg, '=');
    if i < arg.len() && dashed(arg.take(i)) && !positional {
        Some(arg.skip(i + 1))
    } else {
        None
    }
}

/// The long name of an option that takes a value.
#[verifier::opaque]
pub open spec fn valued(name: Seq<char>) -> Option<Seq<char>> {
    if name == "-k"@ || name == "--key"@ {
        Some("--key"@)
    } else if name == "-f"@ || name == "--format"@ {
        Some("--format"@)
    } else if name == "-d"@ || name == "--delimiter"@ {
        Some("--delimiter"@)
    } else if name == "-o"@ || name == "--output"@ {
        Some("--output"@)
    } else if name == "--missing"@ {
        Some("--missing"@)
    } else if name == "--mem"@ {
        Some("--mem"@)
    } else if name == "--tmp"@ {
        Some("--tmp"@)
    } else if name == "--fan-in"@ {
        Some("--fan-in"@)
    } else {
        None
    }
}

/// The settings with the value of an option, given by its long name.
#[verifier::opaque]
pub open spec fn with_value(o: Settings, flag: Seq<char>, v: Seq<char>) -> Result<
    Settings,
    Seq<char>,
> {
    if flag == "--key"@ {
        match keyspec::specified(v) {
            Ok(key) => Ok(Settings { keys: o.keys.push(key), ..o }),
            Err(e) => Err(e),
        }
    } else if flag == "--format"@ {
        match format_value(v) {
            Ok(f) => Ok(Settings { format: f, ..o }),
            Err(e) => Err(e),
        }
    } else if flag == "--delimiter"@ {
        match delimiter(v) {
            Ok(b) => Ok(Settings { delim: Some(b), ..o }),
            Err(e) => Err(e),
        }
    } else if flag == "--output"@ {
        Ok(Settings { output: Some(v), ..o })
    } else if flag == "--missing"@ {
        match missing_value(v) {
            Ok(m) => Ok(Settings { missing: m, ..o }),
            Err(e) => Err(e),
        }
    } else if flag == "--mem"@ {
        match size(v) {
            Ok(n) => Ok(Settings { mem: n, ..o }),
            Err(e) => Err(e),
        }
    } else if flag == "--tmp"@ {
        Ok(Settings { tmp: Some(v), ..o })
    } else {
        match fan_in_value(v) {
            Ok(n) => Ok(Settings { fan_in: n, ..o }),
            Err(e) => Err(e),
        }
    }
}

/// The settings with a switch turned on, if that is one.
#[verifier::opaque]
pub open spec fn with_switch(o: Settings, name: Seq<char>) -> Option<Settings> {
    if name == "--no-header"@ {
        Some(Settings { no_header: true, ..o })
    } else if name == "-u"@ || name == "--unique"@ {
        Some(Settings { unique: true, ..o })
    } else if name == "-c"@ || name == "--check"@ {
        Some(Settings { check: true, ..o })
    } else if name == "-r"@ || name == "--reverse"@ {
        Some(Settings { reverse: true, ..o })
    } else if name == "--lenient"@ {
        Some(Settings { lenient: true, ..o })
    } else if name == "--stats"@ {
        Some(Settings { stats: true, ..o })
    } else {
        None
    }
}

/// What one argument comes to: the end of reading, or settings to go on with
/// from another argument.
pub enum Turn {
    Stop { answer: Result<Request, Seq<char>> },
    Go { next: int, settings: Settings, positional: bool },
}

/// What the argument at `i` comes to, where those before gave `o`.
#[verifier::opaque]
pub open spec fn turn(args: Seq<Seq<char>>, i: int, o: Settings, positional: bool) -> Turn {
    let arg = args[i];
    let name = name_part(arg, positional);
    let inline = value_part(arg, positional);
    if positional || !dashed(name) || name == "-"@ {
        if o.file is Some {
            Turn::Stop { answer: Err("unexpected extra argument '"@ + arg + "'"@) }
        } else {
            Turn::Go { next: i + 1, settings: Settings { file: Some(name), ..o }, positional }
        }
    } else if name == "--"@ {
        if inline is Some {
            Turn::Stop { answer: Err("-- does not take a value"@) }
        } else {
            Turn::Go { next: i + 1, settings: o, positional: true }
        }
    } else if name == "-h"@ || name == "--help"@ {
        Turn::Stop { answer: Ok(Request::Help) }
    } else if name == "-V"@ || name == "--version"@ {
        Turn::Stop { answer: Ok(Request::Version) }
    } else if valued(name) is Some {
        let flag = valued(name)->Some_0;
        if inline is None && i + 1 >= args.len() {
            Turn::Stop { answer: Err(flag + " requires a value"@) }
        } else {
            let v = match inline {
                Some(v) => v,
                None => args[i + 1],
            };
            match with_value(o, flag, v) {
                Err(e) => Turn::Stop { answer: Err(e) },
                Ok(p) => Turn::Go {
                    next: match inline {
                        Some(_) => i + 1,
                        None => i + 2,
                    },
                    settings: p,
                    positional,
                },
            }
        }
    } else {
        match with_switch(o, name) {
            None => Turn::Stop { answer: Err("unknown option '"@ + name + "'"@) },
            Some(p) => if inline is Some {
                Turn::Stop { answer: Err(name + " does not take a value"@) }
            } else {
                Turn::Go { next: i + 1, settings: p, positional }
            },
        }
    }
}

/// What the arguments from `i` on ask for, where those before gave `o`.
pub open spec fn requested(args: Seq<Seq<char>>, i: int, o: Settings, positional: bool) -> Result<
    Request,
    Seq<char>,
>
    decreases args.len() - i,
{
    if i >= args.len() {
        if o.check && o.output is Some {
            Err("--check does not write output; drop -o/--output"@)
        } else {
            Ok(Request::Run(o))
        }
    } else {
        match turn(args, i, o, positional) {
            Turn::Stop { answer } => answer,
            Turn::Go { next, settings, positional: p } => {
                requested(
                    args,
                    if i < next <= args.len() {
                        next
                    } else {
                        i + 1
                    },
                    settings,
                    p,
                )
            },
        }
    }
}

/// Whether `r` is what is asked for.
pub open spec fn is_request(r: Result<Parsed, String>, q: Result<Request, Seq<char>>) -> bool {
    match (r, q) {
        (Ok(Parsed::Help), Ok(Request::Help)) => true,
        (Ok(Parsed::Version), Ok(Request::Version)) => true,
        (Ok(Parsed::Run(o)), Ok(Request::Run(p))) => o@ == p,
        (Err(a), Err(b)) => a@ == b,
        _ => false,
    }
}

/// The long name of an option that takes a value.
fn valued_flag(name: &str) -> (r: Option<&'static str>)
    ensures
        match (r, valued(name@)) {
            (Some(a), Some(b)) => a@ == b,
            (None, None) => true,
            _ => false,
        },
{
    reveal(valued);
    if text::same_text(name, "-k") || text::same_text(name, "--key") {
        Some("--key")
    } else if text::same_text(name, "-f") || text::same_text(name, "--format") {
        Some("--format")
    } else if text::same_text(name, "-d") || text::same_text(name, "--delimiter") {
        Some("--delimiter")
    } else if text::same_text(name, "-o") || text::same_text(name, "--output") {
        Some("--output")
    } else if text::same_text(name, "--missing") {
        Some("--missing")
    } else if text::same_text(name, "--mem") {
        Some("--mem")
    } else if text::same_text(name, "--tmp") {
        Some("--tmp")
    } else if text::same_text(name, "--fan-in") {
        Some("--fan-in")
    } else {
        None
    }
}

/// Set the value of an option, given by its long name.
fn set_value(opts: &mut Options, flag: &str, v: &str) -> (r: Result<(), String>)
    ensures
        match (r, with_value(old(opts)@, flag@, v@)) {
            (Ok(()), Ok(p)) => final(opts)@ == p,
            (Err(a), Err(b)) => a@ == b,
            _ => false,
        },
{
    reveal(with_value);
    let failed: Option<String>;
    if text::same_text(flag, "--key") {
        match parse_keyspec(v) {
            Ok(key) => {
                let ghost k = key@;
                opts.keys.push(key);
                assert(opts@.keys =~= old(opts)@.keys.push(k));
                failed = None;
            },
            Err(e) => {
                failed = Some(e);
            },
        }
    } else if text::same_text(flag, "--format") {
        match parse_format(v) {
            Ok(f) => {
                opts.format = f;
                failed = None;
            },
            Err(e) => {
                failed = Some(e);
            },
        }
    } else if text::same_text(flag, "--delimiter") {
        match parse_delim(v) {
            Ok(b) => {
                opts.delim = Some(b);
                failed = None;
            },
            Err(e) => {
                failed = Some(e);
            },
        }
    } else if text::same_text(flag, "--output") {
        opts.output = Some(text::owned(v));
        failed = None;
    } else if text::same_text(flag, "--missing") {
        match parse_missing(v) {
            Ok(m) => {
                opts.missing = m;
                failed = None;
            },
            Err(e) => {
                failed = Some(e);
            },
        }
    } else if text::same_text(flag, "--mem") {
        match parse_size(v) {
            Ok(n) => {
                opts.mem = n;
                failed = None;
            },
            Err(e) => {
                failed = Some(e);
            },
        }
    } else if text::same_text(flag, "--tmp") {
        opts.tmp = Some(text::owned(v));
        failed = None;
    } else {
        match parse_fan_in(v) {
            Ok(n) => {
                opts.fan_in = n;
                failed = None;
            },
            Err(e) => {
                failed = Some(e);
            },
        }
    }
    match failed {
        Some(e) => Err(e),
        None => Ok(()),
    }
}

/// Turn a switch on, if `name` is one and there is no value with it.
fn set_switch(opts: &mut Options, name: &str, has_value: bool) -> (r: Result<(), String>)
    ensures
        match (r, with_switch(old(opts)@, name@)) {
            (Ok(()), Some(p)) => !has_value && final(opts)@ == p,
            (Err(e), Some(_)) => has_value && e@ == name@ + " does not take a value"@,
            (Err(e), None) => e@ == "unknown option '"@ + name@ + "'"@,
            _ => false,
        },
{
    reveal(with_switch);
    let no_header = text::same_text(name, "--no-header");
    let unique = text::same_text(name, "-u") || text::same_text(name, "--unique");
    let check = text::same_text(name, "-c") || text::same_text(name, "--check");
    let reverse = text::same_text(name, "-r") || text::same_text(name, "--reverse");
    let lenient = text::same_text(name, "--lenient");
    let stats = text::same_text(name, "--stats");
    if !(no_header || unique || check || reverse || lenient || stats) {
        return Err(text::join3("unknown option '", name, "'"));
    }
    if has_value {
        return Err(text::join2(name, " does not take a value"));
    }
    if no_header {
        opts.no_header = true;
    } else if unique {
        opts.unique = true;
    } else if check {
        opts.check = true;
    } else if reverse {
        opts.reverse = true;
    } else if lenient {
        opts.lenient = true;
    } else {
        opts.stats = true;
    }
    Ok(())
}

/// An argument taken apart into a name and a value.
fn split_arg(arg: &str, positional: bool) -> (r: (String, Option<String>))
    ensures
        r.0@ == name_part(arg@, positional),
        text_of(r.1) == value_part(arg@, positional),
{
    reveal(name_part);
    reveal(value_part);
    let cs = text::chars_of(arg);
    assert(cs@.skip(0) =~= cs@);
    let i = text::find_from(&cs, '=', 0);
    assert(cs@.subrange(0, i as int) =~= cs@.take(i as int));
    if i < cs.len() && i > 0 && cs[0] == '-' && !positional {
        assert(cs@.subrange(i + 1, cs@.len() as int) =~= cs@.skip(i + 1));
        (text::substring_of(&cs, 0, i), Some(text::substring_of(&cs, i + 1, cs.len())))
    } else {
        (text::owned(arg), None)
    }
}

/// Where reading goes after an argument.
enum Taken {
    Help,
    Version,
    Next { at: usize, positional: bool },
}

/// Read the argument at `i`.
fn take_arg(args: &[String], i: usize, opts: &mut Options, positional: bool) -> (r: Result<
    Taken,
    String,
>)
    requires
        i < args@.len(),
    ensures
        match (r, turn(text::texts(args@), i as int, old(opts)@, positional)) {
            (Ok(Taken::Help), Turn::Stop { answer: Ok(Request::Help) }) => true,
            (Ok(Taken::Version), Turn::Stop { answer: Ok(Request::Version) }) => true,
            (Ok(Taken::Next { at, positional: p }), Turn::Go { next, settings, positional: q }) => {
                &&& at == next
                &&& i < at <= args@.len()
                &&& final(opts)@ == settings
                &&& p == q
            },
            (Err(a), Turn::Stop { answer: Err(b) }) => a@ == b,
            _ => false,
        },
{
    reveal(turn);
    let n: usize = args.len();
    let ghost all = text::texts(args@);
    let arg = args[i].as_str();
    assert(all[i as int] == arg@);
    // `--opt=value` splits here; `--opt value` pulls the next argument.
    let (name_text, inline) = split_arg(arg, positional);
    let name = name_text.as_str();
    let first = text::chars_of(name);
    let is_dashed = first.len() > 0 && first[0] == '-';
    if positional || !is_dashed || text::same_text(name, "-") {
        if opts.file.is_some() {
            return Err(text::join3("unexpected extra argument '", arg, "'"));
        }
        opts.file = Some(name_text);
        return Ok(Taken::Next { at: i + 1, positional });
    }
    if text::same_text(name, "--") {
        if inline.is_some() {
            return Err(text::owned("-- does not take a value"));
        }
        return Ok(Taken::Next { at: i + 1, positional: true });
    }
    if text::same_text(name, "-h") || text::same_text(name, "--help") {
        return Ok(Taken::Help);
    }
    if text::same_text(name, "-V") || text::same_text(name, "--version") {
        return Ok(Taken::Version);
    }
    match valued_flag(name) {
        Some(flag) => match inline {
            Some(v) => match set_value(opts, flag, v.as_str()) {
                Ok(()) => Ok(Taken::Next { at: i + 1, positional }),
                Err(e) => Err(e),
            },
            None => {
                if i + 1 >= n {
                    return Err(text::join2(flag, " requires a value"));
                }
                assert(all[i + 1] == args@[i + 1]@);
                match set_value(opts, flag, args[i + 1].as_str()) {
                    Ok(()) => Ok(Taken::Next { at: i + 2, positional }),
                    Err(e) => Err(e),
                }
            },
        },
        None => match set_switch(opts, name, inline.is_some()) {
            Ok(()) => Ok(Taken::Next { at: i + 1, positional }),
            Err(e) => Err(e),
        },
    }
}

/// Read the arguments.
pub fn parse_args(args: &[String]) -> (r: Result<Parsed, String>)
    ensures
        is_request(r, requested(text::texts(args@), 0, defaults(), false)),
{
    let mut opts = Options::default();
    let mut positional_only: bool = false;
    let mut i: usize = 0;
    let n: usize = args.len();
    while i < n
        invariant
            i <= n,
            n == args@.len(),
            requested(text::texts(args@), 0, defaults(), false) == requested(
                text::texts(args@),
                i as int,
                opts@,
                positional_only,
            ),
        decreases n - i,
    {
        match take_arg(args, i, &mut opts, positional_only) {
            Ok(Taken::Help) => {
                return Ok(Parsed::Help);
            },
            Ok(Taken::Version) => {
                return Ok(Parsed::Version);
            },
            Ok(Taken::Next { at, positional }) => {
                i = at;
                positional_only = positional;
            },
            Err(e) => {
                return Err(e);
            },
        }
    }
    if opts.check && opts.output.is_some() {
        return Err(text::owned("--check does not write output; drop -o/--output"));
    }
    Ok(Parsed::Run(opts))
}

/// What the arguments ask for depends on those still to be read only.
pub proof fn lemma_same_rest(
    a: Seq<Seq<char>>,
    i: int,
    b: Seq<Seq<char>>,
    j: int,
    o: Settings,
    positional: bool,
)
    requires
        0 <= i <= a.len(),
        0 <= j <= b.len(),
        a.skip(i) == b.skip(j),
    ensures
        requested(a, i, o, positional) == requested(b, j, o, positional),
    decreases a.len() - i,
{
    assert(a.len() - i == a.skip(i).len());
    assert(b.len() - j == b.skip(j).len());
    if i < a.len() {
        assert(a[i] == a.skip(i)[0]);
        assert(b[j] == b.skip(j)[0]);
        if i + 1 < a.len() {
            assert(a[i + 1] == a.skip(i)[1]);
            assert(b[j + 1] == b.skip(j)[1]);
        }
        assert(match (turn(a, i, o, positional), turn(b, j, o, positional)) {
            (Turn::Stop { answer: x }, Turn::Stop { answer: y }) => x == y,
            (
                Turn::Go { next: m, settings: x, positional: p },
                Turn::Go { next: n, settings: y, positional: q },
            ) => m - i == n - j && x == y && p == q && i < m <= a.len(),
            _ => false,
        }) by {
            reveal(turn);
        }
        if let Turn::Go { next, settings, positional: p } = turn(a, i, o, positional) {
            let other = turn(b, j, o, positional)->next;
            assert(a.skip(next) =~= a.skip(i).skip(next - i));
            assert(b.skip(other) =~= b.skip(j).skip(other - j));
            lemma_same_rest(a, next, b, other, settings, p);
        }
    }
}

/// `--opt=value` and `--opt value` mean the same where they come first.
proof fn lemma_equals_form_first(
    name: Seq<char>,
    v: Seq<char>,
    rest: Seq<Seq<char>>,
    o: Settings,
)
    requires
        valued(name) is Some,
    ensures
        requested(seq![name + seq!['='] + v] + rest, 0, o, false) == requested(
            seq![name, v] + rest,
            0,
            o,
            false,
        ),
{
    let arg = name + seq!['='] + v;
    let a = seq![arg] + rest;
    let b = seq![name, v] + rest;
    lemma_option_name(name);
    lemma_find_at(arg, name.len() as int);
    lemma_find_at(name, name.len() as int);
    assert(arg.take(name.len() as int) =~= name);
    assert(arg.skip(name.len() as int + 1) =~= v);
    assert(name_part(arg, false) == name && value_part(arg, false) == Some(v)) by {
        reveal(name_part);
        reveal(value_part);
    }
    assert(name_part(name, false) == name && value_part(name, false) is None) by {
        reveal(name_part);
        reveal(value_part);
    }
    assert(a[0] == arg && b[0] == name && b[1] == v);
    assert(match (turn(a, 0, o, false), turn(b, 0, o, false)) {
        (Turn::Stop { answer: x }, Turn::Stop { answer: y }) => x == y,
        (
            Turn::Go { next: m, settings: x, positional: p },
            Turn::Go { next: n, settings: y, positional: q },
        ) => m == 1 && n == 2 && x == y && p == q,
        _ => false,
    }) by {
        reveal(turn);
    }
    if let Turn::Go { next, settings, positional } = turn(a, 0, o, false) {
        assert(a.skip(1) =~= rest);
        assert(b.skip(2) =~= rest);
        lemma_same_rest(a, 1, b, 2, settings, positional);
    }
}

/// Whether the argument is an option that takes the next one as its value.
pub open spec fn takes_next(arg: Seq<char>, positional: bool) -> bool {
    !positional && valued(name_part(arg, positional)) is Some && value_part(arg, positional) is None
}

/// Whether an argument that follows `before` is read as an option, if it is
/// read at all: it is not the value of the last option, and no `--` comes
/// before it.
pub open spec fn option_follows(
    before: Seq<Seq<char>>,
    i: int,
    o: Settings,
    positional: bool,
) -> bool
    decreases before.len() - i,
{
    if i >= before.len() {
        !positional
    } else if takes_next(before[i], positional) && i + 1 == before.len() {
        false
    } else {
        match turn(before, i, o, positional) {
            Turn::Stop { .. } => true,
            Turn::Go { next, settings, positional: p } => i < next <= before.len()
                && option_follows(before, next, settings, p),
        }
    }
}

/// An argument comes to the same whatever follows, unless it takes the next
/// one as its value.
proof fn lemma_turn_before(
    before: Seq<Seq<char>>,
    tail: Seq<Seq<char>>,
    i: int,
    o: Settings,
    positional: bool,
)
    requires
        0 <= i < before.len(),
        !takes_next(before[i], positional) || i + 1 < before.len(),
    ensures
        turn(before + tail, i, o, positional) == turn(before, i, o, positional),
{
    reveal(turn);
    let all = before + tail;
    assert(all[i] == before[i]);
    if i + 1 < before.len() {
        assert(all[i + 1] == before[i + 1]);
    }
}

proof fn lemma_equals_form_behind(
    before: Seq<Seq<char>>,
    name: Seq<char>,
    v: Seq<char>,
    rest: Seq<Seq<char>>,
    i: int,
    o: Settings,
    positional: bool,
)
    requires
        valued(name) is Some,
        0 <= i <= before.len(),
        option_follows(before, i, o, positional),
    ensures
        requested(before + (seq![name + seq!['='] + v] + rest), i, o, positional) == requested(
            before + (seq![name, v] + rest),
            i,
            o,
            positional,
        ),
    decreases before.len() - i,
{
    let one = seq![name + seq!['='] + v] + rest;
    let two = seq![name, v] + rest;
    let a = before + one;
    let b = before + two;
    if i == before.len() {
        assert(a.skip(i) =~= one);
        assert(one.skip(0) =~= one);
        assert(b.skip(i) =~= two);
        assert(two.skip(0) =~= two);
        lemma_same_rest(a, i, one, 0, o, false);
        lemma_same_rest(b, i, two, 0, o, false);
        lemma_equals_form_first(name, v, rest, o);
    } else {
        lemma_turn_before(before, one, i, o, positional);
        lemma_turn_before(before, two, i, o, positional);
        if let Turn::Go { next, settings, positional: p } = turn(before, i, o, positional) {
            lemma_equals_form_behind(before, name, v, rest, next, settings, p);
        }
    }
}

/// `--opt=value` and `--opt value` mean the same, behind any arguments after
/// which it is read as an option, and before any others.
pub proof fn law_equals_form_agrees(
    before: Seq<Seq<char>>,
    name: Seq<char>,
    v: Seq<char>,
    rest: Seq<Seq<char>>,
)
    requires
        valued(name) is Some,
        option_follows(before, 0, defaults(), false),
    ensures
        requested(before + (seq![name + seq!['='] + v] + rest), 0, defaults(), false) == requested(
            before + (seq![name, v] + rest),
            0,
            defaults(),
            false,
        ),
{
    lemma_equals_form_behind(before, name, v, rest, 0, defaults(), false);
}

/// Settings that the engine can work with: two runs or more at a time, some
/// memory, a delimiter that is neither a quote nor a line end, and keys that
/// name a field and fold case in texts only.
pub open spec fn workable(o: Settings) -> bool {
    &&& o.fan_in >= 2
    &&& o.mem >= 1
    &&& o.delim matches Some(d) ==> d < 0x80 && d != csv::QUOTE && d != csv::NEWLINE && d
        != csv::RETURN
    &&& forall|i: int|
        0 <= i < o.keys.len() ==> (#[trigger] o.keys[i]).field.len() > 0 && (o.keys[i].ci
            ==> o.keys[i].ty == KeyType::Str)
}

proof fn lemma_ascii(c: char)
    requires
        (c as u32) < 0x80,
    ensures
        c as u8 == c as int,
{
}

proof fn lemma_delimiter_workable(s: Seq<char>)
    ensures
        delimiter(s) matches Ok(d) ==> d < 0x80 && d != csv::QUOTE && d != csv::NEWLINE && d
            != csv::RETURN,
{
    if s.len() == 1 && (s[0] as u32) < 0x80 {
        lemma_ascii(s[0]);
    }
}

proof fn lemma_key_workable(s: Seq<char>)
    ensures
        keyspec::specified(s) matches Ok(k) ==> k.field.len() > 0 && (k.ci ==> k.ty
            == KeyType::Str),
{
}

proof fn lemma_value_workable(o: Settings, flag: Seq<char>, v: Seq<char>)
    requires
        workable(o),
    ensures
        with_value(o, flag, v) matches Ok(p) ==> workable(p),
{
    reveal(with_value);
    lemma_delimiter_workable(v);
    lemma_key_workable(v);
    if flag == "--mem"@ {
        let t = text::trimmed(v);
        if size(v) is Ok {
            let suffixed = t.len() > 0 && unit(t.last()) is Some;
            let digits = if suffixed {
                text::trimmed(t.drop_last())
            } else {
                text::trimmed(t)
            };
            let factor = if suffixed {
                unit(t.last())->Some_0
            } else {
                1
            };
            let n = text::unsigned(digits, u64::MAX as nat)->Some_0;
            assert(0 < n * factor <= u64::MAX) by (nonlinear_arith)
                requires
                    n < 17_179_869_184,
                    factor <= 1_073_741_824,
                    n * factor != 0,
            ;
        }
    } else if flag == "--key"@ {
        if let Ok(p) = with_value(o, flag, v) {
            assert forall|i: int| 0 <= i < p.keys.len() implies (
            #[trigger] p.keys[i]).field.len() > 0 && (p.keys[i].ci ==> p.keys[i].ty
                == KeyType::Str) by {
                if i < o.keys.len() {
                    assert(p.keys[i] == o.keys[i]);
                }
            }
        }
    }
}

proof fn lemma_requested_workable(
    args: Seq<Seq<char>>,
    i: int,
    o: Settings,
    positional: bool,
)
    requires
        workable(o),
    ensures
        requested(args, i, o, positional) matches Ok(Request::Run(p)) ==> workable(p) && !(p.check
            && p.output is Some),
    decreases args.len() - i,
{
    if i < args.len() {
        if let Turn::Go { next, settings, positional: p } = turn(args, i, o, positional) {
            assert(workable(settings)) by {
                reveal(turn);
                reveal(with_switch);
                let name = name_part(args[i], positional);
                if valued(name) is Some {
                    let v = match value_part(args[i], positional) {
                        Some(v) => v,
                        None => args[i + 1],
                    };
                    lemma_value_workable(o, valued(name)->Some_0, v);
                }
            }
            let at = if i < next <= args.len() {
                next
            } else {
                i + 1
            };
            lemma_requested_workable(args, at, settings, p);
        } else {
            reveal(turn);
        }
    }
}

/// Every argument vector that is accepted gives settings that the engine can
/// work with, and none that both checks and writes.
pub proof fn law_accepted_options_are_workable(args: Seq<Seq<char>>)
    ensures
        requested(args, 0, defaults(), false) matches Ok(Request::Run(o)) ==> workable(o) && !(
        o.check && o.output is Some),
{
    lemma_requested_workable(args, 0, defaults(), false);
}

pub proof fn lemma_find_at(s: Seq<char>, n: int)
    requires
        0 <= n <= s.len(),
        forall|k: int| 0 <= k < n ==> #[trigger] s[k] != '=',
        n < s.len() ==> s[n] == '=',
    ensures
        text::find(s, '=') == n,
    decreases n,
{
    text::lemma_find(s, '=');
    let m = text::find(s, '=');
    if m < n {
        assert(s[m] != '=');
    }
}

/// The name of an option begins with a dash, is neither `-` nor `--`, holds
/// no `=` and does not ask for help or the version.
pub proof fn lemma_option_name(name: Seq<char>)
    requires
        valued(name) is Some,
    ensures
        dashed(name),
        name != "-"@,
        name != "--"@,
        name != "-h"@ && name != "--help"@ && name != "-V"@ && name != "--version"@,
        forall|k: int| 0 <= k < name.len() ==> #[trigger] name[k] != '=',
{
    reveal(valued);
    reveal_strlit("-");
    reveal_strlit("--");
    reveal_strlit("-h");
    reveal_strlit("--help");
    reveal_strlit("-V");
    reveal_strlit("--version");
    reveal_strlit("-k");
    reveal_strlit("--key");
    reveal_strlit("-f");
    reveal_strlit("--format");
    reveal_strlit("-d");
    reveal_strlit("--delimiter");
    reveal_strlit("-o");
    reveal_strlit("--output");
    reveal_strlit("--missing");
    reveal_strlit("--mem");
    reveal_strlit("--tmp");
    reveal_strlit("--fan-in");
    assert("-k"@[1] == 'k' && "-f"@[1] == 'f' && "-d"@[1] == 'd' && "-o"@[1] == 'o');
    assert("-"@.len() == 1 && "--"@.len() == 2 && "-k"@.len() == 2 && "-f"@.len() == 2);
    assert("-d"@.len() == 2 && "-o"@.len() == 2 && "--key"@.len() == 5 && "--format"@.len() == 8);
    assert("--delimiter"@.len() == 11 && "--output"@.len() == 8 && "--missing"@.len() == 9);
    assert("--mem"@.len() == 5 && "--tmp"@.len() == 5 && "--fan-in"@.len() == 8);
    assert("--"@[1] == '-' && "-h"@[1] == 'h' && "-V"@[1] == 'V');
    assert("--missing"@[2] == 'm' && "--version"@[2] == 'v' && "--fan-in"@[2] == 'f');
    assert("--help"@[2] == 'h' && "--key"@[2] == 'k');
}

// ---------------------------------------------------------------------------
// Input

/// The file to read: the one that is named, unless there is none or its name
/// is `-`, which stands for standard input.
pub open spec fn named_input(o: Settings) -> Option<Seq<char>> {
    match o.file {
        Some(f) => if f == "-"@ {
            None
        } else {
            Some(f)
        },
        None => None,
    }
}

/// The file to read, or nothing for standard input.
pub fn input_file(opts: &Options) -> (r: Option<&str>)
    ensures
        match (r, named_input(opts@)) {
            (Some(a), Some(b)) => a@ == b,
            (None, None) => true,
            _ => false,
        },
{
    match &opts.file {
        Some(f) => if text::same_text(f.as_str(), "-") {
            None
        } else {
            Some(f.as_str())
        },
        None => None,
    }
}

/// The format that a file extension means.
pub open spec fn format_of(ext: Option<Seq<char>>) -> Option<Format> {
    match ext {
        None => None,
        Some(e) => {
            let low = text::lower_text(e);
            if low == "csv"@ || low == "tsv"@ {
                Some(Format::Csv)
            } else if low == "jsonl"@ || low == "ndjson"@ || low == "json"@ {
                Some(Format::Jsonl)
            } else {
                None
            }
        },
    }
}

/// The format that content means: JSONL if its first byte that is no white
/// space opens an object or an array, else CSV.
pub open spec fn format_in(bytes: Seq<u8>) -> Format
    decreases bytes.len(),
{
    if bytes.len() == 0 {
        Format::Csv
    } else if bytes[0] == 0x20 || bytes[0] == 0x09 || bytes[0] == 0x0D || bytes[0] == 0x0A {
        format_in(bytes.drop_first())
    } else if bytes[0] == 0x7B || bytes[0] == 0x5B {
        Format::Jsonl
    } else {
        Format::Csv
    }
}

/// An optional text.
pub open spec fn str_of(s: Option<&str>) -> Option<Seq<char>> {
    match s {
        Some(t) => Some(t@),
        None => None,
    }
}

/// Pick the format from the extension, else from the first content byte —
/// without consuming anything from the stream.
pub fn detect_format<R: ByteSource>(ext: Option<&str>, input: &mut R) -> (r: Result<
    Format,
    String,
>)
    ensures
        final(input).remaining() == old(input).remaining(),
        final(input).reliable() == old(input).reliable(),
        r is Err ==> !old(input).reliable() && csv::is_read_error(r),
        match format_of(str_of(ext)) {
            Some(f) => r == Ok::<Format, String>(f) && *final(input) == *old(input),
            None => r matches Ok(f) ==> {
                &&& f == format_in(final(input).buffered())
                &&& final(input).buffered().is_prefix_of(old(input).remaining())
                &&& old(input).remaining().len() > 0 ==> final(input).buffered().len() > 0
            },
        },
{
    if let Some(e) = ext {
        let low_text = text::lowered(e);
        let low = low_text.as_str();
        if text::same_text(low, "csv") || text::same_text(low, "tsv") {
            return Ok(Format::Csv);
        }
        if text::same_text(low, "jsonl") || text::same_text(low, "ndjson") || text::same_text(
            low,
            "json",
        ) {
            return Ok(Format::Jsonl);
        }
    }
    match input.fill() {
        Ok(()) => {},
        Err(e) => {
            return Err(text::join2("read error: ", e.as_str()));
        },
    }
    let bytes = input.buffer();
    let n: usize = bytes.len();
    let mut i: usize = 0;
    assert(bytes@.skip(0) =~= bytes@);
    while i < n && (bytes[i] == 0x20 || bytes[i] == 0x09 || bytes[i] == 0x0D || bytes[i] == 0x0A)
        invariant
            i <= n,
            n == bytes@.len(),
            format_in(bytes@) == format_in(bytes@.skip(i as int)),
        decreases n - i,
    {
        assert(bytes@.skip(i as int).drop_first() =~= bytes@.skip(i + 1));
        i += 1;
    }
    if i < n && (bytes[i] == 0x7B || bytes[i] == 0x5B) {
        Ok(Format::Jsonl)
    } else {
        Ok(Format::Csv)
    }
}

/// Whether an extension stands for tab-separated values.
pub open spec fn is_tsv(ext: Option<Seq<char>>) -> bool {
    match ext {
        Some(e) => text::lower_text(e) == "tsv"@,
        None => false,
    }
}

/// The delimiter where none is given: a tab for tab-separated values, else a
/// comma.
pub open spec fn usual_delim(ext: Option<Seq<char>>) -> u8 {
    if is_tsv(ext) {
        TAB
    } else {
        0x2C
    }
}

/// `.tsv` inputs default to tab unless -d overrides.
pub fn default_delim(ext: Option<&str>) -> (r: u8)
    ensures
        r == usual_delim(str_of(ext)),
        r == (if is_tsv(str_of(ext)) {
            TAB
        } else {
            0x2Cu8
        }),
{
    match ext {
        Some(e) => {
            let low = text::lowered(e);
            if text::same_text(low.as_str(), "tsv") {
                TAB
            } else {
                0x2C
            }
        },
        None => 0x2C,
    }
}

/// Whether a configuration is that of a run with these settings, on an input
/// of the given format and extension.
pub open spec fn is_configured(
    r: Config,
    o: Settings,
    format: Format,
    ext: Option<Seq<char>>,
) -> bool {
    &&& r.format == format
    &&& keyspec::keys(r.specs@) == o.keys
    &&& r.delim == (match o.delim {
        Some(d) => d,
        None => usual_delim(ext),
    })
    &&& r.has_header == !o.no_header
    &&& r.missing == o.missing
    &&& r.lenient == o.lenient
    &&& r.unique == o.unique
    &&& r.reverse == o.reverse
    &&& r.mem_limit == o.mem
    &&& r.fan_in == o.fan_in
}

/// What the engine is to know of a run with these options, on an input of
/// the given format and extension.
pub fn configure(opts: &Options, format: Format, ext: Option<&str>) -> (r: Config)
    ensures
        is_configured(r, opts@, format, str_of(ext)),
        r.format == format,
        keyspec::keys(r.specs@) == opts@.keys,
        r.delim == (match opts.delim {
            Some(d) => d,
            None => if is_tsv(str_of(ext)) {
                TAB
            } else {
                0x2Cu8
            },
        }),
        r.has_header == !opts.no_header,
        r.missing == opts.missing,
        r.lenient == opts.lenient,
        r.unique == opts.unique,
        r.reverse == opts.reverse,
        r.mem_limit == opts.mem,
        r.fan_in == opts.fan_in,
{
    let delim: u8 = match opts.delim {
        Some(d) => d,
        None => default_delim(ext),
    };
    Config {
        format,
        specs: copy_specs(&opts.keys),
        delim,
        has_header: !opts.no_header,
        missing: opts.missing,
        lenient: opts.lenient,
        unique: opts.unique,
        reverse: opts.reverse,
        mem_limit: opts.mem,
        fan_in: opts.fan_in,
    }
}

// ---------------------------------------------------------------------------
// Reports

/// What a run of the command comes to when nothing goes wrong.
#[derive(Debug, Clone, Copy, PartialEq, Eq, Structural)]
pub enum Ending {
    Help,
    Version,
    Sorted,
    Checked(CheckOutcome),
}

/// The exit code of a run.
pub open spec fn exit_status(ending: Result<Ending, String>) -> int {
    match ending {
        Err(_) => 2,
        Ok(Ending::Checked(CheckOutcome::Disorder { .. })) => 1,
        Ok(Ending::Checked(CheckOutcome::Duplicate { .. })) => 1,
        Ok(_) => 0,
    }
}

/// The exit code of a run: 2 if anything went wrong, 1 if a check found
/// disorder or a duplicate, else 0.
pub fn exit_code(ending: &Result<Ending, String>) -> (r: i32)
    ensures
        r == exit_status(*ending),
        r == (match *ending {
            Err(_) => 2int,
            Ok(Ending::Checked(outcome)) => if outcome is Sorted {
                0
            } else {
                1
            },
            Ok(_) => 0,
        }),
{
    match ending {
        Err(_) => 2,
        Ok(Ending::Checked(CheckOutcome::Disorder { .. })) => 1,
        Ok(Ending::Checked(CheckOutcome::Duplicate { .. })) => 1,
        Ok(_) => 0,
    }
}

/// What a check reports of an input, if anything.
pub open spec fn check_message(name: Seq<char>, outcome: CheckOutcome) -> Option<Seq<char>> {
    match outcome {
        CheckOutcome::Sorted => None,
        CheckOutcome::Disorder { record, line } => Some(
            name + ": disorder at record "@ + text::decimal_text(record as nat) + " (line "@
                + text::decimal_text(line as nat) + ")"@,
        ),
        CheckOutcome::Duplicate { record, line } => Some(
            name + ": duplicate key at record "@ + text::decimal_text(record as nat) + " (line "@
                + text::decimal_text(line as nat) + ")"@,
        ),
    }
}

/// What a check reports of the named input, if anything.
pub fn check_report(name: &str, outcome: CheckOutcome) -> (r: Option<String>)
    ensures
        text_of(r) == check_message(name@, outcome),
{
    match outcome {
        CheckOutcome::Sorted => None,
        CheckOutcome::Disorder { record, line } => {
            let head = text::join2(name, ": disorder at record ");
            let n = text::number_text(record);
            let l = text::number_text(line);
            Some(text::join5(head.as_str(), n.as_str(), " (line ", l.as_str(), ")"))
        },
        CheckOutcome::Duplicate { record, line } => {
            let head = text::join2(name, ": duplicate key at record ");
            let n = text::number_text(record);
            let l = text::number_text(line);
            Some(text::join5(head.as_str(), n.as_str(), " (line ", l.as_str(), ")"))
        },
    }
}

/// A counter with its label.
fn counter(label: &str, n: u64) -> (r: String)
    ensures
        r@ == label@ + text::decimal_text(n as nat),
{
    text::join2(label, text::number_text(n).as_str())
}

/// The lines that `--stats` prints.
pub open spec fn stats_lines(format: Format, stats: Stats) -> Seq<Seq<char>> {
    seq![
        "format:          "@ + (match format {
            Format::Csv => "csv"@,
            Format::Jsonl => "jsonl"@,
        }),
        "records read:    "@ + text::decimal_text(stats.records_in as nat),
        "records written: "@ + text::decimal_text(stats.records_out as nat),
        "bytes read:      "@ + text::decimal_text(stats.bytes_in as nat),
        "spilled runs:    "@ + text::decimal_text(stats.runs_spilled as nat),
        "merge passes:    "@ + text::decimal_text(stats.merge_passes as nat),
    ]
}

/// The lines that `--stats` prints.
pub fn stats_report(format: Format, stats: &Stats) -> (r: Vec<String>)
    ensures
        text::texts(r@) == stats_lines(format, *stats),
{
    let mut out: Vec<String> = Vec::new();
    out.push(text::join2("format:          ", format.name()));
    out.push(counter("records read:    ", stats.records_in));
    out.push(counter("records written: ", stats.records_out));
    out.push(counter("bytes read:      ", stats.bytes_in));
    out.push(counter("spilled runs:    ", stats.runs_spilled));
    out.push(counter("merge passes:    ", stats.merge_passes));
    assert(text::texts(out@) =~= stats_lines(format, *stats));
    out
}

} // verus!
