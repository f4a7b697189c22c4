//! What the words of the command line do: each option by what it sets, and
//! nothing besides.

use vstd::prelude::*;

use crate::cli;
use crate::cli::{Ending, Request, Settings};
use crate::extract::Format;
use crate::keyspec;
use crate::reading;
use crate::sorter::{CheckOutcome, Config, Stats};
use crate::text;
use crate::value::MissingOrder;

verus! {

/// What the arguments ask for, where the options before them gave `o`.
pub open spec fn asked(args: Seq<Seq<char>>, o: Settings) -> Result<Request, Seq<char>> {
    cli::requested(args, 0, o, false)
}

/// The arguments `name` and `v`, and then others.
pub open spec fn option(name: Seq<char>, v: Seq<char>, rest: Seq<Seq<char>>) -> Seq<Seq<char>> {
    seq![name, v] + rest
}

/// The long names differ from each other.
proof fn lemma_long_names()
    ensures
        "--key"@ != "--format"@ && "--key"@ != "--delimiter"@ && "--key"@ != "--output"@,
        "--key"@ != "--missing"@ && "--key"@ != "--mem"@ && "--key"@ != "--tmp"@,
        "--key"@ != "--fan-in"@ && "--format"@ != "--delimiter"@ && "--format"@ != "--output"@,
        "--format"@ != "--missing"@ && "--format"@ != "--mem"@ && "--format"@ != "--tmp"@,
        "--format"@ != "--fan-in"@ && "--delimiter"@ != "--output"@,
        "--delimiter"@ != "--missing"@ && "--delimiter"@ != "--mem"@ && "--delimiter"@ != "--tmp"@,
        "--delimiter"@ != "--fan-in"@ && "--output"@ != "--missing"@ && "--output"@ != "--mem"@,
        "--output"@ != "--tmp"@ && "--output"@ != "--fan-in"@ && "--missing"@ != "--mem"@,
        "--missing"@ != "--tmp"@ && "--missing"@ != "--fan-in"@ && "--mem"@ != "--tmp"@,
        "--mem"@ != "--fan-in"@ && "--tmp"@ != "--fan-in"@,
{
    reveal_strlit("--key");
    reveal_strlit("--format");
    reveal_strlit("--delimiter");
    reveal_strlit("--output");
    reveal_strlit("--missing");
    reveal_strlit("--mem");
    reveal_strlit("--tmp");
    reveal_strlit("--fan-in");
    assert("--key"@.len() == 5 && "--format"@.len() == 8 && "--delimiter"@.len() == 11);
    assert("--output"@.len() == 8 && "--missing"@.len() == 9 && "--mem"@.len() == 5);
    assert("--tmp"@.len() == 5 && "--fan-in"@.len() == 8);
    assert("--key"@[2] == 'k' && "--mem"@[2] == 'm' && "--tmp"@[2] == 't');
    assert("--format"@[3] == 'o' && "--output"@[3] == 'u' && "--fan-in"@[3] == 'a');
}

/// The short names differ from each other and from the long ones.
proof fn lemma_short_names()
    ensures
        "-k"@.len() == 2 && "-f"@.len() == 2 && "-d"@.len() == 2 && "-o"@.len() == 2,
        "-k"@ != "-f"@ && "-k"@ != "-d"@ && "-k"@ != "-o"@ && "-f"@ != "-d"@ && "-f"@ != "-o"@
            && "-d"@ != "-o"@,
        "--key"@.len() > 2 && "--format"@.len() > 2 && "--delimiter"@.len() > 2,
        "--output"@.len() > 2 && "--missing"@.len() > 2 && "--mem"@.len() > 2 && "--tmp"@.len() > 2
            && "--fan-in"@.len() > 2,
{
    reveal_strlit("-k");
    reveal_strlit("-f");
    reveal_strlit("-d");
    reveal_strlit("-o");
    reveal_strlit("--key");
    reveal_strlit("--format");
    reveal_strlit("--delimiter");
    reveal_strlit("--output");
    reveal_strlit("--missing");
    reveal_strlit("--mem");
    reveal_strlit("--tmp");
    reveal_strlit("--fan-in");
    assert("-k"@[1] == 'k' && "-f"@[1] == 'f' && "-d"@[1] == 'd' && "-o"@[1] == 'o');
}

proof fn lemma_valued()
    ensures
        cli::valued("-k"@) == Some("--key"@),
        cli::valued("--key"@) == Some("--key"@),
        cli::valued("-f"@) == Some("--format"@),
        cli::valued("--format"@) == Some("--format"@),
        cli::valued("-d"@) == Some("--delimiter"@),
        cli::valued("--delimiter"@) == Some("--delimiter"@),
        cli::valued("-o"@) == Some("--output"@),
        cli::valued("--output"@) == Some("--output"@),
        cli::valued("--missing"@) == Some("--missing"@),
        cli::valued("--mem"@) == Some("--mem"@),
        cli::valued("--tmp"@) == Some("--tmp"@),
        cli::valued("--fan-in"@) == Some("--fan-in"@),
{
    reveal(cli::valued);
    lemma_long_names();
    lemma_short_names();
}

/// An option with its value comes to the settings with that value.
proof fn lemma_option(name: Seq<char>, v: Seq<char>, rest: Seq<Seq<char>>, o: Settings)
    requires
        cli::valued(name) is Some,
    ensures
        asked(option(name, v, rest), o) == (match cli::with_value(
            o,
            cli::valued(name)->Some_0,
            v,
        ) {
            Ok(p) => asked(rest, p),
            Err(e) => Err(e),
        }),
{
    let a = option(name, v, rest);
    cli::lemma_option_name(name);
    cli::lemma_find_at(name, name.len() as int);
    assert(cli::name_part(name, false) == name && cli::value_part(name, false) is None) by {
        reveal(cli::name_part);
        reveal(cli::value_part);
    }
    assert(a[0] == name && a[1] == v);
    reveal(cli::turn);
    if let Ok(p) = cli::with_value(o, cli::valued(name)->Some_0, v) {
        assert(a.skip(2) =~= rest);
        assert(rest.skip(0) =~= rest);
        cli::lemma_same_rest(a, 2, rest, 0, p, false);
    }
}

/// `--missing first` and `--missing last` place missing values first and
/// last, and set nothing else; any other word is refused.
pub proof fn law_missing_places(o: Settings, v: Seq<char>, rest: Seq<Seq<char>>)
    ensures
        asked(option("--missing"@, "first"@, rest), o) == asked(
            rest,
            Settings { missing: MissingOrder::First, ..o },
        ),
        asked(option("--missing"@, "last"@, rest), o) == asked(
            rest,
            Settings { missing: MissingOrder::Last, ..o },
        ),
        v != "first"@ && v != "last"@ ==> asked(option("--missing"@, v, rest), o) is Err,
{
    lemma_valued();
    lemma_long_names();
    lemma_option("--missing"@, "first"@, rest, o);
    lemma_option("--missing"@, "last"@, rest, o);
    lemma_option("--missing"@, v, rest, o);
    reveal(cli::with_value);
    reveal_strlit("first");
    reveal_strlit("last");
    assert("first"@.len() == 5 && "last"@.len() == 4);
}

/// Each `-k` or `--key` adds the key that its value says, behind those that
/// were given before.
pub proof fn law_keys_accumulate(o: Settings, v: Seq<char>, rest: Seq<Seq<char>>)
    ensures
        match keyspec::specified(v) {
            Ok(key) => {
                &&& asked(option("-k"@, v, rest), o) == asked(
                    rest,
                    Settings { keys: o.keys.push(key), ..o },
                )
                &&& asked(option("--key"@, v, rest), o) == asked(
                    rest,
                    Settings { keys: o.keys.push(key), ..o },
                )
            },
            Err(e) => {
                &&& asked(option("-k"@, v, rest), o) == Err::<Request, Seq<char>>(e)
                &&& asked(option("--key"@, v, rest), o) == Err::<Request, Seq<char>>(e)
            },
        },
{
    lemma_valued();
    lemma_long_names();
    lemma_option("-k"@, v, rest, o);
    lemma_option("--key"@, v, rest, o);
    reveal(cli::with_value);
}

/// `-f` or `--format` with `csv`, with `jsonl` or `ndjson`, and with `auto`,
/// which leaves it to the input; any other word is refused.
pub proof fn law_formats_are_named(o: Settings, v: Seq<char>, rest: Seq<Seq<char>>)
    ensures
        asked(option("--format"@, v, rest), o) == asked(option("-f"@, v, rest), o),
        v == "csv"@ ==> asked(option("-f"@, v, rest), o) == asked(
            rest,
            Settings { format: Some(Format::Csv), ..o },
        ),
        v == "jsonl"@ || v == "ndjson"@ ==> asked(option("-f"@, v, rest), o) == asked(
            rest,
            Settings { format: Some(Format::Jsonl), ..o },
        ),
        v == "auto"@ ==> asked(option("-f"@, v, rest), o) == asked(
            rest,
            Settings { format: None, ..o },
        ),
        v != "csv"@ && v != "jsonl"@ && v != "ndjson"@ && v != "auto"@ ==> asked(
            option("-f"@, v, rest),
            o,
        ) is Err,
{
    lemma_valued();
    lemma_long_names();
    lemma_option("-f"@, v, rest, o);
    lemma_option("--format"@, v, rest, o);
    reveal(cli::with_value);
    reveal_strlit("csv");
    reveal_strlit("jsonl");
    reveal_strlit("ndjson");
    reveal_strlit("auto");
    assert("csv"@.len() == 3 && "jsonl"@.len() == 5 && "ndjson"@.len() == 6 && "auto"@.len() == 4);
}

/// `-o` or `--output` and `--tmp` take their value as it is.
pub proof fn law_paths_are_taken_as_they_are(o: Settings, v: Seq<char>, rest: Seq<Seq<char>>)
    ensures
        asked(option("-o"@, v, rest), o) == asked(rest, Settings { output: Some(v), ..o }),
        asked(option("--output"@, v, rest), o) == asked(rest, Settings { output: Some(v), ..o }),
        asked(option("--tmp"@, v, rest), o) == asked(rest, Settings { tmp: Some(v), ..o }),
{
    lemma_valued();
    lemma_long_names();
    lemma_option("-o"@, v, rest, o);
    lemma_option("--output"@, v, rest, o);
    lemma_option("--tmp"@, v, rest, o);
    reveal(cli::with_value);
}

/// `--fan-in` takes a number of two or more.
pub proof fn law_fan_in_is_a_number(o: Settings, n: nat, rest: Seq<Seq<char>>)
    ensures
        2 <= n <= usize::MAX ==> asked(option("--fan-in"@, text::decimal_text(n), rest), o)
            == asked(rest, Settings { fan_in: n as usize, ..o }),
        !(2 <= n <= usize::MAX) ==> asked(option("--fan-in"@, text::decimal_text(n), rest), o)
            is Err,
{
    lemma_valued();
    lemma_long_names();
    lemma_option("--fan-in"@, text::decimal_text(n), rest, o);
    reveal(cli::with_value);
    reading::law_written_numbers_read_back(n, usize::MAX as nat);
}

/// A `--fan-in` that is no number is refused.
pub proof fn law_fan_in_is_nothing_else(o: Settings, v: Seq<char>, rest: Seq<Seq<char>>)
    requires
        !reading::is_figures(v),
        v.len() > 0 && v[0] == '+' ==> !reading::is_figures(v.skip(1)),
    ensures
        asked(option("--fan-in"@, v, rest), o) is Err,
{
    lemma_valued();
    lemma_long_names();
    lemma_option("--fan-in"@, v, rest, o);
    reveal(cli::with_value);
    reading::law_numbers_are_digits(v, usize::MAX as nat);
}

/// The factor of a size letter: 2^10, 2^20 and 2^30.
pub open spec fn factor(letter: Option<char>) -> Option<nat> {
    match letter {
        None => Some(1),
        Some('k') => Some(1024),
        Some('K') => Some(1024),
        Some('m') => Some(1024 * 1024),
        Some('M') => Some(1024 * 1024),
        Some('g') => Some(1024 * 1024 * 1024),
        Some('G') => Some(1024 * 1024 * 1024),
        _ => None,
    }
}

/// A number with its letter, if any.
pub open spec fn size_text(n: nat, letter: Option<char>) -> Seq<char> {
    text::decimal_text(n) + (match letter {
        None => Seq::empty(),
        Some(c) => seq![c],
    })
}

proof fn lemma_untrimmed(s: Seq<char>)
    requires
        s.len() > 0 ==> !text::is_space(s[0]) && !text::is_space(s.last()),
    ensures
        text::trimmed(s) == s,
{
}

/// A size is its number, times the factor of its letter; none that is zero,
/// and none whose number is 2^34 or more.
pub proof fn law_sizes_are_binary(n: nat, letter: Option<char>)
    requires
        factor(letter) is Some,
    ensures
        0 < n < 0x4_0000_0000 ==> cli::size(size_text(n, letter)) == Ok::<u64, Seq<char>>(
            (n * factor(letter)->Some_0) as u64,
        ) && n * factor(letter)->Some_0 <= u64::MAX,
        !(0 < n < 0x4_0000_0000) ==> cli::size(size_text(n, letter)) is Err,
{
    let d = text::decimal_text(n);
    let s = size_text(n, letter);
    reading::law_numbers_are_written_plainly(n);
    reading::law_digits_mean_their_number(n, d.len());
    assert(text::is_digit(d[0]) && text::is_digit(d[d.len() - 1]));
    assert(!text::is_space(d[0]) && !text::is_space(d[d.len() - 1]));
    assert(s[0] == d[0]);
    lemma_untrimmed(s);
    lemma_untrimmed(d);
    reading::law_written_numbers_read_back(n, u64::MAX as nat);
    let f = factor(letter)->Some_0;
    match letter {
        None => {
            assert(s =~= d);
            assert(cli::unit(s.last()) is None);
        },
        Some(c) => {
            assert(s.drop_last() =~= d);
            assert(s.last() == c);
            assert(cli::unit(c) == Some(f));
        },
    }
    if 0 < n < 0x4_0000_0000 {
        assert(0 < n * f <= u64::MAX) by (nonlinear_arith)
            requires
                0 < n < 0x4_0000_0000,
                1 <= f <= 1024 * 1024 * 1024,
        ;
    } else if n == 0 {
        assert(n * f == 0) by (nonlinear_arith)
            requires
                n == 0,
        ;
    }
}

/// `--mem` takes a size.
pub proof fn law_mem_is_a_size(o: Settings, v: Seq<char>, rest: Seq<Seq<char>>)
    ensures
        match cli::size(v) {
            Ok(n) => asked(option("--mem"@, v, rest), o) == asked(rest, Settings { mem: n, ..o }),
            Err(e) => asked(option("--mem"@, v, rest), o) == Err::<Request, Seq<char>>(e),
        },
{
    lemma_valued();
    lemma_long_names();
    lemma_option("--mem"@, v, rest, o);
    reveal(cli::with_value);
}

/// A delimiter is one character of ASCII, which stands for itself; a quote
/// and the two line ends are none. Three texts stand for a tab.
pub proof fn law_delimiters_stand_for_themselves(c: char)
    ensures
        (c as int) < 128 && c != '"' && c != '\n' && c != '\r' ==> cli::delimiter(seq![c]) is Ok
            && cli::delimiter(seq![c])->Ok_0 == c as int,
        !((c as int) < 128 && c != '"' && c != '\n' && c != '\r') ==> cli::delimiter(seq![c]) is Err,
        cli::delimiter(seq!['\t']) == Ok::<u8, Seq<char>>(9),
        cli::delimiter(seq!['\\', 't']) == Ok::<u8, Seq<char>>(9),
        cli::delimiter(seq!['t', 'a', 'b']) == Ok::<u8, Seq<char>>(9),
{
    reveal_strlit("\\t");
    reveal_strlit("\t");
    reveal_strlit("tab");
    assert("\\t"@ =~= seq!['\\', 't']);
    assert("\t"@ =~= seq!['\t']);
    assert("tab"@ =~= seq!['t', 'a', 'b']);
    assert(seq![c].len() == 1 && seq![c][0] == c);
    if seq![c] == "\t"@ {
        assert("\t"@[0] == '\t');
    }
}

/// Every other text is no delimiter.
pub proof fn law_delimiters_are_one_character(s: Seq<char>)
    requires
        s.len() != 1,
        s != seq!['\\', 't'],
        s != seq!['t', 'a', 'b'],
    ensures
        cli::delimiter(s) is Err,
{
    reveal_strlit("\\t");
    reveal_strlit("\t");
    reveal_strlit("tab");
    assert("\\t"@ =~= seq!['\\', 't']);
    assert("\t"@.len() == 1);
    assert("tab"@ =~= seq!['t', 'a', 'b']);
}

/// `-d` or `--delimiter` takes a delimiter.
pub proof fn law_delimiter_is_taken(o: Settings, v: Seq<char>, rest: Seq<Seq<char>>)
    ensures
        asked(option("--delimiter"@, v, rest), o) == asked(option("-d"@, v, rest), o),
        match cli::delimiter(v) {
            Ok(b) => asked(option("-d"@, v, rest), o) == asked(
                rest,
                Settings { delim: Some(b), ..o },
            ),
            Err(e) => asked(option("-d"@, v, rest), o) == Err::<Request, Seq<char>>(e),
        },
{
    lemma_valued();
    lemma_long_names();
    lemma_option("-d"@, v, rest, o);
    lemma_option("--delimiter"@, v, rest, o);
    reveal(cli::with_value);
}

/// An option at the end that wants a value is refused.
pub proof fn law_values_are_required(name: Seq<char>, o: Settings)
    requires
        cli::valued(name) is Some,
    ensures
        asked(seq![name], o) is Err,
{
    cli::lemma_option_name(name);
    cli::lemma_find_at(name, name.len() as int);
    reveal(cli::name_part);
    reveal(cli::value_part);
    reveal(cli::turn);
    assert(seq![name][0] == name);
}

// ---------------------------------------------------------------------------
// Switches, files and the end

/// A text that begins with a dash, holds no `=` and is neither `-` nor `--`
/// is the name of an option.
proof fn lemma_plain_name(name: Seq<char>)
    requires
        forall|k: int| 0 <= k < name.len() ==> #[trigger] name[k] != '=',
    ensures
        cli::name_part(name, false) == name,
        cli::value_part(name, false) is None,
{
    cli::lemma_find_at(name, name.len() as int);
    reveal(cli::name_part);
    reveal(cli::value_part);
}

/// A switch comes to the settings with it turned on.
proof fn lemma_switch(name: Seq<char>, rest: Seq<Seq<char>>, o: Settings)
    requires
        name.len() > 1 && name[0] == '-',
        name != "--"@ && name != "-h"@ && name != "--help"@ && name != "-V"@ && name
            != "--version"@,
        forall|k: int| 0 <= k < name.len() ==> #[trigger] name[k] != '=',
        cli::valued(name) is None,
        cli::with_switch(o, name) is Some,
    ensures
        asked(seq![name] + rest, o) == asked(rest, cli::with_switch(o, name)->Some_0),
{
    let a = seq![name] + rest;
    lemma_plain_name(name);
    reveal_strlit("-");
    assert(a[0] == name);
    reveal(cli::turn);
    assert(a.skip(1) =~= rest);
    assert(rest.skip(0) =~= rest);
    cli::lemma_same_rest(a, 1, rest, 0, cli::with_switch(o, name)->Some_0, false);
}

/// Whether `name` is none of the options that take a value, and asks for
/// neither help nor the version.
spec fn is_other(name: Seq<char>) -> bool {
    &&& name.len() > 1 && name[0] == '-'
    &&& name != "--"@ && name != "-h"@ && name != "--help"@ && name != "-V"@ && name
        != "--version"@
    &&& forall|k: int| 0 <= k < name.len() ==> #[trigger] name[k] != '='
    &&& cli::valued(name) is None
}

proof fn lemma_short_switches()
    ensures
        is_other("-u"@) && is_other("-c"@) && is_other("-r"@),
        "-u"@ != "-c"@ && "-u"@ != "-r"@ && "-c"@ != "-r"@,
        "-u"@.len() == 2 && "-c"@.len() == 2 && "-r"@.len() == 2,
{
    reveal(cli::valued);
    lemma_short_names();
    reveal_strlit("-u");
    reveal_strlit("-c");
    reveal_strlit("-r");
    reveal_strlit("-k");
    reveal_strlit("-f");
    reveal_strlit("-d");
    reveal_strlit("-o");
    reveal_strlit("-h");
    reveal_strlit("-V");
    reveal_strlit("--");
    reveal_strlit("--help");
    reveal_strlit("--version");
    assert("-u"@[1] == 'u' && "-c"@[1] == 'c' && "-r"@[1] == 'r');
    assert("-k"@[1] == 'k' && "-f"@[1] == 'f' && "-d"@[1] == 'd' && "-o"@[1] == 'o');
    assert("-h"@[1] == 'h' && "-V"@[1] == 'V' && "--"@[1] == '-');
    assert("--help"@.len() == 6 && "--version"@.len() == 9);
}

proof fn lemma_long_switches()
    ensures
        is_other("--no-header"@) && is_other("--unique"@) && is_other("--check"@),
        is_other("--reverse"@) && is_other("--lenient"@) && is_other("--stats"@),
        "--no-header"@ != "--unique"@ && "--no-header"@ != "--check"@ && "--no-header"@
            != "--reverse"@ && "--no-header"@ != "--lenient"@ && "--no-header"@ != "--stats"@,
        "--unique"@ != "--check"@ && "--unique"@ != "--reverse"@ && "--unique"@ != "--lenient"@
            && "--unique"@ != "--stats"@,
        "--check"@ != "--reverse"@ && "--check"@ != "--lenient"@ && "--check"@ != "--stats"@,
        "--reverse"@ != "--lenient"@ && "--reverse"@ != "--stats"@ && "--lenient"@ != "--stats"@,
        "--no-header"@.len() > 2 && "--unique"@.len() > 2 && "--check"@.len() > 2
            && "--reverse"@.len() > 2 && "--lenient"@.len() > 2 && "--stats"@.len() > 2,
{
    reveal(cli::valued);
    lemma_short_names();
    reveal_strlit("--no-header");
    reveal_strlit("--unique");
    reveal_strlit("--check");
    reveal_strlit("--reverse");
    reveal_strlit("--lenient");
    reveal_strlit("--stats");
    reveal_strlit("--key");
    reveal_strlit("--format");
    reveal_strlit("--delimiter");
    reveal_strlit("--output");
    reveal_strlit("--missing");
    reveal_strlit("--mem");
    reveal_strlit("--tmp");
    reveal_strlit("--fan-in");
    reveal_strlit("-h");
    reveal_strlit("-V");
    reveal_strlit("--");
    reveal_strlit("--help");
    reveal_strlit("--version");
    assert("--no-header"@.len() == 11 && "--unique"@.len() == 8 && "--check"@.len() == 7);
    assert("--reverse"@.len() == 9 && "--lenient"@.len() == 9 && "--stats"@.len() == 7);
    assert("--no-header"@[2] == 'n' && "--unique"@[2] == 'u' && "--check"@[2] == 'c');
    assert("--reverse"@[2] == 'r' && "--lenient"@[2] == 'l' && "--stats"@[2] == 's');
    assert("--key"@.len() == 5 && "--format"@.len() == 8 && "--delimiter"@.len() == 11);
    assert("--output"@.len() == 8 && "--missing"@.len() == 9 && "--mem"@.len() == 5);
    assert("--tmp"@.len() == 5 && "--fan-in"@.len() == 8);
    assert("--format"@[2] == 'f' && "--output"@[2] == 'o' && "--fan-in"@[2] == 'f');
    assert("--delimiter"@[2] == 'd' && "--missing"@[2] == 'm' && "--version"@[2] == 'v');
    assert("--help"@.len() == 6 && "--version"@.len() == 9);
}

/// Each switch turns its own setting on and leaves the others alone.
pub proof fn law_switches_turn_on(o: Settings, rest: Seq<Seq<char>>)
    ensures
        asked(seq!["--no-header"@] + rest, o) == asked(rest, Settings { no_header: true, ..o }),
        asked(seq!["-u"@] + rest, o) == asked(rest, Settings { unique: true, ..o }),
        asked(seq!["--unique"@] + rest, o) == asked(rest, Settings { unique: true, ..o }),
        asked(seq!["-c"@] + rest, o) == asked(rest, Settings { check: true, ..o }),
        asked(seq!["--check"@] + rest, o) == asked(rest, Settings { check: true, ..o }),
        asked(seq!["-r"@] + rest, o) == asked(rest, Settings { reverse: true, ..o }),
        asked(seq!["--reverse"@] + rest, o) == asked(rest, Settings { reverse: true, ..o }),
        asked(seq!["--lenient"@] + rest, o) == asked(rest, Settings { lenient: true, ..o }),
        asked(seq!["--stats"@] + rest, o) == asked(rest, Settings { stats: true, ..o }),
{
    lemma_short_switches();
    lemma_long_switches();
    reveal(cli::with_switch);
    lemma_switch("--no-header"@, rest, o);
    lemma_switch("-u"@, rest, o);
    lemma_switch("--unique"@, rest, o);
    lemma_switch("-c"@, rest, o);
    lemma_switch("--check"@, rest, o);
    lemma_switch("-r"@, rest, o);
    lemma_switch("--reverse"@, rest, o);
    lemma_switch("--lenient"@, rest, o);
    lemma_switch("--stats"@, rest, o);
}

/// Help and the version are given as soon as they are asked for.
pub proof fn law_help_comes_first(o: Settings, rest: Seq<Seq<char>>)
    ensures
        asked(seq!["-h"@] + rest, o) == Ok::<Request, Seq<char>>(Request::Help),
        asked(seq!["--help"@] + rest, o) == Ok::<Request, Seq<char>>(Request::Help),
        asked(seq!["-V"@] + rest, o) == Ok::<Request, Seq<char>>(Request::Version),
        asked(seq!["--version"@] + rest, o) == Ok::<Request, Seq<char>>(Request::Version),
{
    reveal_strlit("-h");
    reveal_strlit("--help");
    reveal_strlit("-V");
    reveal_strlit("--version");
    reveal_strlit("-");
    reveal_strlit("--");
    assert("-h"@[1] == 'h' && "-V"@[1] == 'V' && "--"@[1] == '-');
    assert("--help"@.len() == 6 && "--version"@.len() == 9);
    lemma_plain_name("-h"@);
    lemma_plain_name("--help"@);
    lemma_plain_name("-V"@);
    lemma_plain_name("--version"@);
    reveal(cli::turn);
    assert((seq!["-h"@] + rest)[0] == "-h"@);
    assert((seq!["--help"@] + rest)[0] == "--help"@);
    assert((seq!["-V"@] + rest)[0] == "-V"@);
    assert((seq!["--version"@] + rest)[0] == "--version"@);
}

/// An argument that begins with no dash is the file, and so is `-`; a second
/// one is refused.
pub proof fn law_one_file(file: Seq<char>, o: Settings, rest: Seq<Seq<char>>)
    requires
        file.len() == 0 || file[0] != '-' || file == seq!['-'],
    ensures
        o.file is None ==> asked(seq![file] + rest, o) == asked(
            rest,
            Settings { file: Some(file), ..o },
        ),
        o.file is Some ==> asked(seq![file] + rest, o) is Err,
{
    let a = seq![file] + rest;
    reveal_strlit("-");
    assert("-"@ =~= seq!['-']);
    text::lemma_find(file, '=');
    let i = text::find(file, '=');
    assert(i > 0 && i <= file.len() ==> file.take(i)[0] == file[0]);
    assert(cli::name_part(file, false) == file) by {
        reveal(cli::name_part);
    }
    assert(a[0] == file);
    reveal(cli::turn);
    assert(a.skip(1) =~= rest);
    assert(rest.skip(0) =~= rest);
    cli::lemma_same_rest(a, 1, rest, 0, Settings { file: Some(file), ..o }, false);
}

/// Behind `--` whatever comes is the file.
pub proof fn law_double_dash_ends_options(file: Seq<char>, o: Settings)
    ensures
        o.file is None ==> asked(seq!["--"@, file], o) == asked(
            Seq::empty(),
            Settings { file: Some(file), ..o },
        ),
        asked(seq!["--"@], o) == asked(Seq::empty(), o),
{
    reveal_strlit("--");
    reveal_strlit("-");
    lemma_plain_name("--"@);
    let a = seq!["--"@, file];
    let b = seq!["--"@];
    assert(a[0] == "--"@ && a[1] == file && b[0] == "--"@);
    reveal(cli::turn);
    reveal(cli::name_part);
    reveal_with_fuel(cli::requested, 3);
}

/// An option of any other name is refused.
pub proof fn law_unknown_options_are_refused(name: Seq<char>, o: Settings, rest: Seq<Seq<char>>)
    requires
        name.len() > 1 && name[0] == '-' && name != seq!['-', '-'],
        forall|k: int| 0 <= k < name.len() ==> #[trigger] name[k] != '=',
        !seq![
            "-k"@,
            "--key"@,
            "-f"@,
            "--format"@,
            "-d"@,
            "--delimiter"@,
            "-o"@,
            "--output"@,
            "--missing"@,
            "--mem"@,
            "--tmp"@,
            "--fan-in"@,
        ].contains(name),
        !seq![
            "--no-header"@,
            "-u"@,
            "--unique"@,
            "-c"@,
            "--check"@,
            "-r"@,
            "--reverse"@,
            "--lenient"@,
            "--stats"@,
        ].contains(name),
        !seq!["-h"@, "--help"@, "-V"@, "--version"@].contains(name),
    ensures
        asked(seq![name] + rest, o) is Err,
{
    let a = seq![
        "-k"@,
        "--key"@,
        "-f"@,
        "--format"@,
        "-d"@,
        "--delimiter"@,
        "-o"@,
        "--output"@,
        "--missing"@,
        "--mem"@,
        "--tmp"@,
        "--fan-in"@,
    ];
    let b = seq![
        "--no-header"@,
        "-u"@,
        "--unique"@,
        "-c"@,
        "--check"@,
        "-r"@,
        "--reverse"@,
        "--lenient"@,
        "--stats"@,
    ];
    let c = seq!["-h"@, "--help"@, "-V"@, "--version"@];
    assert(a[0] != name && a[1] != name && a[2] != name && a[3] != name && a[4] != name && a[5]
        != name && a[6] != name && a[7] != name && a[8] != name && a[9] != name && a[10] != name
        && a[11] != name);
    assert(b[0] != name && b[1] != name && b[2] != name && b[3] != name && b[4] != name && b[5]
        != name && b[6] != name && b[7] != name && b[8] != name);
    assert(c[0] != name && c[1] != name && c[2] != name && c[3] != name);
    lemma_plain_name(name);
    reveal_strlit("-");
    reveal_strlit("--");
    assert("--"@ =~= seq!['-', '-']);
    reveal(cli::valued);
    reveal(cli::with_switch);
    reveal(cli::turn);
    assert((seq![name] + rest)[0] == name);
}

/// At the end the settings are what was asked for, unless a check is to
/// write output.
pub proof fn law_settings_are_what_was_set(o: Settings)
    ensures
        !(o.check && o.output is Some) ==> asked(Seq::empty(), o) == Ok::<Request, Seq<char>>(
            Request::Run(o),
        ),
        o.check && o.output is Some ==> asked(Seq::empty(), o) is Err,
{
}

/// No arguments: nothing is set, missing values come last, 256 MiB of memory
/// and 64 runs at a time. Naming a default is the same as leaving it out.
pub proof fn law_defaults(rest: Seq<Seq<char>>)
    ensures
        ({
            let o = cli::defaults();
            &&& asked(Seq::empty(), o) == Ok::<Request, Seq<char>>(Request::Run(o))
            &&& o.keys.len() == 0 && o.format is None && o.delim is None && o.output is None
            &&& o.tmp is None && o.file is None && !o.no_header && !o.unique && !o.check
            &&& !o.reverse && !o.lenient && !o.stats && o.missing == MissingOrder::Last
            &&& o.mem == 256 * 1024 * 1024 && o.fan_in == 64
            &&& asked(option("--missing"@, "last"@, rest), o) == asked(rest, o)
            &&& asked(option("--format"@, "auto"@, rest), o) == asked(rest, o)
            &&& asked(option("--mem"@, size_text(256, Some('M')), rest), o) == asked(rest, o)
            &&& asked(option("--fan-in"@, text::decimal_text(64), rest), o) == asked(rest, o)
        }),
{
    let o = cli::defaults();
    law_missing_places(o, "last"@, rest);
    law_formats_are_named(o, "auto"@, rest);
    law_sizes_are_binary(256, Some('M'));
    law_mem_is_a_size(o, size_text(256, Some('M')), rest);
    law_fan_in_is_a_number(o, 64, rest);
}

// ---------------------------------------------------------------------------
// Formats and exit codes

/// The extension decides whatever its letters' case: `csv` and `tsv` are CSV,
/// `jsonl`, `ndjson` and `json` are JSONL, and of these only `tsv` has tabs.
pub proof fn law_extensions(e: Seq<char>)
    ensures
        cli::format_of(None) is None,
        !cli::is_tsv(None),
        ({
            let low = text::lower_text(e);
            &&& low == "csv"@ || low == "tsv"@ <==> cli::format_of(Some(e)) == Some(Format::Csv)
            &&& low == "jsonl"@ || low == "ndjson"@ || low == "json"@ <==> cli::format_of(Some(e))
                == Some(Format::Jsonl)
            &&& low == "tsv"@ <==> cli::is_tsv(Some(e))
        }),
{
    reveal_strlit("csv");
    reveal_strlit("tsv");
    reveal_strlit("jsonl");
    reveal_strlit("ndjson");
    reveal_strlit("json");
    assert("csv"@.len() == 3 && "tsv"@.len() == 3 && "jsonl"@.len() == 5);
    assert("ndjson"@.len() == 6 && "json"@.len() == 4);
}

/// Content decides by its first byte that is no blank, tab or line end:
/// a brace or a bracket that opens begins JSONL, anything else and nothing
/// at all is CSV.
pub proof fn law_content_decides(blanks: Seq<u8>, rest: Seq<u8>)
    requires
        forall|i: int|
            0 <= i < blanks.len() ==> seq![0x20u8, 0x09u8, 0x0Du8, 0x0Au8].contains(
                #[trigger] blanks[i],
            ),
        rest.len() > 0 ==> !seq![0x20u8, 0x09u8, 0x0Du8, 0x0Au8].contains(rest[0]),
    ensures
        cli::format_in(blanks + rest) == (if rest.len() > 0 && (rest[0] == 0x7B || rest[0]
            == 0x5B) {
            Format::Jsonl
        } else {
            Format::Csv
        }),
    decreases blanks.len(),
{
    let s = blanks + rest;
    let four = seq![0x20u8, 0x09u8, 0x0Du8, 0x0Au8];
    if blanks.len() > 0 {
        assert(four.contains(blanks[0]));
        assert(s.drop_first() =~= blanks.drop_first() + rest);
        assert forall|i: int| 0 <= i < blanks.len() - 1 implies four.contains(
            #[trigger] blanks.drop_first()[i],
        ) by {
            assert(four.contains(blanks[i + 1]));
        }
        law_content_decides(blanks.drop_first(), rest);
    } else {
        assert(s =~= rest);
        assert(four[0] == 0x20 && four[1] == 0x09 && four[2] == 0x0D && four[3] == 0x0A);
    }
}

/// What follows the first byte that decides makes no difference, and neither
/// does how many blanks come before it.
pub proof fn law_first_byte_decides(a: Seq<u8>, b: Seq<u8>, blank: u8)
    requires
        blank == 0x20 || blank == 0x09 || blank == 0x0D || blank == 0x0A,
    ensures
        cli::format_in(seq![blank] + a) == cli::format_in(a),
        cli::format_in(seq![0x7Bu8] + b) == Format::Jsonl,
        cli::format_in(seq![0x5Bu8] + b) == Format::Jsonl,
{
    assert((seq![blank] + a).drop_first() =~= a);
}

/// The input is the named file, and standard input where none is named or
/// its name is a dash.
pub proof fn law_dash_is_standard_input(o: Settings)
    ensures
        cli::named_input(o) is None <==> o.file is None || o.file == Some(seq!['-']),
        cli::named_input(o) is Some ==> cli::named_input(o) == o.file,
{
    reveal_strlit("-");
    assert("-"@ =~= seq!['-']);
}

/// Each setting goes to the engine as it is: the header is expected unless
/// there is none, and the delimiter is the one given, else a tab for
/// tab-separated values, else a comma.
pub proof fn law_settings_reach_the_engine(
    cfg: Config,
    o: Settings,
    format: Format,
    ext: Option<Seq<char>>,
)
    requires
        cli::is_configured(cfg, o, format, ext),
    ensures
        cfg.format == format,
        keyspec::keys(cfg.specs@) == o.keys,
        o.delim matches Some(d) ==> cfg.delim == d,
        o.delim is None && cli::is_tsv(ext) ==> cfg.delim == 9,
        o.delim is None && !cli::is_tsv(ext) ==> cfg.delim == 44,
        cfg.has_header <==> !o.no_header,
        cfg.missing == o.missing,
        cfg.lenient <==> o.lenient,
        cfg.unique <==> o.unique,
        cfg.reverse <==> o.reverse,
        cfg.mem_limit == o.mem,
        cfg.fan_in == o.fan_in,
{
}

/// A run ends with 2 where anything went wrong, with 1 where a check found a
/// fault, and else with 0.
pub proof fn law_exit_codes(why: String, fault: CheckOutcome)
    ensures
        cli::exit_status(Err(why)) == 2,
        fault != CheckOutcome::Sorted ==> cli::exit_status(Ok(Ending::Checked(fault))) == 1,
        cli::exit_status(Ok(Ending::Checked(CheckOutcome::Sorted))) == 0,
        cli::exit_status(Ok(Ending::Sorted)) == 0,
        cli::exit_status(Ok(Ending::Help)) == 0,
        cli::exit_status(Ok(Ending::Version)) == 0,
{
}

/// A check that found a fault names the input, the fault, the record and the
/// line; one that found none says nothing.
pub proof fn law_faults_are_located(name: Seq<char>, record: u64, line: u64)
    ensures
        cli::check_message(name, CheckOutcome::Sorted) is None,
        cli::check_message(name, CheckOutcome::Disorder { record, line }) == Some(
            name + ": disorder at record "@ + text::decimal_text(record as nat) + " (line "@
                + text::decimal_text(line as nat) + ")"@,
        ),
        cli::check_message(name, CheckOutcome::Duplicate { record, line }) == Some(
            name + ": duplicate key at record "@ + text::decimal_text(record as nat) + " (line "@
                + text::decimal_text(line as nat) + ")"@,
        ),
{
}

/// Each counter stands in its own line.
pub proof fn law_counters_are_shown(format: Format, stats: Stats)
    ensures
        ({
            let l = cli::stats_lines(format, stats);
            &&& l.len() == 6
            &&& l[0] == "format:          "@ + (if format == Format::Csv {
                "csv"@
            } else {
                "jsonl"@
            })
            &&& l[1] == "records read:    "@ + text::decimal_text(stats.records_in as nat)
            &&& l[2] == "records written: "@ + text::decimal_text(stats.records_out as nat)
            &&& l[3] == "bytes read:      "@ + text::decimal_text(stats.bytes_in as nat)
            &&& l[4] == "spilled runs:    "@ + text::decimal_text(stats.runs_spilled as nat)
            &&& l[5] == "merge passes:    "@ + text::decimal_text(stats.merge_passes as nat)
        }),
{
}

/// A switch takes no value.
pub proof fn law_switches_take_no_value(
    name: Seq<char>,
    v: Seq<char>,
    o: Settings,
    rest: Seq<Seq<char>>,
)
    requires
        seq![
            "--no-header"@,
            "-u"@,
            "--unique"@,
            "-c"@,
            "--check"@,
            "-r"@,
            "--reverse"@,
            "--lenient"@,
            "--stats"@,
        ].contains(name),
    ensures
        asked(seq![name + seq!['='] + v] + rest, o) is Err,
{
    lemma_short_switches();
    lemma_long_switches();
    let b = seq![
        "--no-header"@,
        "-u"@,
        "--unique"@,
        "-c"@,
        "--check"@,
        "-r"@,
        "--reverse"@,
        "--lenient"@,
        "--stats"@,
    ];
    let i = b.index_of(name);
    assert(b[i] == name);
    assert(is_other(name));
    let arg = name + seq!['='] + v;
    cli::lemma_find_at(arg, name.len() as int);
    assert(arg.take(name.len() as int) =~= name);
    assert(cli::name_part(arg, false) == name && cli::value_part(arg, false) is Some) by {
        reveal(cli::name_part);
        reveal(cli::value_part);
    }
    reveal_strlit("-");
    assert((seq![arg] + rest)[0] == arg);
    reveal(cli::turn);
}

} // verus!
