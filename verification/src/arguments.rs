//! What the spellings of the command line mean.
use crate::cli;
use crate::cli::{Cli, CliView, Command, CommandView, OptionsView, ParsedView};
use vstd::prelude::*;

verus! {

/// Nothing is set before the first argument.
pub proof fn lemma_nothing_is_set_at_first()
    ensures
        ({
            let o = cli::no_options();
            !o.list && !o.pipe && !o.quiet && o.dest_dir is None && o.password is None
                && o.positional.len() == 0 && !o.options_done
        }),
{
}

/// The text of an optional string.
pub open spec fn is_text(value: Option<String>, text: Option<Seq<char>>) -> bool {
    match (value, text) {
        (Some(v), Some(t)) => v@ == t,
        (None, None) => true,
        _ => false,
    }
}

/// A result of the command line is what its arguments come to, field by field.
pub proof fn lemma_result_is_what_arguments_mean(
    result: Result<Command, String>,
    wanted: ParsedView,
)
    requires
        cli::result_agrees(result, wanted),
    ensures
        match result {
            Ok(Command::Run(c)) => {
                &&& wanted matches Ok(CommandView::Run(w))
                &&& c.list == w.list && c.pipe == w.pipe && c.quiet == w.quiet
                &&& is_text(c.dest_dir, w.dest_dir)
                &&& is_text(c.password, w.password)
                &&& c.archive@ == w.archive
                &&& c.files@.len() == w.files.len()
                &&& forall|i: int|
                    0 <= i < c.files@.len() ==> (#[trigger] c.files@[i])@ == w.files[i]
            },
            Ok(Command::Help) => wanted matches Ok(CommandView::Help),
            Ok(Command::Version) => wanted matches Ok(CommandView::Version),
            Err(message) => wanted == ParsedView::Err(message@),
        },
{
}

/// The arguments that are read are those that were given.
pub proof fn lemma_arguments_as_given(args: Seq<String>, i: int)
    requires
        0 <= i < args.len(),
    ensures
        cli::texts(args).len() == args.len(),
        cli::texts(args)[i] == args[i]@,
{
}

/// Where the arguments end, what is left is the command: the first argument
/// that is no option names the archive, the others the files.
pub proof fn lemma_end_of_arguments(o: OptionsView)
    ensures
        o.positional.len() == 0 ==> cli::parse_from(Seq::empty(), 0, o) == ParsedView::Err(
            "no archive specified"@,
        ),
        o.positional.len() > 0 ==> (cli::parse_from(Seq::empty(), 0, o) matches Ok(
            CommandView::Run(c),
        ) && {
            &&& c.list == o.list && c.pipe == o.pipe && c.quiet == o.quiet
            &&& c.dest_dir == o.dest_dir
            &&& c.password == o.password
            &&& seq![c.archive] + c.files == o.positional
        }),
{
    if o.positional.len() > 0 {
        assert(seq![o.positional[0]] + o.positional.skip(1) =~= o.positional);
    }
}

/// An argument that does not start with a dash, or is nothing but one, names
/// the archive or a file; and so does every argument where options are done.
pub proof fn lemma_plain_argument(arg: Seq<char>, behind: Seq<Seq<char>>, o: OptionsView)
    requires
        o.options_done || arg.len() == 0 || arg[0] != '-' || arg.len() == 1,
    ensures
        cli::parse_from(seq![arg] + behind, 0, o) == cli::parse_from(
            behind,
            0,
            OptionsView { positional: o.positional.push(arg), ..o },
        ),
{
    reveal_strlit("-");
    let all = seq![arg] + behind;
    if arg.len() == 1 && arg[0] == '-' {
        assert(arg =~= "-"@);
    }
    assert(all.skip(1) =~= behind.skip(0));
    cli::lemma_parse_depends_on_rest(
        all,
        1,
        behind,
        0,
        OptionsView { positional: o.positional.push(arg), ..o },
    );
}

/// Two dashes end the options.
pub proof fn lemma_two_dashes(behind: Seq<Seq<char>>, o: OptionsView)
    requires
        !o.options_done,
    ensures
        cli::parse_from(seq!["--"@] + behind, 0, o) == cli::parse_from(
            behind,
            0,
            OptionsView { options_done: true, ..o },
        ),
{
    reveal_strlit("-");
    reveal_strlit("--");
    let all = seq!["--"@] + behind;
    assert(all.skip(1) =~= behind.skip(0));
    cli::lemma_parse_depends_on_rest(
        all,
        1,
        behind,
        0,
        OptionsView { options_done: true, ..o },
    );
}

/// The first `=` of an option.
proof fn lemma_first_equals(arg: Seq<char>, i: int, at: int)
    requires
        0 <= i <= at <= arg.len(),
        forall|j: int| i <= j < at ==> arg[j] != '=',
        at == arg.len() || arg[at] == '=',
    ensures
        cli::equals_sign(arg, i) == at,
    decreases at - i,
{
    if i < at {
        lemma_first_equals(arg, i + 1, at);
    }
}

/// A long option: two dashes and a name, and, where it has a value of its own,
/// `=` and that.
pub open spec fn long_option(name: Seq<char>, own: Option<Seq<char>>) -> Seq<char> {
    match own {
        Some(value) => seq!['-', '-'] + name + seq!['='] + value,
        None => seq!['-', '-'] + name,
    }
}

/// What a long option is taken apart into.
proof fn lemma_long_option(name: Seq<char>, own: Option<Seq<char>>)
    requires
        name.len() > 0,
        !name.contains('='),
    ensures
        ({
            let arg = long_option(name, own);
            let eq = cli::equals_sign(arg, 2);
            &&& arg.len() > 2 && arg[0] == '-' && arg[1] == '-'
            &&& arg != "-"@ && arg != "--"@
            &&& arg.subrange(2, eq) == name
            &&& own is None ==> eq == arg.len()
            &&& own matches Some(value) ==> eq < arg.len() && arg.skip(eq + 1) == value
        }),
{
    reveal_strlit("-");
    reveal_strlit("--");
    let arg = long_option(name, own);
    let at = 2 + name.len() as int;
    assert forall|j: int| 2 <= j < at implies arg[j] != '=' by {
        assert(arg[j] == name[j - 2]);
    }
    lemma_first_equals(arg, 2, at);
    assert(arg.subrange(2, at) =~= name);
    match own {
        Some(value) => {
            assert(arg.skip(at + 1) =~= value);
        },
        None => {},
    }
}

proof fn lemma_names()
    ensures
        "list"@ =~= seq!['l', 'i', 's', 't'],
        "pipe"@ =~= seq!['p', 'i', 'p', 'e'],
        "quiet"@ =~= seq!['q', 'u', 'i', 'e', 't'],
        "help"@ =~= seq!['h', 'e', 'l', 'p'],
        "version"@ =~= seq!['v', 'e', 'r', 's', 'i', 'o', 'n'],
        "password"@ =~= seq!['p', 'a', 's', 's', 'w', 'o', 'r', 'd'],
        "output-dir"@ =~= seq!['o', 'u', 't', 'p', 'u', 't', '-', 'd', 'i', 'r'],
{
    reveal_strlit("list");
    reveal_strlit("pipe");
    reveal_strlit("quiet");
    reveal_strlit("help");
    reveal_strlit("version");
    reveal_strlit("password");
    reveal_strlit("output-dir");
}

/// A short option: a dash, a letter, and what follows in the same argument.
pub open spec fn short_option(letter: char, rest: Seq<char>) -> Seq<char> {
    seq!['-', letter] + rest
}

/// What a short option is taken apart into.
proof fn lemma_short_option(letter: char, rest: Seq<char>)
    requires
        letter != '-',
    ensures
        ({
            let arg = short_option(letter, rest);
            &&& arg.len() >= 2 && arg[0] == '-' && arg[1] == letter
            &&& arg != "-"@ && arg != "--"@
            &&& arg.skip(2) == rest
        }),
{
    reveal_strlit("-");
    reveal_strlit("--");
    assert(short_option(letter, rest).skip(2) =~= rest);
}

/// The options with the flag set that a letter stands for: `l` lists, `p`
/// writes to the pipe, `q` is quiet.
pub open spec fn with_flag(o: OptionsView, letter: char) -> OptionsView {
    if letter == 'l' {
        OptionsView { list: true, ..o }
    } else if letter == 'p' {
        OptionsView { pipe: true, ..o }
    } else {
        OptionsView { quiet: true, ..o }
    }
}

/// The spellings of a flag agree: its letter and its name set it and go on
/// with what follows.
pub proof fn lemma_flags_are_set(
    letter: char,
    own: Option<Seq<char>>,
    behind: Seq<Seq<char>>,
    o: OptionsView,
)
    requires
        !o.options_done,
        letter == 'l' || letter == 'p' || letter == 'q',
    ensures
        ({
            let name = if letter == 'l' {
                "list"@
            } else if letter == 'p' {
                "pipe"@
            } else {
                "quiet"@
            };
            let set = cli::parse_from(behind, 0, with_flag(o, letter));
            &&& cli::parse_from(seq![short_option(letter, Seq::empty())] + behind, 0, o) == set
            &&& cli::parse_from(seq![long_option(name, own)] + behind, 0, o) == set
        }),
{
    lemma_names();
    let name = if letter == 'l' {
        "list"@
    } else if letter == 'p' {
        "pipe"@
    } else {
        "quiet"@
    };
    let p = with_flag(o, letter);
    lemma_long_option(name, own);
    let long = seq![long_option(name, own)] + behind;
    assert(long[0] == long_option(name, own));
    assert(long.skip(1) =~= behind.skip(0));
    cli::lemma_parse_depends_on_rest(long, 1, behind, 0, p);
    let arg = short_option(letter, Seq::empty());
    lemma_short_option(letter, Seq::empty());
    let short = seq![arg] + behind;
    assert(short[0] == arg);
    assert(short.skip(1) =~= behind.skip(0));
    assert(cli::cluster_from(arg, 1, o) == cli::cluster_from(arg, 2, p));
    assert(cli::cluster_from(arg, 2, p) == cli::ClusterView::Flags(p));
    cli::lemma_parse_depends_on_rest(short, 1, behind, 0, p);
}

/// The options with a value set: `d` is the output directory, `P` the
/// password.
pub open spec fn with_setting(o: OptionsView, letter: char, value: Seq<char>) -> OptionsView {
    if letter == 'd' {
        OptionsView { dest_dir: Some(value), ..o }
    } else {
        OptionsView { password: Some(value), ..o }
    }
}

/// The spellings of an option with a value agree: the value may be the next
/// argument, stand behind `=` of the name, or behind the letter. It is set, is
/// no argument of its own, and what follows goes on behind it.
pub proof fn lemma_values_are_set(
    letter: char,
    value: Seq<char>,
    behind: Seq<Seq<char>>,
    o: OptionsView,
)
    requires
        !o.options_done,
        letter == 'd' || letter == 'P',
    ensures
        ({
            let name = if letter == 'd' {
                "output-dir"@
            } else {
                "password"@
            };
            let set = cli::parse_from(behind, 0, with_setting(o, letter, value));
            &&& cli::parse_from(seq![long_option(name, None), value] + behind, 0, o) == set
            &&& cli::parse_from(seq![long_option(name, Some(value))] + behind, 0, o) == set
            &&& cli::parse_from(
                seq![short_option(letter, Seq::empty()), value] + behind,
                0,
                o,
            ) == set
            &&& value.len() > 0 ==> cli::parse_from(
                seq![short_option(letter, value)] + behind,
                0,
                o,
            ) == set
        }),
{
    lemma_names();
    let name = if letter == 'd' {
        "output-dir"@
    } else {
        "password"@
    };
    let p = with_setting(o, letter, value);
    lemma_long_option(name, None);
    lemma_long_option(name, Some(value));
    lemma_short_option(letter, Seq::empty());
    lemma_short_option(letter, value);
    let a = seq![long_option(name, None), value] + behind;
    assert(a[0] == long_option(name, None) && a[1] == value);
    assert(a.skip(2) =~= behind.skip(0));
    cli::lemma_parse_depends_on_rest(a, 2, behind, 0, p);
    let b = seq![long_option(name, Some(value))] + behind;
    assert(b[0] == long_option(name, Some(value)));
    assert(b.skip(1) =~= behind.skip(0));
    cli::lemma_parse_depends_on_rest(b, 1, behind, 0, p);
    let c = seq![short_option(letter, Seq::empty()), value] + behind;
    assert(c[0] == short_option(letter, Seq::empty()) && c[1] == value);
    assert(c.skip(2) =~= behind.skip(0));
    cli::lemma_parse_depends_on_rest(c, 2, behind, 0, p);
    let d = seq![short_option(letter, value)] + behind;
    assert(d[0] == short_option(letter, value));
    assert(d.skip(1) =~= behind.skip(0));
    cli::lemma_parse_depends_on_rest(d, 1, behind, 0, p);
}

/// An option that wants a value is refused where nothing follows.
pub proof fn lemma_missing_values_are_refused(letter: char, o: OptionsView)
    requires
        !o.options_done,
        letter == 'd' || letter == 'P',
    ensures
        cli::parse_from(seq![short_option(letter, Seq::empty())], 0, o) == ParsedView::Err(
            seq!['-', letter] + " requires an argument"@,
        ),
        cli::parse_from(seq![long_option("output-dir"@, None)], 0, o) == ParsedView::Err(
            "--output-dir requires a directory"@,
        ),
        cli::parse_from(seq![long_option("password"@, None)], 0, o) == ParsedView::Err(
            "--password requires a password"@,
        ),
{
    reveal_strlit("-");
    lemma_names();
    lemma_short_option(letter, Seq::empty());
    lemma_long_option("output-dir"@, None);
    lemma_long_option("password"@, None);
    assert("-"@.push(letter) =~= seq!['-', letter]);
}

/// The help text and the version are shown as soon as they are asked for,
/// whatever follows.
pub proof fn lemma_help_and_version(
    rest: Seq<char>,
    own: Option<Seq<char>>,
    behind: Seq<Seq<char>>,
    o: OptionsView,
)
    requires
        !o.options_done,
    ensures
        cli::parse_from(seq![short_option('h', rest)] + behind, 0, o) == ParsedView::Ok(
            CommandView::Help,
        ),
        cli::parse_from(seq![short_option('V', rest)] + behind, 0, o) == ParsedView::Ok(
            CommandView::Version,
        ),
        cli::parse_from(seq![long_option("help"@, own)] + behind, 0, o) == ParsedView::Ok(
            CommandView::Help,
        ),
        cli::parse_from(seq![long_option("version"@, own)] + behind, 0, o) == ParsedView::Ok(
            CommandView::Version,
        ),
{
    lemma_names();
    lemma_short_option('h', rest);
    lemma_short_option('V', rest);
    lemma_long_option("help"@, own);
    lemma_long_option("version"@, own);
    let a = seq![short_option('h', rest)] + behind;
    let b = seq![short_option('V', rest)] + behind;
    let c = seq![long_option("help"@, own)] + behind;
    let d = seq![long_option("version"@, own)] + behind;
    assert(a[0] == short_option('h', rest));
    assert(b[0] == short_option('V', rest));
    assert(c[0] == long_option("help"@, own));
    assert(d[0] == long_option("version"@, own));
}

/// An option that is not known is refused by its letter or its name. Behind a
/// flag a dash is no letter either.
pub proof fn lemma_unknown_options_are_refused(
    letter: char,
    rest: Seq<char>,
    name: Seq<char>,
    own: Option<Seq<char>>,
    behind: Seq<Seq<char>>,
    o: OptionsView,
)
    requires
        !o.options_done,
    ensures
        letter != 'l' && letter != 'p' && letter != 'q' && letter != 'h' && letter != 'V' && letter
            != 'd' && letter != 'P' && letter != '-' ==> cli::parse_from(
            seq![short_option(letter, rest)] + behind,
            0,
            o,
        ) == ParsedView::Err("unknown option: -"@ + seq![letter]),
        letter == 'l' || letter == 'p' || letter == 'q' ==> cli::parse_from(
            seq![short_option(letter, seq!['-'] + rest)] + behind,
            0,
            o,
        ) == ParsedView::Err("unknown option: -"@ + seq!['-']),
        name.len() > 0 && !name.contains('=') && name != "list"@ && name != "pipe"@ && name
            != "quiet"@ && name != "help"@ && name != "version"@ && name != "password"@ && name
            != "output-dir"@ ==> cli::parse_from(seq![long_option(name, own)] + behind, 0, o)
            == ParsedView::Err("unknown option: --"@ + name),
{
    if letter != '-' {
        lemma_short_option(letter, rest);
        let a = seq![short_option(letter, rest)] + behind;
        assert(a[0] == short_option(letter, rest));
        assert("unknown option: -"@.push(letter) =~= "unknown option: -"@ + seq![letter]);
    }
    if letter == 'l' || letter == 'p' || letter == 'q' {
        let arg = short_option(letter, seq!['-'] + rest);
        lemma_short_option(letter, seq!['-'] + rest);
        let a = seq![arg] + behind;
        assert(a[0] == arg);
        assert(arg[2] == '-');
        let p = with_flag(o, letter);
        assert(cli::cluster_from(arg, 1, o) == cli::cluster_from(arg, 2, p));
        assert(cli::cluster_from(arg, 2, p) == cli::ClusterView::Unknown('-'));
        assert("unknown option: -"@.push('-') =~= "unknown option: -"@ + seq!['-']);
    }
    if name.len() > 0 && !name.contains('=') {
        lemma_long_option(name, own);
        let a = seq![long_option(name, own)] + behind;
        assert(a[0] == long_option(name, own));
    }
}

} // verus!
