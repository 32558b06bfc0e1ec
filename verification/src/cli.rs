//! The command line: its arguments, the texts it prints, and its exit codes.
use crate::archive;
use crate::archive::{
    archive_totals, AlzArchive, AlzFileEntry, ATTR_ARCHIVE, ATTR_DIRECTORY, ATTR_HIDDEN,
    ATTR_READONLY, ATTR_SYSTEM,
};
use crate::dostime;
use crate::dostime::dos_datetime_to_string;
use crate::error::{AlzError, AlzResult, IoKind};
use crate::text;
use vstd::prelude::*;

verus! {

/// What the command line asks for.
#[derive(Debug)]
pub struct Cli {
    pub list: bool,
    pub pipe: bool,
    pub quiet: bool,
    pub dest_dir: Option<String>,
    pub password: Option<String>,
    pub archive: String,
    pub files: Vec<String>,
}

/// What to do for a command line.
#[derive(Debug)]
pub enum Command {
    /// List or extract.
    Run(Cli),
    /// Display the help text.
    Help,
    /// Display the version.
    Version,
}

/// The model of a [`Cli`].
pub struct CliView {
    pub list: bool,
    pub pipe: bool,
    pub quiet: bool,
    pub dest_dir: Option<Seq<char>>,
    pub password: Option<Seq<char>>,
    pub archive: Seq<char>,
    pub files: Seq<Seq<char>>,
}

/// The model of a [`Command`].
pub enum CommandView {
    Run(CliView),
    Help,
    Version,
}

/// The text of an optional string.
pub open spec fn optional_text(s: Option<String>) -> Option<Seq<char>> {
    match s {
        Some(t) => Some(t@),
        None => None,
    }
}

/// The texts of some strings.
pub open spec fn texts(v: Seq<String>) -> Seq<Seq<char>> {
    Seq::new(v.len(), |i: int| v[i]@)
}

impl View for Cli {
    type V = CliView;

    open spec fn view(&self) -> CliView {
        CliView {
            list: self.list,
            pipe: self.pipe,
            quiet: self.quiet,
            dest_dir: optional_text(self.dest_dir),
            password: optional_text(self.password),
            archive: self.archive@,
            files: texts(self.files@),
        }
    }
}

impl View for Command {
    type V = CommandView;

    open spec fn view(&self) -> CommandView {
        match *self {
            Command::Run(cli) => CommandView::Run(cli@),
            Command::Help => CommandView::Help,
            Command::Version => CommandView::Version,
        }
    }
}

/// What the arguments up to some point have set.
pub struct OptionsView {
    pub list: bool,
    pub pipe: bool,
    pub quiet: bool,
    pub dest_dir: Option<Seq<char>>,
    pub password: Option<Seq<char>>,
    pub positional: Seq<Seq<char>>,
    pub options_done: bool,
}

/// Before the first argument nothing is set.
pub open spec fn no_options() -> OptionsView {
    OptionsView {
        list: false,
        pipe: false,
        quiet: false,
        dest_dir: None,
        password: None,
        positional: Seq::empty(),
        options_done: false,
    }
}

pub open spec fn starts_with_dash(arg: Seq<char>) -> bool {
    arg.len() > 0 && arg[0] == '-'
}

/// The place of the first `=` from `i` on, or the end of the text.
pub open spec fn equals_sign(arg: Seq<char>, i: int) -> int
    decreases arg.len() - i,
{
    if i >= arg.len() {
        arg.len() as int
    } else if arg[i] == '=' {
        i
    } else {
        equals_sign(arg, i + 1)
    }
}

/// What a cluster of short options comes to.
pub enum ClusterView {
    /// Every letter was a flag.
    Flags(OptionsView),
    /// The letter takes a value: the rest of the cluster, or the next argument
    /// where nothing is left.
    Value { letter: char, rest: Seq<char>, options: OptionsView },
    Help,
    Version,
    Unknown(char),
}

/// The cluster of short options from letter number `j` on.
pub open spec fn cluster_from(letters: Seq<char>, j: int, o: OptionsView) -> ClusterView
    decreases letters.len() - j,
{
    if j >= letters.len() {
        ClusterView::Flags(o)
    } else if letters[j] == 'l' {
        cluster_from(letters, j + 1, OptionsView { list: true, ..o })
    } else if letters[j] == 'p' {
        cluster_from(letters, j + 1, OptionsView { pipe: true, ..o })
    } else if letters[j] == 'q' {
        cluster_from(letters, j + 1, OptionsView { quiet: true, ..o })
    } else if letters[j] == 'h' {
        ClusterView::Help
    } else if letters[j] == 'V' {
        ClusterView::Version
    } else if letters[j] == 'd' || letters[j] == 'P' {
        ClusterView::Value { letter: letters[j], rest: letters.skip(j + 1), options: o }
    } else {
        ClusterView::Unknown(letters[j])
    }
}

/// Set the option that a value was for: `d` is the output directory, `P` the
/// password.
pub open spec fn with_value(o: OptionsView, letter: char, value: Seq<char>) -> OptionsView {
    if letter == 'd' {
        OptionsView { dest_dir: Some(value), ..o }
    } else {
        OptionsView { password: Some(value), ..o }
    }
}

/// What a command line comes to: a command, or what is wrong with it.
pub type ParsedView = Result<CommandView, Seq<char>>;

/// The arguments from number `i` on, when those before have set `o`.
pub open spec fn parse_from(args: Seq<Seq<char>>, i: int, o: OptionsView) -> ParsedView
    decreases args.len() - i,
{
    if i < 0 || i >= args.len() {
        if o.positional.len() == 0 {
            Err("no archive specified"@)
        } else {
            Ok(
                CommandView::Run(
                    CliView {
                        list: o.list,
                        pipe: o.pipe,
                        quiet: o.quiet,
                        dest_dir: o.dest_dir,
                        password: o.password,
                        archive: o.positional[0],
                        files: o.positional.skip(1),
                    },
                ),
            )
        }
    } else {
        let arg = args[i];
        if o.options_done || arg == "-"@ || !starts_with_dash(arg) {
            parse_from(args, i + 1, OptionsView { positional: o.positional.push(arg), ..o })
        } else if arg == "--"@ {
            parse_from(args, i + 1, OptionsView { options_done: true, ..o })
        } else if arg[1] == '-' {
            let eq = equals_sign(arg, 2);
            let name = arg.subrange(2, eq);
            let valued = name == "output-dir"@ || name == "password"@;
            if name == "list"@ {
                parse_from(args, i + 1, OptionsView { list: true, ..o })
            } else if name == "pipe"@ {
                parse_from(args, i + 1, OptionsView { pipe: true, ..o })
            } else if name == "quiet"@ {
                parse_from(args, i + 1, OptionsView { quiet: true, ..o })
            } else if valued {
                let letter = if name == "output-dir"@ {
                    'd'
                } else {
                    'P'
                };
                if eq < arg.len() {
                    parse_from(args, i + 1, with_value(o, letter, arg.skip(eq + 1)))
                } else if i + 1 < args.len() {
                    parse_from(args, i + 2, with_value(o, letter, args[i + 1]))
                } else if letter == 'd' {
                    Err("--output-dir requires a directory"@)
                } else {
                    Err("--password requires a password"@)
                }
            } else if name == "help"@ {
                Ok(CommandView::Help)
            } else if name == "version"@ {
                Ok(CommandView::Version)
            } else {
                Err("unknown option: --"@ + name)
            }
        } else {
            match cluster_from(arg, 1, o) {
                ClusterView::Flags(p) => parse_from(args, i + 1, p),
                ClusterView::Value { letter, rest, options } => if rest.len() > 0 {
                    parse_from(args, i + 1, with_value(options, letter, rest))
                } else if i + 1 < args.len() {
                    parse_from(args, i + 2, with_value(options, letter, args[i + 1]))
                } else {
                    Err("-"@.push(letter) + " requires an argument"@)
                },
                ClusterView::Help => Ok(CommandView::Help),
                ClusterView::Version => Ok(CommandView::Version),
                ClusterView::Unknown(c) => Err("unknown option: -"@.push(c)),
            }
        }
    }
}

struct Options {
    list: bool,
    pipe: bool,
    quiet: bool,
    dest_dir: Option<String>,
    password: Option<String>,
    positional: Vec<String>,
    options_done: bool,
}

impl View for Options {
    type V = OptionsView;

    closed spec fn view(&self) -> OptionsView {
        OptionsView {
            list: self.list,
            pipe: self.pipe,
            quiet: self.quiet,
            dest_dir: optional_text(self.dest_dir),
            password: optional_text(self.password),
            positional: texts(self.positional@),
            options_done: self.options_done,
        }
    }
}

impl Options {
    fn set_value(&mut self, letter: char, value: String)
        ensures
            final(self)@ == with_value(old(self)@, letter, value@),
    {
        if letter == 'd' {
            self.dest_dir = Some(value);
        } else {
            self.password = Some(value);
        }
    }

    fn add_positional(&mut self, arg: String)
        ensures
            final(self)@ == (OptionsView {
                positional: old(self)@.positional.push(arg@),
                ..old(self)@
            }),
    {
        let ghost before = texts(self.positional@);
        self.positional.push(arg);
        assert(texts(self.positional@) =~= before.push(arg@));
    }
}

/// How a cluster of short options ends.
enum Cluster {
    Flags,
    Value { letter: char, at: usize },
    Help,
    Version,
    Unknown(char),
}

/// Short-option cluster: -lq, -dDIR, -d DIR, -P PW, ... The letters stand
/// behind the dash; those that are flags are set.
fn read_cluster(letters: &Vec<char>, o: &mut Options) -> (r: Cluster)
    requires
        letters@.len() >= 1,
    ensures
        match cluster_from(letters@, 1, old(o)@) {
            ClusterView::Flags(p) => r is Flags && final(o)@ == p,
            ClusterView::Value { letter, rest, options } => {
                &&& r matches Cluster::Value { letter: l, at }
                &&& l == letter
                &&& at <= letters@.len()
                &&& rest == letters@.skip(at as int)
                &&& final(o)@ == options
            },
            ClusterView::Help => r is Help,
            ClusterView::Version => r is Version,
            ClusterView::Unknown(c) => r == Cluster::Unknown(c),
        },
{
    let ghost wanted = cluster_from(letters@, 1, o@);
    let mut j: usize = 1;
    while j < letters.len()
        invariant
            1 <= j <= letters@.len(),
            wanted == cluster_from(letters@, 1, old(o)@),
            wanted == cluster_from(letters@, j as int, o@),
        decreases letters@.len() - j,
    {
        let c = letters[j];
        if c == 'l' {
            o.list = true;
        } else if c == 'p' {
            o.pipe = true;
        } else if c == 'q' {
            o.quiet = true;
        } else if c == 'h' {
            return Cluster::Help;
        } else if c == 'V' {
            return Cluster::Version;
        } else if c == 'd' || c == 'P' {
            return Cluster::Value { letter: c, at: j + 1 };
        } else {
            return Cluster::Unknown(c);
        }
        j = j + 1;
    }
    Cluster::Flags
}

fn find_equals(arg: &Vec<char>, from: usize) -> (at: usize)
    requires
        from <= arg@.len(),
    ensures
        at == equals_sign(arg@, from as int),
        from <= at <= arg@.len(),
{
    let mut i: usize = from;
    while i < arg.len() && arg[i] != '='
        invariant
            from <= i <= arg@.len(),
            equals_sign(arg@, from as int) == equals_sign(arg@, i as int),
        decreases arg@.len() - i,
    {
        i = i + 1;
    }
    i
}

/// What is left to do after an argument.
enum Step {
    /// Go on with the argument of this number.
    Next(usize),
    /// Stop with this result.
    Stop(Result<Command, String>),
}

/// Whether a step leads to what the arguments come to.
spec fn step_agrees(
    step: Step,
    args: Seq<Seq<char>>,
    i: int,
    o: OptionsView,
    wanted: ParsedView,
) -> bool {
    match step {
        Step::Next(next) => i < next <= args.len() && parse_from(args, next as int, o) == wanted,
        Step::Stop(result) => result_agrees(result, wanted),
    }
}

/// Whether a result is what the arguments come to.
pub open spec fn result_agrees(result: Result<Command, String>, wanted: ParsedView) -> bool {
    match result {
        Ok(command) => wanted == ParsedView::Ok(command@),
        Err(message) => wanted == ParsedView::Err(message@),
    }
}

/// Take the value of an option out of the arguments: its own, or else the
/// next argument.
fn take_value(
    args: &Vec<String>,
    i: usize,
    o: &mut Options,
    letter: char,
    own: Option<String>,
) -> (next: Option<usize>)
    requires
        i < args.len(),
    ensures
        match own {
            Some(value) => {
                &&& next matches Some(n)
                &&& n == i + 1
                &&& final(o)@ == with_value(old(o)@, letter, value@)
            },
            None => if i + 1 < args@.len() {
                &&& next matches Some(n)
                &&& n == i + 2
                &&& final(o)@ == with_value(old(o)@, letter, args@[i + 1]@)
            } else {
                next is None && final(o)@ == old(o)@
            },
        },
{
    match own {
        Some(value) => {
            o.set_value(letter, value);
            Some(i + 1)
        },
        None => {
            if args.len() - i < 2 {
                return None;
            }
            o.set_value(letter, args[i + 1].clone());
            Some(i + 2)
        },
    }
}

/// A long option: `--name` or `--name=value`.
#[verifier::rlimit(40)]
fn read_long(args: &Vec<String>, i: usize, arg: &Vec<char>, o: &mut Options) -> (step: Step)
    requires
        i < args.len(),
        arg@ == args@[i as int]@,
        arg@.len() > 2,
        arg@[0] == '-',
        arg@[1] == '-',
        !old(o)@.options_done,
    ensures
        step_agrees(
            step,
            texts(args@),
            i as int,
            final(o)@,
            parse_from(texts(args@), i as int, old(o)@),
        ),
{
    let next_arg: usize = i + 1;
    let eq: usize = find_equals(arg, 2);
    let ghost name = arg@.subrange(2, eq as int);
    proof {
        reveal_strlit("-");
        reveal_strlit("--");
        reveal_strlit("list");
        reveal_strlit("pipe");
        reveal_strlit("quiet");
        reveal_strlit("output-dir");
        reveal_strlit("password");
        assert(texts(args@)[i as int] == arg@);
    }
    if text::spells(arg, 2, eq, "list") {
        o.list = true;
        return Step::Next(next_arg);
    }
    if text::spells(arg, 2, eq, "pipe") {
        o.pipe = true;
        return Step::Next(next_arg);
    }
    if text::spells(arg, 2, eq, "quiet") {
        o.quiet = true;
        return Step::Next(next_arg);
    }
    let directory = text::spells(arg, 2, eq, "output-dir");
    if directory || text::spells(arg, 2, eq, "password") {
        let letter = if directory {
            'd'
        } else {
            'P'
        };
        let own = if eq < arg.len() {
            Some(text::text_of(arg, eq + 1, arg.len()))
        } else {
            None
        };
        assert(own matches Some(value) ==> value@ =~= arg@.skip(eq + 1));
        return match take_value(args, i, o, letter, own) {
            Some(next) => Step::Next(next),
            None => Step::Stop(
                Err(
                    String::from_str(
                        if directory {
                            "--output-dir requires a directory"
                        } else {
                            "--password requires a password"
                        },
                    ),
                ),
            ),
        };
    }
    if text::spells(arg, 2, eq, "help") {
        return Step::Stop(Ok(Command::Help));
    }
    if text::spells(arg, 2, eq, "version") {
        return Step::Stop(Ok(Command::Version));
    }
    let mut message: String = String::from_str("unknown option: --");
    let option = text::text_of(arg, 2, eq);
    message.append(option.as_str());
    Step::Stop(Err(message))
}

/// A cluster of short options.
fn read_short(args: &Vec<String>, i: usize, arg: &Vec<char>, o: &mut Options) -> (step: Step)
    requires
        i < args.len(),
        arg@ == args@[i as int]@,
        arg@.len() >= 2,
        arg@[0] == '-',
        arg@[1] != '-',
        !old(o)@.options_done,
    ensures
        step_agrees(
            step,
            texts(args@),
            i as int,
            final(o)@,
            parse_from(texts(args@), i as int, old(o)@),
        ),
{
    proof {
        reveal_strlit("-");
        reveal_strlit("--");
        assert(texts(args@)[i as int] == arg@);
    }
    match read_cluster(arg, o) {
        Cluster::Flags => Step::Next(i + 1),
        Cluster::Value { letter, at } => {
            let own = if at < arg.len() {
                Some(text::text_of(arg, at, arg.len()))
            } else {
                None
            };
            assert(own matches Some(value) ==> value@ =~= arg@.skip(at as int));
            match take_value(args, i, o, letter, own) {
                Some(next) => Step::Next(next),
                None => {
                    let mut message: String = String::from_str("-");
                    message.push(letter);
                    message.append(" requires an argument");
                    Step::Stop(Err(message))
                },
            }
        },
        Cluster::Help => Step::Stop(Ok(Command::Help)),
        Cluster::Version => Step::Stop(Ok(Command::Version)),
        Cluster::Unknown(c) => {
            let mut message: String = String::from_str("unknown option: -");
            message.push(c);
            Step::Stop(Err(message))
        },
    }
}

/// Parse the arguments behind the name of the program.
#[verifier::rlimit(40)]
pub fn parse_args(args: &Vec<String>) -> (r: Result<Command, String>)
    ensures
        result_agrees(r, parse_from(texts(args@), 0, no_options())),
{
    let ghost all = texts(args@);
    let ghost wanted = parse_from(all, 0, no_options());
    let mut o = Options {
        list: false,
        pipe: false,
        quiet: false,
        dest_dir: None,
        password: None,
        positional: Vec::new(),
        options_done: false,
    };
    assert(o@.positional =~= no_options().positional);
    let mut i: usize = 0;
    while i < args.len()
        invariant
            i <= args@.len(),
            all == texts(args@),
            wanted == parse_from(all, 0, no_options()),
            wanted == parse_from(all, i as int, o@),
        decreases args@.len() - i,
    {
        let arg = text::chars_of(args[i].as_str());
        proof {
            reveal_strlit("-");
            reveal_strlit("--");
            assert(all[i as int] == arg@);
            assert(arg@ == "-"@ <==> arg@.len() == 1 && arg@[0] == '-') by {
                if arg@.len() == 1 && arg@[0] == '-' {
                    assert(arg@ =~= "-"@);
                }
            }
            assert(arg@ == "--"@ <==> arg@.len() == 2 && arg@[0] == '-' && arg@[1] == '-') by {
                if arg@.len() == 2 && arg@[0] == '-' && arg@[1] == '-' {
                    assert(arg@ =~= "--"@);
                }
            }
        }
        if o.options_done || arg.len() < 2 || arg[0] != '-' {
            o.add_positional(args[i].clone());
            i = i + 1;
        } else if arg.len() == 2 && arg[1] == '-' {
            o.options_done = true;
            i = i + 1;
        } else {
            let step = if arg[1] == '-' {
                read_long(args, i, &arg, &mut o)
            } else {
                read_short(args, i, &arg, &mut o)
            };
            match step {
                Step::Next(next) => {
                    i = next;
                },
                Step::Stop(result) => {
                    return result;
                },
            }
        }
    }
    if o.positional.len() == 0 {
        return Err(String::from_str("no archive specified"));
    }
    let mut positional = o.positional;
    let ghost before = texts(positional@);
    let archive = positional.remove(0);
    assert(texts(positional@) =~= before.skip(1));
    Ok(
        Command::Run(
            Cli {
                list: o.list,
                pipe: o.pipe,
                quiet: o.quiet,
                dest_dir: o.dest_dir,
                password: o.password,
                archive,
                files: positional,
            },
        ),
    )
}

/// One attribute letter, or `_` where the attribute is not set.
pub open spec fn attribute_letter(attributes: u8, bit: u8, letter: char) -> char {
    if attributes & bit != 0 {
        letter
    } else {
        '_'
    }
}

/// The attributes of an entry as five letters.
pub open spec fn attribute_text(attributes: u8) -> Seq<char> {
    seq![
        attribute_letter(attributes, ATTR_ARCHIVE, 'A'),
        attribute_letter(attributes, ATTR_DIRECTORY, 'D'),
        attribute_letter(attributes, ATTR_READONLY, 'R'),
        attribute_letter(attributes, ATTR_HIDDEN, 'H'),
        attribute_letter(attributes, ATTR_SYSTEM, 'S'),
    ]
}

/// A size in a column of twelve characters.
pub open spec fn size_column(n: nat) -> Seq<char> {
    text::padded(text::decimal(n), 12, ' ')
}

/// The line of one entry.
pub open spec fn entry_line(entry: archive::EntryView) -> Seq<char> {
    attribute_text(entry.file_attribute) + " "@ + size_column(entry.uncompressed_size as nat)
        + " "@ + size_column(entry.compressed_size as nat) + " "@
        + entry.compression_method.label() + " "@ + dostime::dos_text(entry.file_time_date)
        + "  "@ + entry.file_name + if entry.is_encrypted() {
        "*\n"@
    } else {
        "\n"@
    }
}

/// The lines of the first `count` entries.
pub open spec fn entry_lines(entries: Seq<archive::EntryView>, count: nat) -> Seq<char>
    decreases count,
{
    if count == 0 {
        Seq::empty()
    } else {
        entry_lines(entries, (count - 1) as nat) + entry_line(entries[count - 1])
    }
}

/// The line between the entries and what stands above and below them.
pub open spec fn ruler() -> Seq<char> {
    "----- ------------ ------------ ------- ------------------------------------------------\n"@
}

/// The heading of a listing.
pub open spec fn heading(source: Seq<char>) -> Seq<char> {
    "\nListing archive: "@ + source
        + "\n\nAttr  Uncomp Size    Comp Size Method  Date & Time & File Name\n"@ + ruler()
}

/// The line of totals.
pub open spec fn totals_line(uncompressed: nat, compressed: nat, count: nat) -> Seq<char> {
    "      "@ + size_column(uncompressed) + " "@ + size_column(compressed) + "         Total "@
        + text::decimal(count) + if count <= 1 {
        " file\n"@
    } else {
        " files\n"@
    }
}

/// The listing of an archive.
pub open spec fn listing(entries: Seq<archive::EntryView>, source: Seq<char>) -> Seq<char> {
    heading(source) + entry_lines(entries, entries.len()) + ruler() + totals_line(
        archive::capped(archive::uncompressed_total(entries), u64::MAX as nat),
        archive::capped(archive::compressed_total(entries), u64::MAX as nat),
        archive::capped(entries.len(), u32::MAX as nat),
    )
}

fn push_attributes(out: &mut String, a: u8)
    ensures
        final(out)@ == old(out)@ + attribute_text(a),
{
    let ghost before = out@;
    out.push(
        if a & ATTR_ARCHIVE != 0 {
            'A'
        } else {
            '_'
        },
    );
    out.push(
        if a & ATTR_DIRECTORY != 0 {
            'D'
        } else {
            '_'
        },
    );
    out.push(
        if a & ATTR_READONLY != 0 {
            'R'
        } else {
            '_'
        },
    );
    out.push(
        if a & ATTR_HIDDEN != 0 {
            'H'
        } else {
            '_'
        },
    );
    out.push(
        if a & ATTR_SYSTEM != 0 {
            'S'
        } else {
            '_'
        },
    );
    assert(out@ =~= before + attribute_text(a));
}

/// The attributes and sizes of an entry, as far as its line starts with them.
spec fn front_columns(entry: archive::EntryView) -> Seq<char> {
    attribute_text(entry.file_attribute) + " "@ + size_column(entry.uncompressed_size as nat)
        + " "@ + size_column(entry.compressed_size as nat) + " "@
}

fn push_front_columns(out: &mut String, entry: &AlzFileEntry)
    ensures
        final(out)@ == old(out)@ + front_columns(entry@),
{
    let ghost before = out@;
    push_attributes(out, entry.file_attribute);
    out.append(" ");
    text::push_number(out, entry.uncompressed_size, 10, 12, ' ');
    out.append(" ");
    text::push_number(out, entry.compressed_size, 10, 12, ' ');
    out.append(" ");
    assert(out@ =~= before + front_columns(entry@));
}

fn push_entry_line(out: &mut String, entry: &AlzFileEntry)
    ensures
        final(out)@ == old(out)@ + entry_line(entry@),
{
    let ghost before = out@;
    push_front_columns(out, entry);
    let method = entry.compression_method.name();
    out.append(method.as_str());
    out.append(" ");
    let datetime = dos_datetime_to_string(entry.file_time_date);
    out.append(datetime.as_str());
    out.append("  ");
    out.append(entry.file_name.as_str());
    if entry.is_encrypted() {
        out.append("*\n");
    } else {
        out.append("\n");
    }
    assert(out@ =~= before + entry_line(entry@));
}

fn push_ruler(out: &mut String)
    ensures
        final(out)@ == old(out)@ + ruler(),
{
    out.append(
        "----- ------------ ------------ ------- ------------------------------------------------\n",
    );
}

fn push_heading(out: &mut String, source: &str)
    ensures
        final(out)@ == old(out)@ + heading(source@),
{
    let ghost before = out@;
    out.append("\nListing archive: ");
    out.append(source);
    out.append("\n\nAttr  Uncomp Size    Comp Size Method  Date & Time & File Name\n");
    push_ruler(out);
    assert(out@ =~= before + heading(source@));
}

fn push_totals(out: &mut String, uncompressed: u64, compressed: u64, count: u32)
    ensures
        final(out)@ == old(out)@ + totals_line(
            uncompressed as nat,
            compressed as nat,
            count as nat,
        ),
{
    let ghost before = out@;
    out.append("      ");
    text::push_number(out, uncompressed, 10, 12, ' ');
    out.append(" ");
    text::push_number(out, compressed, 10, 12, ' ');
    out.append("         Total ");
    text::push_number(out, count as u64, 10, 0, '0');
    if count <= 1 {
        out.append(" file\n");
    } else {
        out.append(" files\n");
    }
    assert(out@ =~= before + totals_line(uncompressed as nat, compressed as nat, count as nat));
}

fn push_entry_lines(out: &mut String, entries: &Vec<AlzFileEntry>)
    ensures
        final(out)@ == old(out)@ + entry_lines(
            archive::entry_views(entries@),
            entries@.len(),
        ),
{
    let ghost before = out@;
    let ghost views = archive::entry_views(entries@);
    let mut i: usize = 0;
    assert(out@ =~= before + entry_lines(views, 0));
    while i < entries.len()
        invariant
            i <= entries@.len(),
            views == archive::entry_views(entries@),
            out@ == before + entry_lines(views, i as nat),
        decreases entries@.len() - i,
    {
        push_entry_line(out, &entries[i]);
        i = i + 1;
        assert(out@ =~= before + entry_lines(views, i as nat));
    }
}

/// The listing of an archive that was read from `source`.
pub fn list_archive(archive: &AlzArchive, source: &str) -> (out: String)
    ensures
        out@ == listing(archive::entry_views(archive.entries@), source@),
{
    let (uncompressed, compressed, count) = archive_totals(archive.entries.as_slice());
    let mut out: String = String::new();
    push_heading(&mut out, source);
    assert(out@ =~= heading(source@));
    push_entry_lines(&mut out, &archive.entries);
    push_ruler(&mut out);
    push_totals(&mut out, uncompressed, compressed, count);
    out
}

/// Where the password for an archive comes from.
#[derive(Debug, Clone, Copy, PartialEq, Eq, Structural)]
pub enum PasswordSource {
    /// The option, if it was given.
    Option,
    /// A question to the user.
    Prompt,
    /// Nowhere: standard input already is the archive.
    Missing,
}

/// Where to get the password from: only an encrypted archive needs one, and
/// only where it was not given is it asked for.
pub fn password_source(is_encrypted: bool, given: bool, from_stdin: bool) -> (s: PasswordSource)
    ensures
        s == PasswordSource::Option <==> !is_encrypted || given,
        s == PasswordSource::Missing <==> is_encrypted && !given && from_stdin,
        s == PasswordSource::Prompt <==> is_encrypted && !given && !from_stdin,
{
    if !is_encrypted || given {
        PasswordSource::Option
    } else if from_stdin {
        PasswordSource::Missing
    } else {
        PasswordSource::Prompt
    }
}

/// Everything extracted.
pub const EXIT_DONE: u8 = 0;

/// Extracted what was there, archive truncated.
pub const EXIT_PARTIAL: u8 = 1;

/// Failed.
pub const EXIT_FAILED: u8 = 2;

/// The outcome of an extraction: whether all of it was there, or an error.
pub type OutcomeView = Result<bool, crate::error::ErrorView>;

/// The model of an outcome.
pub open spec fn outcome_view(outcome: AlzResult<bool>) -> OutcomeView {
    match outcome {
        Ok(complete) => Ok(complete),
        Err(e) => Err(e@),
    }
}

/// A reader that closes the pipe has seen enough: that is a normal stop.
pub open spec fn stopped_by_reader(outcome: OutcomeView, pipe: bool) -> bool {
    pipe && (outcome matches Err(e) && e.is_broken_pipe())
}

/// The exit code for an outcome.
pub fn exit_code(outcome: &AlzResult<bool>, pipe: bool) -> (code: u8)
    ensures
        code == EXIT_DONE <==> outcome_view(*outcome) == OutcomeView::Ok(true)
            || stopped_by_reader(outcome_view(*outcome), pipe),
        code == EXIT_PARTIAL <==> outcome_view(*outcome) == OutcomeView::Ok(false),
        code == EXIT_FAILED <==> outcome_view(*outcome) is Err && !stopped_by_reader(
            outcome_view(*outcome),
            pipe,
        ),
        match *outcome {
            Ok(complete) => complete && code == 0 || !complete && code == 1,
            Err(AlzError::Io(e)) => code == if pipe && e.kind == IoKind::BrokenPipe {
                0u8
            } else {
                2
            },
            Err(AlzError::CantOpenDestFile(e)) => code == if pipe && e.kind == IoKind::BrokenPipe {
                0u8
            } else {
                2
            },
            Err(_) => code == 2,
        },
{
    match outcome {
        Ok(complete) => if *complete {
            EXIT_DONE
        } else {
            EXIT_PARTIAL
        },
        Err(e) => if pipe && e.is_broken_pipe() {
            EXIT_DONE
        } else {
            EXIT_FAILED
        },
    }
}

/// The last words of an extraction.
pub open spec fn closing(outcome: OutcomeView, pipe: bool, quiet: bool) -> Seq<char> {
    match outcome {
        Ok(complete) => if quiet {
            Seq::empty()
        } else if complete {
            "\ndone.\n"@
        } else {
            "\ndone (with warnings).\n"@
        },
        Err(e) => if stopped_by_reader(outcome, pipe) {
            Seq::empty()
        } else {
            "\nextract failed: "@ + e.message() + "\n"@
        },
    }
}

/// Say how an extraction ended.
pub fn closing_text(outcome: &AlzResult<bool>, pipe: bool, quiet: bool) -> (s: String)
    ensures
        s@ == closing(outcome_view(*outcome), pipe, quiet),
{
    let mut s: String = String::new();
    match outcome {
        Ok(complete) => {
            if !quiet {
                if *complete {
                    s.append("\ndone.\n");
                } else {
                    s.append("\ndone (with warnings).\n");
                }
            }
        },
        Err(e) => {
            if !(pipe && e.is_broken_pipe()) {
                s.append("\nextract failed: ");
                let message = e.message();
                s.append(message.as_str());
                s.append("\n");
            }
        },
    }
    assert(s@ =~= closing(outcome_view(*outcome), pipe, quiet));
    s
}

/// Say why an archive could not be opened.
pub fn open_failure_text(source: &str, e: &AlzError) -> (s: String)
    ensures
        s@ == "file open error : "@ + source@ + "\nerr: "@ + e@.message() + "\n"@,
{
    let mut s: String = String::from_str("file open error : ");
    s.append(source);
    s.append("\nerr: ");
    let message = e.message();
    s.append(message.as_str());
    s.append("\n");
    s
}

proof fn lemma_cluster_depends_on_rest(a: Seq<char>, i: int, b: Seq<char>, j: int, o: OptionsView)
    requires
        0 <= i <= a.len(),
        0 <= j <= b.len(),
        a.skip(i) == b.skip(j),
    ensures
        cluster_from(a, i, o) == cluster_from(b, j, o),
    decreases a.len() - i,
{
    assert(a.skip(i).len() == a.len() - i);
    assert(b.skip(j).len() == b.len() - j);
    if i < a.len() {
        assert(a[i] == a.skip(i)[0]);
        assert(b[j] == b.skip(j)[0]);
        assert(a.skip(i).skip(1) =~= a.skip(i + 1));
        assert(b.skip(j).skip(1) =~= b.skip(j + 1));
        lemma_cluster_depends_on_rest(a, i + 1, b, j + 1, OptionsView { list: true, ..o });
        lemma_cluster_depends_on_rest(a, i + 1, b, j + 1, OptionsView { pipe: true, ..o });
        lemma_cluster_depends_on_rest(a, i + 1, b, j + 1, OptionsView { quiet: true, ..o });
    }
}

/// What the arguments from some place on come to depends only on what was set
/// before it and on what follows.
#[verifier::rlimit(40)]
pub proof fn lemma_parse_depends_on_rest(
    a: Seq<Seq<char>>,
    i: int,
    b: Seq<Seq<char>>,
    j: int,
    o: OptionsView,
)
    requires
        0 <= i <= a.len(),
        0 <= j <= b.len(),
        a.skip(i) == b.skip(j),
    ensures
        parse_from(a, i, o) == parse_from(b, j, o),
    decreases a.len() - i,
{
    assert(a.skip(i).len() == a.len() - i);
    assert(b.skip(j).len() == b.len() - j);
    if i < a.len() {
        assert(a[i] == a.skip(i)[0]);
        assert(b[j] == b.skip(j)[0]);
        assert(a.skip(i).skip(1) =~= a.skip(i + 1));
        assert(b.skip(j).skip(1) =~= b.skip(j + 1));
        if i + 1 < a.len() {
            assert(a[i + 1] == a.skip(i)[1]);
            assert(b[j + 1] == b.skip(j)[1]);
            assert(a.skip(i).skip(2) =~= a.skip(i + 2));
            assert(b.skip(j).skip(2) =~= b.skip(j + 2));
        }
        let arg = a[i];
        if o.options_done || arg == "-"@ || !starts_with_dash(arg) {
            let p = OptionsView { positional: o.positional.push(arg), ..o };
            lemma_parse_depends_on_rest(a, i + 1, b, j + 1, p);
        } else if arg == "--"@ {
            let p = OptionsView { options_done: true, ..o };
            lemma_parse_depends_on_rest(a, i + 1, b, j + 1, p);
        } else if arg[1] == '-' {
            let eq = equals_sign(arg, 2);
            let name = arg.subrange(2, eq);
            let letter = if name == "output-dir"@ {
                'd'
            } else {
                'P'
            };
            lemma_parse_depends_on_rest(a, i + 1, b, j + 1, OptionsView { list: true, ..o });
            lemma_parse_depends_on_rest(a, i + 1, b, j + 1, OptionsView { pipe: true, ..o });
            lemma_parse_depends_on_rest(a, i + 1, b, j + 1, OptionsView { quiet: true, ..o });
            if eq < arg.len() {
                let p = with_value(o, letter, arg.skip(eq + 1));
                lemma_parse_depends_on_rest(a, i + 1, b, j + 1, p);
            } else if i + 1 < a.len() {
                let p = with_value(o, letter, a[i + 1]);
                lemma_parse_depends_on_rest(a, i + 2, b, j + 2, p);
            }
        } else {
            match cluster_from(arg, 1, o) {
                ClusterView::Flags(p) => {
                    lemma_parse_depends_on_rest(a, i + 1, b, j + 1, p);
                },
                ClusterView::Value { letter, rest, options } => {
                    if rest.len() > 0 {
                        let p = with_value(options, letter, rest);
                        lemma_parse_depends_on_rest(a, i + 1, b, j + 1, p);
                    } else if i + 1 < a.len() {
                        let p = with_value(options, letter, a[i + 1]);
                        lemma_parse_depends_on_rest(a, i + 2, b, j + 2, p);
                    }
                },
                _ => {},
            }
        }
    }
}

/// Short flags bundle: a flag at the front of a cluster is the same as the
/// flag by itself and then the rest of the cluster.
#[verifier::rlimit(40)]
pub proof fn lemma_short_flags_bundle(
    flag: char,
    rest: Seq<char>,
    behind: Seq<Seq<char>>,
    o: OptionsView,
)
    requires
        flag == 'l' || flag == 'p' || flag == 'q',
        rest.len() > 0,
        rest[0] != '-',
        !o.options_done,
    ensures
        parse_from(seq![seq!['-', flag] + rest] + behind, 0, o) == parse_from(
            seq![seq!['-', flag], seq!['-'] + rest] + behind,
            0,
            o,
        ),
{
    reveal_strlit("-");
    reveal_strlit("--");
    let bundled = seq!['-', flag] + rest;
    let single = seq!['-', flag];
    let others = seq!['-'] + rest;
    let p = if flag == 'l' {
        OptionsView { list: true, ..o }
    } else if flag == 'p' {
        OptionsView { pipe: true, ..o }
    } else {
        OptionsView { quiet: true, ..o }
    };
    let a = seq![bundled] + behind;
    let b = seq![single, others] + behind;
    assert(a[0] == bundled);
    assert(b[0] == single && b[1] == others);
    assert(bundled[1] == flag && single[1] == flag);
    assert(others[1] == rest[0]);
    assert(cluster_from(bundled, 1, o) == cluster_from(bundled, 2, p));
    assert(bundled.skip(2) =~= others.skip(1));
    lemma_cluster_depends_on_rest(bundled, 2, others, 1, p);
    assert(cluster_from(single, 1, o) == cluster_from(single, 2, p));
    assert(cluster_from(single, 2, p) == ClusterView::Flags(p));
    assert(parse_from(b, 0, o) == parse_from(b, 1, p));
    assert(a.skip(1) =~= b.skip(2));
    if behind.len() > 0 {
        assert(a[1] == b[2]);
        assert(a.skip(2) =~= b.skip(3));
    }
    match cluster_from(others, 1, p) {
        ClusterView::Flags(q) => {
            lemma_parse_depends_on_rest(a, 1, b, 2, q);
        },
        ClusterView::Value { letter, rest, options } => {
            if rest.len() > 0 {
                lemma_parse_depends_on_rest(a, 1, b, 2, with_value(options, letter, rest));
            } else if behind.len() > 0 {
                lemma_parse_depends_on_rest(a, 2, b, 3, with_value(options, letter, a[1]));
            }
        },
        _ => {},
    }
}

/// Behind `--` every argument is taken as it is, whatever it starts with.
pub proof fn lemma_no_options_behind_dashes(args: Seq<Seq<char>>, i: int, o: OptionsView)
    requires
        0 <= i < args.len(),
        o.options_done,
    ensures
        parse_from(args, i, o) == ParsedView::Ok(
            CommandView::Run(
                CliView {
                    list: o.list,
                    pipe: o.pipe,
                    quiet: o.quiet,
                    dest_dir: o.dest_dir,
                    password: o.password,
                    archive: (o.positional + args.skip(i))[0],
                    files: (o.positional + args.skip(i)).skip(1),
                },
            ),
        ),
    decreases args.len() - i,
{
    let next = OptionsView { positional: o.positional.push(args[i]), ..o };
    assert(next.positional + args.skip(i + 1) =~= o.positional + args.skip(i));
    assert(parse_from(args, i, o) == parse_from(args, i + 1, next));
    if i + 1 < args.len() {
        lemma_no_options_behind_dashes(args, i + 1, next);
    } else {
        assert(next.positional + args.skip(i + 1) =~= next.positional);
    }
}

/// How an extraction ends is told: a failure always, whatever else is asked
/// for, unless the reader of the pipe has gone; success only where it may be
/// talked of.
pub proof fn lemma_failures_are_told(
    e: crate::error::ErrorView,
    complete: bool,
    pipe: bool,
    quiet: bool,
)
    ensures
        closing(OutcomeView::Ok(complete), pipe, true).len() == 0,
        closing(OutcomeView::Ok(true), pipe, false) == "\ndone.\n"@,
        closing(OutcomeView::Ok(false), pipe, false) == "\ndone (with warnings).\n"@,
        !pipe ==> closing(OutcomeView::Err(e), pipe, quiet) == "\nextract failed: "@ + e.message()
            + "\n"@,
        !(e matches crate::error::ErrorView::Io(io) && io.kind == IoKind::BrokenPipe) && !(
        e matches crate::error::ErrorView::CantOpenDestFile(io) && io.kind == IoKind::BrokenPipe)
            ==> closing(OutcomeView::Err(e), pipe, quiet) == "\nextract failed: "@ + e.message()
            + "\n"@,
        pipe && (e matches crate::error::ErrorView::Io(io) && io.kind == IoKind::BrokenPipe)
            ==> closing(OutcomeView::Err(e), pipe, quiet).len() == 0,
{
}

/// A letter where a bit is set, and else `_`.
pub open spec fn letter_if(set: bool, letter: char) -> char {
    if set {
        letter
    } else {
        '_'
    }
}

/// The line of an entry in a listing: a letter for each attribute, both sizes
/// in columns of twelve, the method, the date and the name, with a star where
/// it is encrypted.
pub proof fn lemma_line_of_an_entry(entry: archive::EntryView)
    ensures
        ({
            let a = entry.file_attribute;
            let front = seq![
                letter_if(a / 32 % 2 == 1, 'A'),
                letter_if(a / 16 % 2 == 1, 'D'),
                letter_if(a % 2 == 1, 'R'),
                letter_if(a / 2 % 2 == 1, 'H'),
                letter_if(a / 4 % 2 == 1, 'S'),
                ' ',
            ] + text::padded(text::digits(entry.uncompressed_size as nat, 10), 12, ' ') + seq![' ']
                + text::padded(text::digits(entry.compressed_size as nat, 10), 12, ' ') + seq![
                ' ',
            ];
            let method = match entry.compression_method {
                archive::CompressionMethod::Store => "Store"@,
                archive::CompressionMethod::Bzip2 => "BZip2"@,
                archive::CompressionMethod::Deflate => "Deflate"@,
                archive::CompressionMethod::Unknown(n) => "Unknown("@ + text::digits(
                    n as nat,
                    10,
                ) + ")"@,
            };
            let back = seq![' '] + dostime::dos_text(entry.file_time_date) + seq![' ', ' ']
                + entry.file_name;
            entry_line(entry) == front + method + back + if entry.file_descriptor % 2 == 1 {
                seq!['*', '\n']
            } else {
                seq!['\n']
            }
        }),
{
    reveal_strlit(" ");
    reveal_strlit("  ");
    reveal_strlit("*\n");
    reveal_strlit("\n");
    archive::lemma_entry_flags(entry);
    archive::lemma_descriptor_bits(entry.file_attribute);
    let a = entry.file_attribute;
    let letters = seq![
        letter_if(a / 32 % 2 == 1, 'A'),
        letter_if(a / 16 % 2 == 1, 'D'),
        letter_if(a % 2 == 1, 'R'),
        letter_if(a / 2 % 2 == 1, 'H'),
        letter_if(a / 4 % 2 == 1, 'S'),
        ' ',
    ];
    let u = text::padded(text::digits(entry.uncompressed_size as nat, 10), 12, ' ');
    let c = text::padded(text::digits(entry.compressed_size as nat, 10), 12, ' ');
    assert(attribute_text(a) + " "@ =~= letters);
    let front = letters + u + seq![' '] + c + seq![' '];
    assert(front_columns(entry) =~= front);
    let method = entry.compression_method.label();
    let back = seq![' '] + dostime::dos_text(entry.file_time_date) + seq![' ', ' ']
        + entry.file_name;
    let end = if entry.file_descriptor % 2 == 1 {
        seq!['*', '\n']
    } else {
        seq!['\n']
    };
    assert(entry_line(entry) =~= front + method + back + end);
}

/// A listing is a heading, the line of each entry in their order, and the
/// totals: the sums of the sizes, as far as they can be counted, and how many
/// files there are.
pub proof fn lemma_listing_has_every_entry(entries: Seq<archive::EntryView>, source: Seq<char>)
    ensures
        ({
            let rule =
                "----- ------------ ------------ ------- ------------------------------------------------\n"@;
            let u = archive::uncompressed_total(entries);
            let c = archive::compressed_total(entries);
            let n = entries.len();
            let totals = "      "@ + text::padded(
                text::digits(if u < 0x1_0000_0000_0000_0000 {
                    u
                } else {
                    0xffff_ffff_ffff_ffff
                }, 10),
                12,
                ' ',
            ) + " "@ + text::padded(
                text::digits(if c < 0x1_0000_0000_0000_0000 {
                    c
                } else {
                    0xffff_ffff_ffff_ffff
                }, 10),
                12,
                ' ',
            ) + "         Total "@ + text::digits(if n < 0x1_0000_0000 {
                n
            } else {
                0xffff_ffff
            }, 10) + if n < 2 {
                " file\n"@
            } else {
                " files\n"@
            };
            listing(entries, source) == "\nListing archive: "@ + source
                + "\n\nAttr  Uncomp Size    Comp Size Method  Date & Time & File Name\n"@ + rule
                + Seq::new(n, |i: int| entry_line(entries[i])).flatten() + rule + totals
        }),
{
    lemma_lines(entries, entries.len());
    let lines = Seq::new(entries.len(), |i: int| entry_line(entries[i]));
    assert(lines.take(entries.len() as int) =~= lines);
}

proof fn lemma_lines(entries: Seq<archive::EntryView>, count: nat)
    requires
        count <= entries.len(),
    ensures
        entry_lines(entries, count) == Seq::new(
            entries.len(),
            |i: int| entry_line(entries[i]),
        ).take(count as int).flatten(),
    decreases count,
{
    let lines = Seq::new(entries.len(), |i: int| entry_line(entries[i]));
    let some = lines.take(count as int);
    if count > 0 {
        lemma_lines(entries, (count - 1) as nat);
        assert(some.drop_last() =~= lines.take(count - 1));
        some.lemma_flatten_and_flatten_alt_are_equivalent();
        some.drop_last().lemma_flatten_and_flatten_alt_are_equivalent();
    } else {
        assert(some.len() == 0);
    }
}

} // verus!
