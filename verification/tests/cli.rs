use unalz::archive::AlzArchive;
use unalz::cli::{
    closing_text, exit_code, list_archive, open_failure_text, parse_args, password_source, Cli,
    Command, PasswordSource,
};
use unalz::error::{AlzError, IoError, IoKind};

fn parse(args: &[&str]) -> Result<Command, String> {
    parse_args(&args.iter().map(|s| s.to_string()).collect())
}

fn run(args: &[&str]) -> Cli {
    match parse(args) {
        Ok(Command::Run(cli)) => cli,
        other => panic!("expected a command, got {other:?}"),
    }
}

#[test]
fn plain_arguments() {
    let cli = run(&["archive.alz"]);
    assert_eq!(cli.archive, "archive.alz");
    assert!(cli.files.is_empty() && !cli.list && !cli.pipe && !cli.quiet);
    assert!(cli.dest_dir.is_none() && cli.password.is_none());
    let cli = run(&["archive.alz", "file.txt", "", "b"]);
    assert_eq!(cli.files, vec!["file.txt", "", "b"]);
    assert_eq!(run(&["-l", "-"]).archive, "-");
}

#[test]
fn options_take_values() {
    let cli = run(&["-d", "output/", "archive.alz"]);
    assert_eq!(cli.dest_dir.as_deref(), Some("output/"));
    let cli = run(&["-dout", "-P", "PW", "a"]);
    assert_eq!(cli.dest_dir.as_deref(), Some("out"));
    assert_eq!(cli.password.as_deref(), Some("PW"));
    let cli = run(&["--output-dir=x=y", "--password", "s", "a"]);
    assert_eq!(cli.dest_dir.as_deref(), Some("x=y"));
    assert_eq!(cli.password.as_deref(), Some("s"));
    let cli = run(&["--password=", "a", "-P", "-l"]);
    assert_eq!(cli.password.as_deref(), Some("-l"));
    assert!(!cli.list);
}

#[test]
fn short_flags_bundle() {
    let cli = run(&["-lq", "a"]);
    assert!(cli.list && cli.quiet && !cli.pipe);
    let cli = run(&["-lpqd", "dir", "a"]);
    assert!(cli.list && cli.quiet && cli.pipe);
    assert_eq!(cli.dest_dir.as_deref(), Some("dir"));
    let cli = run(&["--list", "--pipe", "--quiet", "a"]);
    assert!(cli.list && cli.quiet && cli.pipe);
    assert!(run(&["--list=yes", "a"]).list);
}

#[test]
fn nothing_behind_dashes_is_an_option() {
    let cli = run(&["-l", "--", "-q", "--help", "--"]);
    assert!(cli.list && !cli.quiet);
    assert_eq!(cli.archive, "-q");
    assert_eq!(cli.files, vec!["--help", "--"]);
}

#[test]
fn help_and_version_come_first() {
    assert!(matches!(parse(&["--help"]), Ok(Command::Help)));
    assert!(matches!(parse(&["-lh", "-x"]), Ok(Command::Help)));
    assert!(matches!(parse(&["--version"]), Ok(Command::Version)));
    assert!(matches!(parse(&["a", "-V"]), Ok(Command::Version)));
}

#[test]
fn wrong_arguments_are_named() {
    let wrong = |args: &[&str]| parse(args).unwrap_err();
    assert_eq!(wrong(&[]), "no archive specified");
    assert_eq!(wrong(&["-l"]), "no archive specified");
    assert_eq!(wrong(&["-x", "a"]), "unknown option: -x");
    assert_eq!(wrong(&["-l-", "a"]), "unknown option: --");
    assert_eq!(wrong(&["--what=1", "a"]), "unknown option: --what");
    assert_eq!(wrong(&["a", "-d"]), "-d requires an argument");
    assert_eq!(wrong(&["a", "-qP"]), "-P requires an argument");
    assert_eq!(wrong(&["a", "--output-dir"]), "--output-dir requires a directory");
    assert_eq!(wrong(&["a", "--password"]), "--password requires a password");
}

#[test]
fn an_archive_is_listed() {
    let mut data = b"ALZ\x01\x0a\x00\x00\x00".to_vec();
    data.extend(b"BLZ\x01\x05\x00\x21\x09\x22\x8c\x4e\x10\x00");
    data.extend([0, 0, 1, 2, 3, 4, 2, 2]);
    data.extend(b"a.txtxy");
    data.extend(b"BLZ\x01\x01\x00\x10\x09\x22\x8c\x4e\x11\x00");
    data.extend([2, 0, 1, 2, 3, 4, 1, 200]);
    data.extend(b"d");
    data.extend([0; 12]);
    data.extend(b"zCLZ\x02");
    let archive = AlzArchive::from_bytes(data).unwrap();
    let rule = "----- ------------ ------------ ------- ------------------------------------------------";
    assert_eq!(
        list_archive(&archive, "x.alz"),
        format!(
            "\nListing archive: x.alz\n\n\
             Attr  Uncomp Size    Comp Size Method  Date & Time & File Name\n{rule}\n\
             A_R__            2            2 Store 2019-04-12 04:16:18  a.txt\n\
             _D___          200            1 Deflate 2019-04-12 04:16:18  d*\n{rule}\n      \
             {:>12} {:>12}         Total 2 files\n",
            202, 3
        )
    );
    let archive = AlzArchive::from_bytes(b"ALZ\x01\x0a\x00\x00\x00CLZ\x02".to_vec()).unwrap();
    assert!(list_archive(&archive, "-").ends_with(
        "                 0            0         Total 0 file\n"
    ));
}

#[test]
fn passwords_are_asked_for_where_needed() {
    assert_eq!(password_source(false, false, false), PasswordSource::Option);
    assert_eq!(password_source(false, true, true), PasswordSource::Option);
    assert_eq!(password_source(true, true, true), PasswordSource::Option);
    assert_eq!(password_source(true, false, true), PasswordSource::Missing);
    assert_eq!(password_source(true, false, false), PasswordSource::Prompt);
}

fn pipe_error() -> AlzError {
    AlzError::Io(IoError { kind: IoKind::BrokenPipe, message: "broken pipe".to_string() })
}

#[test]
fn exit_codes_tell_the_outcome() {
    assert_eq!(exit_code(&Ok(true), false), 0);
    assert_eq!(exit_code(&Ok(false), false), 1);
    assert_eq!(exit_code(&Err(AlzError::CorruptedFile), false), 2);
    assert_eq!(exit_code(&Err(pipe_error()), true), 0);
    assert_eq!(exit_code(&Err(pipe_error()), false), 2);
}

#[test]
fn the_last_words_tell_the_outcome() {
    assert_eq!(closing_text(&Ok(true), false, false), "\ndone.\n");
    assert_eq!(closing_text(&Ok(false), false, false), "\ndone (with warnings).\n");
    assert_eq!(closing_text(&Ok(true), false, true), "");
    assert_eq!(
        closing_text(&Err(AlzError::CorruptedFile), false, true),
        "\nextract failed: corrupted file\n"
    );
    assert_eq!(closing_text(&Err(pipe_error()), true, true), "");
    assert_eq!(
        open_failure_text("x.alz", &AlzError::NotAlzFile),
        "file open error : x.alz\nerr: not an ALZ file\n"
    );
}

#[test]
fn what_follows_does_not_depend_on_the_place() {
    let a = run(&["-q", "-d", "x", "a", "b"]);
    let b = run(&["-qdx", "a", "b"]);
    assert!(a.quiet && b.quiet);
    assert_eq!(a.dest_dir, b.dest_dir);
    assert_eq!((a.archive, a.files), (b.archive, b.files));
}
