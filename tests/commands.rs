use commands::text::same_text;
use commands::{
    Argument, ArgumentType, Command, CommandDefinition, HelpText, Opt, OptType, Request,
};

type Run = fn(&Request) -> Result<(), String>;

fn succeed(_req: &Request) -> Result<(), String> {
    Ok(())
}

fn disk_full(_req: &Request) -> Result<(), String> {
    Err("disk full".to_string())
}

fn fail_plain(_req: &Request) -> Result<(), String> {
    Err("plain".to_string())
}

fn count_arguments(req: &Request) -> Result<(), String> {
    if req.arguments.len() == 2 {
        Ok(())
    } else {
        Err(format!("expected 2 arguments, got {}", req.arguments.len()))
    }
}

fn help(tagline: &'static str) -> HelpText {
    HelpText { tagline, short_desc: "short", synopsis: "cmd" }
}

fn empty_request() -> Request {
    Request { options: Vec::new(), arguments: Vec::new() }
}

fn leaf(name: &'static str, run: Run) -> CommandDefinition<Run> {
    CommandDefinition::new(name, Vec::new(), Vec::new(), help(name), Vec::new(), run)
}

fn with_options(options: Vec<Opt>) -> CommandDefinition<Run> {
    CommandDefinition::new("root", options, Vec::new(), help("root"), Vec::new(), succeed as Run)
}

#[test]
fn opt_names_sorted_and_canonical_first() {
    let o = Opt::new_bool(vec!["v", "verbose", "very-verbose"], "talk more");
    assert_eq!(o.names, vec!["v", "verbose", "very-verbose"]);
    assert_eq!(o.name(), "v");
}

#[test]
fn canonical_stays_first_supplied_after_sort() {
    let o = Opt::new_bool(vec!["verbose", "v"], "talk more");
    assert_eq!(o.names, vec!["v", "verbose"]);
    assert_eq!(o.name(), "verbose");
}

#[test]
fn equal_length_aliases_keep_their_order() {
    let o = Opt::new(vec!["bbb", "a", "ccc", "dd", "aaa", "e"], OptType::String, "d");
    assert_eq!(o.names, vec!["a", "e", "dd", "bbb", "ccc", "aaa"]);
    assert_eq!(o.name(), "bbb");
    assert_eq!(o.opt_type, OptType::String);
}

#[test]
fn aliases_sort_by_byte_length() {
    let o = Opt::new(vec!["éé", "abc", "x"], OptType::Int, "d");
    assert_eq!(o.names, vec!["x", "abc", "éé"]);
    assert_eq!(o.opt_type, OptType::Int);
}

#[test]
fn single_alias_option() {
    let o = Opt::new_bool(vec!["quiet"], "say less");
    assert_eq!(o.names, vec!["quiet"]);
    assert_eq!(o.name(), "quiet");
    assert_eq!(o.description, "say less");
    assert_eq!(o.opt_type, OptType::Bool);
}

#[test]
fn get_option_by_any_alias() {
    let d = with_options(vec![
        Opt::new_bool(vec!["h", "help"], "show help"),
        Opt::new_bool(vec!["q", "quiet"], "say less"),
    ]);
    let by_long = d.get_option("help").unwrap();
    let by_short = d.get_option("h").unwrap();
    assert!(std::ptr::eq(by_long, by_short));
    assert_eq!(by_long.name(), "h");
    assert_eq!(d.get_option("quiet").unwrap().name(), "q");
    assert!(d.get_option("x").is_none());
    assert!(d.get_option("").is_none());
    assert!(d.get_option("hel").is_none());
}

#[test]
fn get_option_agrees_with_projection() {
    let d = with_options(vec![
        Opt::new_bool(vec!["h", "help"], "show help"),
        Opt::new(vec!["n", "count", "number"], OptType::Int, "how many"),
    ]);
    for (alias, opt) in d.options() {
        let found = d.get_option(alias).unwrap();
        assert!(std::ptr::eq(found, opt));
    }
}

#[test]
fn shared_alias_resolves_to_first_option() {
    let d = with_options(vec![
        Opt::new_bool(vec!["a", "all"], "first"),
        Opt::new_bool(vec!["all", "every"], "second"),
    ]);
    assert_eq!(d.get_option("all").unwrap().description, "first");
    assert_eq!(d.get_option("every").unwrap().description, "second");
    let pairs = d.options();
    let first_all = pairs.iter().find(|p| p.0 == "all").unwrap();
    assert!(std::ptr::eq(first_all.1, d.get_option("all").unwrap()));
    assert_eq!(pairs.iter().filter(|p| p.0 == "all").count(), 2);
    assert_eq!(pairs.iter().filter(|p| p.0 == "every").count(), 1);
}

#[test]
fn options_one_pair_per_alias() {
    let d = with_options(vec![
        Opt::new_bool(vec!["h", "help"], "show help"),
        Opt::new(vec!["verbose", "v", "very-verbose"], OptType::Bool, "talk more"),
    ]);
    let pairs = d.options();
    assert_eq!(pairs.len(), 5);
    let aliases: Vec<&str> = pairs.iter().map(|p| p.0).collect();
    assert_eq!(aliases, vec!["h", "help", "v", "verbose", "very-verbose"]);
    assert_eq!(pairs[0].1.name(), "h");
    assert_eq!(pairs[1].1.name(), "h");
    assert_eq!(pairs[2].1.name(), "verbose");
    assert_eq!(pairs[4].1.name(), "verbose");
}

#[test]
fn options_of_command_without_options() {
    let d = with_options(Vec::new());
    assert!(d.options().is_empty());
    assert!(d.get_option("h").is_none());
}

#[test]
fn subcommand_exact_match_only() {
    let root = CommandDefinition::new(
        "root",
        Vec::new(),
        Vec::new(),
        help("root"),
        vec![leaf("add", succeed as Run), leaf("remove", succeed as Run)],
        succeed as Run,
    );
    assert_eq!(root.subcommand("add").unwrap().name(), "add");
    assert_eq!(root.subcommand("remove").unwrap().name(), "remove");
    assert!(root.subcommand("ad").is_none());
    assert!(root.subcommand("addx").is_none());
    assert!(root.subcommand("ADD").is_none());
    assert!(root.subcommand("").is_none());
}

#[test]
fn later_duplicate_subcommand_wins() {
    let root = CommandDefinition::new(
        "root",
        Vec::new(),
        Vec::new(),
        help("root"),
        vec![
            CommandDefinition::new("add", Vec::new(), Vec::new(), help("first"), Vec::new(), succeed as Run),
            leaf("list", succeed as Run),
            CommandDefinition::new("add", Vec::new(), Vec::new(), help("second"), Vec::new(), fail_plain as Run),
        ],
        succeed as Run,
    );
    let found = root.subcommand("add").unwrap();
    assert_eq!(found.help_text.tagline, "second");
    let table: Vec<&str> = root.subcommands.iter().map(|c| c.name()).collect();
    assert_eq!(table, vec!["list", "add"]);
    assert_eq!(root.subcommands[1].help_text.tagline, "second");
    assert_eq!(found.run(&empty_request()), Err("plain".to_string()));
}

#[test]
fn run_returns_callback_error_unchanged() {
    let d = leaf("save", disk_full as Run);
    assert_eq!(d.run(&empty_request()), Err("disk full".to_string()));
}

#[test]
fn run_returns_callback_success() {
    let d = leaf("save", succeed as Run);
    assert_eq!(d.run(&empty_request()), Ok(()));
}

#[test]
fn run_hands_request_to_callback() {
    let d = leaf("copy", count_arguments as Run);
    let two = Request {
        options: vec![("force", "true".to_string())],
        arguments: vec!["a".to_string(), "b".to_string()],
    };
    assert_eq!(d.run(&two), Ok(()));
    assert_eq!(
        d.run(&empty_request()),
        Err("expected 2 arguments, got 0".to_string())
    );
}

#[test]
fn command_trait_dispatch_and_definition() {
    let d = leaf("save", disk_full as Run);
    let c: &dyn Command<Run> = &d;
    assert_eq!(c.run(&empty_request()), Err("disk full".to_string()));
    assert_eq!(c.get_def().name(), "save");
    assert!(std::ptr::eq(c.get_def(), &d));
}

#[test]
fn nested_subcommand_lookup() {
    let remote = CommandDefinition::new(
        "remote",
        Vec::new(),
        Vec::new(),
        help("remote"),
        vec![leaf("add", disk_full as Run)],
        succeed as Run,
    );
    let root = CommandDefinition::new(
        "git",
        Vec::new(),
        Vec::new(),
        help("git"),
        vec![remote],
        succeed as Run,
    );
    let add = root.subcommand("remote").unwrap().subcommand("add").unwrap();
    assert_eq!(add.run(&empty_request()), Err("disk full".to_string()));
    assert!(root.subcommand("add").is_none());
}

#[test]
fn arguments_keep_their_order() {
    let d = CommandDefinition::new(
        "cp",
        Vec::new(),
        vec![
            Argument::new_file("source", true, false, "from"),
            Argument::new_string("label", false, false, "tag"),
            Argument::new_file("rest", false, true, "more"),
        ],
        help("cp"),
        Vec::new(),
        succeed as Run,
    );
    let args = d.arguments();
    assert_eq!(args.len(), 3);
    assert_eq!(args[0].name(), "source");
    assert_eq!(args[1].name(), "label");
    assert_eq!(args[2].name(), "rest");
    assert_eq!(args[0].arg_type(), ArgumentType::File);
    assert_eq!(args[1].arg_type(), ArgumentType::String);
    assert!(args[2].is_variadic());
    assert!(!args[0].is_variadic());
    assert!(args[0].required);
    assert!(!args[1].required);
}

#[test]
fn arguments_are_not_validated() {
    let d = CommandDefinition::new(
        "odd",
        Vec::new(),
        vec![
            Argument::new_string("many", false, true, "first"),
            Argument::new_string("one", true, false, "second"),
        ],
        help("odd"),
        Vec::new(),
        succeed as Run,
    );
    assert_eq!(d.arguments().len(), 2);
    assert!(d.arguments()[0].is_variadic());
}

#[test]
fn argument_fields() {
    let a = Argument::new(
        "path",
        ArgumentType::File,
        true,
        true,
        "where",
    );
    assert_eq!(a.name(), "path");
    assert_eq!(a.arg_type(), ArgumentType::File);
    assert!(a.required);
    assert!(a.is_variadic());
    assert_eq!(a.description, "where");
}

#[test]
fn definition_name_and_help() {
    let d = CommandDefinition::new(
        "build",
        Vec::new(),
        Vec::new(),
        HelpText { tagline: "compile", short_desc: "Compile the project", synopsis: "build --release" },
        Vec::new(),
        succeed as Run,
    );
    assert_eq!(d.name(), "build");
    assert_eq!(d.help_text.tagline, "compile");
    assert_eq!(d.help_text.short_desc, "Compile the project");
    assert_eq!(d.help_text.synopsis, "build --release");
}

#[test]
fn same_text_compares_characters() {
    assert!(same_text("help", "help"));
    assert!(!same_text("help", "hel"));
    assert!(!same_text("help", "hElp"));
    assert!(same_text("", ""));
    assert!(same_text("été", "été"));
    assert!(!same_text("été", "ete"));
}

#[test]
fn distinct_subcommands_all_kept_in_order() {
    let root = CommandDefinition::new(
        "root",
        Vec::new(),
        Vec::new(),
        help("root"),
        vec![leaf("a", succeed as Run), leaf("b", succeed as Run), leaf("c", succeed as Run)],
        succeed as Run,
    );
    let table: Vec<&str> = root.subcommands.iter().map(|c| c.name()).collect();
    assert_eq!(table, vec!["a", "b", "c"]);
}

#[test]
fn three_duplicates_leave_the_last() {
    let root = CommandDefinition::new(
        "root",
        Vec::new(),
        Vec::new(),
        help("root"),
        vec![
            leaf("x", succeed as Run),
            leaf("x", fail_plain as Run),
            leaf("x", disk_full as Run),
        ],
        succeed as Run,
    );
    assert_eq!(root.subcommands.len(), 1);
    assert_eq!(
        root.subcommand("x").unwrap().run(&empty_request()),
        Err("disk full".to_string())
    );
}
