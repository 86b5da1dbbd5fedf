//! Turning the argument list into the sequence of actions to perform,
//! and the exact text the tool prints.

use vstd::prelude::*;
use vstd::string::StringExecFns;

verus! {

/// Whether a token selects the listing command.
pub open spec fn is_list_token(t: Seq<char>) -> bool {
    t == "-l"@ || t == "list"@ || t == "ls"@
}

/// Whether a token selects instantiation.
pub open spec fn is_create_token(t: Seq<char>) -> bool {
    t == "-c"@ || t == "create"@
}

/// Whether a token selects a snapshot.
pub open spec fn is_new_token(t: Seq<char>) -> bool {
    t == "-n"@ || t == "new"@
}

/// Whether a token selects removal.
pub open spec fn is_remove_token(t: Seq<char>) -> bool {
    t == "-r"@ || t == "remove"@
}

/// Whether a token asks for the help text.
pub open spec fn is_help_token(t: Seq<char>) -> bool {
    t == "-h"@ || t == "--help"@ || t == "help"@
}

/// One action the tool performs, in order.
pub enum Action {
    /// Print the help text.
    Help,
    /// Print every blueprint name.
    List,
    /// Instantiate the named blueprint into the working directory.
    Create { name: String },
    /// Snapshot the working directory under the name.
    New { name: String },
    /// Delete the named blueprint.
    Remove { name: String },
    /// Report an unrecognised token and carry on.
    Unknown { token: String },
    /// Report a name-taking token with nothing after it and stop.
    MissingName,
}

/// The mathematical form of an action.
pub enum ActionView {
    Help,
    List,
    Create { name: Seq<char> },
    New { name: Seq<char> },
    Remove { name: Seq<char> },
    Unknown { token: Seq<char> },
    MissingName,
}

impl View for Action {
    type V = ActionView;

    open spec fn view(&self) -> ActionView {
        match self {
            Action::Help => ActionView::Help,
            Action::List => ActionView::List,
            Action::Create { name } => ActionView::Create { name: name@ },
            Action::New { name } => ActionView::New { name: name@ },
            Action::Remove { name } => ActionView::Remove { name: name@ },
            Action::Unknown { token } => ActionView::Unknown { token: token@ },
            Action::MissingName => ActionView::MissingName,
        }
    }
}

/// Whether performing the action reads or writes the store or the
/// working directory.
pub open spec fn touches_store(a: ActionView) -> bool {
    a is Create || a is New || a is Remove
}

/// The actions for a non-empty token list, consumed left to right. A
/// name-taking token swallows the next token as the name; with no
/// token left it becomes the fatal missing-name report, and nothing
/// after it is looked at.
pub open spec fn plan_steps(toks: Seq<Seq<char>>) -> Seq<ActionView>
    decreases toks.len(),
{
    if toks.len() == 0 {
        Seq::empty()
    } else {
        let t = toks[0];
        if is_list_token(t) {
            seq![ActionView::List] + plan_steps(toks.drop_first())
        } else if is_create_token(t) || is_new_token(t) || is_remove_token(t) {
            if toks.len() >= 2 {
                let a = if is_create_token(t) {
                    ActionView::Create { name: toks[1] }
                } else if is_new_token(t) {
                    ActionView::New { name: toks[1] }
                } else {
                    ActionView::Remove { name: toks[1] }
                };
                seq![a] + plan_steps(toks.skip(2))
            } else {
                seq![ActionView::MissingName]
            }
        } else if is_help_token(t) {
            seq![ActionView::Help] + plan_steps(toks.drop_first())
        } else {
            seq![ActionView::Unknown { token: t }] + plan_steps(toks.drop_first())
        }
    }
}

/// The actions for an invocation: no tokens at all ask for the help
/// text, anything else is consumed step by step.
pub open spec fn plan_top(toks: Seq<Seq<char>>) -> Seq<ActionView> {
    if toks.len() == 0 {
        seq![ActionView::Help]
    } else {
        plan_steps(toks)
    }
}

/// The exit status the plan itself settles: one exactly when parsing
/// stopped on a missing name. Store operations may still exit with
/// one of their own when performed.
pub open spec fn plan_exit(acts: Seq<ActionView>) -> int {
    if acts.contains(ActionView::MissingName) {
        1
    } else {
        0
    }
}

/// The classes a token falls into.
#[derive(PartialEq, Eq, Structural, Clone, Copy, Debug)]
pub enum TokenKind {
    List,
    Create,
    New,
    Remove,
    Help,
    Other,
}

/// The class of a token, with the same precedence the plan uses.
pub open spec fn kind_spec(t: Seq<char>) -> TokenKind {
    if is_list_token(t) {
        TokenKind::List
    } else if is_create_token(t) {
        TokenKind::Create
    } else if is_new_token(t) {
        TokenKind::New
    } else if is_remove_token(t) {
        TokenKind::Remove
    } else if is_help_token(t) {
        TokenKind::Help
    } else {
        TokenKind::Other
    }
}

/// Whether the argument reads as the given literal.
fn token_is(arg: &String, lit: &str) -> (b: bool)
    ensures
        b == (arg@ == lit@),
{
    let l: String = lit.to_owned();
    arg.eq(&l)
}

/// Classify one token.
pub fn classify(arg: &String) -> (k: TokenKind)
    ensures
        k == kind_spec(arg@),
{
    if token_is(arg, "-l") || token_is(arg, "list") || token_is(arg, "ls") {
        TokenKind::List
    } else if token_is(arg, "-c") || token_is(arg, "create") {
        TokenKind::Create
    } else if token_is(arg, "-n") || token_is(arg, "new") {
        TokenKind::New
    } else if token_is(arg, "-r") || token_is(arg, "remove") {
        TokenKind::Remove
    } else if token_is(arg, "-h") || token_is(arg, "--help") || token_is(arg, "help") {
        TokenKind::Help
    } else {
        TokenKind::Other
    }
}

/// The whole argument list, turned into the actions to perform.
pub fn plan(args: &Vec<String>) -> (acts: Vec<Action>)
    ensures
        acts@.map_values(|a: Action| a@) == plan_top(args@.map_values(|s: String| s@)),
{
    let ghost toks = args@.map_values(|s: String| s@);
    let mut acts: Vec<Action> = Vec::new();
    if args.len() == 0 {
        acts.push(Action::Help);
        proof {
            assert(acts@.map_values(|a: Action| a@) =~= seq![ActionView::Help]);
        }
        return acts;
    }
    let mut i: usize = 0;
    proof {
        assert(toks.skip(0) =~= toks);
        assert(acts@.map_values(|a: Action| a@) =~= Seq::<ActionView>::empty());
        assert(Seq::<ActionView>::empty() + plan_steps(toks) =~= plan_steps(toks));
    }
    while i < args.len()
        invariant
            i <= toks.len(),
            toks == args@.map_values(|s: String| s@),
            toks.len() == args@.len(),
            plan_steps(toks) == acts@.map_values(|a: Action| a@) + plan_steps(
                toks.skip(i as int),
            ),
        decreases toks.len() - i,
    {
        let ghost rest = toks.skip(i as int);
        let ghost done = acts@.map_values(|a: Action| a@);
        proof {
            assert(rest[0] == toks[i as int]);
            assert(rest.drop_first() =~= toks.skip(i + 1 as int));
            assert(toks[i as int] == args@[i as int]@);
        }
        let k = classify(&args[i]);
        match k {
            TokenKind::List => {
                acts.push(Action::List);
                proof {
                    assert(acts@.map_values(|a: Action| a@) =~= done.push(ActionView::List));
                    assert(plan_steps(rest) == seq![ActionView::List] + plan_steps(
                        rest.drop_first(),
                    ));
                    assert(done.push(ActionView::List) + plan_steps(toks.skip(i + 1 as int))
                        =~= done + plan_steps(rest));
                }
                i = i + 1;
            },
            TokenKind::Help => {
                acts.push(Action::Help);
                proof {
                    assert(acts@.map_values(|a: Action| a@) =~= done.push(ActionView::Help));
                    assert(plan_steps(rest) == seq![ActionView::Help] + plan_steps(
                        rest.drop_first(),
                    ));
                    assert(done.push(ActionView::Help) + plan_steps(toks.skip(i + 1 as int))
                        =~= done + plan_steps(rest));
                }
                i = i + 1;
            },
            TokenKind::Other => {
                let token = args[i].clone();
                acts.push(Action::Unknown { token });
                proof {
                    let a = ActionView::Unknown { token: toks[i as int] };
                    assert(acts@.map_values(|a2: Action| a2@) =~= done.push(a));
                    assert(plan_steps(rest) == seq![a] + plan_steps(rest.drop_first()));
                    assert(done.push(a) + plan_steps(toks.skip(i + 1 as int)) =~= done
                        + plan_steps(rest));
                }
                i = i + 1;
            },
            TokenKind::Create | TokenKind::New | TokenKind::Remove => {
                if i + 1 < args.len() {
                    proof {
                        assert(rest.len() >= 2);
                        assert(rest[1] == toks[i + 1 as int]);
                        assert(rest.skip(2) =~= toks.skip(i + 2 as int));
                        assert(toks[i + 1 as int] == args@[i + 1 as int]@);
                    }
                    let name = args[i + 1].clone();
                    let ghost a = if k is Create {
                        ActionView::Create { name: toks[i + 1 as int] }
                    } else if k is New {
                        ActionView::New { name: toks[i + 1 as int] }
                    } else {
                        ActionView::Remove { name: toks[i + 1 as int] }
                    };
                    match k {
                        TokenKind::Create => acts.push(Action::Create { name }),
                        TokenKind::New => acts.push(Action::New { name }),
                        _ => acts.push(Action::Remove { name }),
                    }
                    proof {
                        assert(acts@.map_values(|a2: Action| a2@) =~= done.push(a));
                        assert(plan_steps(rest) == seq![a] + plan_steps(rest.skip(2)));
                        assert(done.push(a) + plan_steps(toks.skip(i + 2 as int)) =~= done
                            + plan_steps(rest));
                    }
                    i = i + 2;
                } else {
                    acts.push(Action::MissingName);
                    proof {
                        assert(rest.len() == 1);
                        assert(plan_steps(rest) == seq![ActionView::MissingName]);
                        assert(acts@.map_values(|a: Action| a@) =~= done.push(
                            ActionView::MissingName,
                        ));
                        assert(done.push(ActionView::MissingName) =~= done + plan_steps(rest));
                    }
                    return acts;
                }
            },
        }
    }
    proof {
        assert(toks.skip(toks.len() as int) =~= Seq::<Seq<char>>::empty());
        assert(plan_steps(Seq::<Seq<char>>::empty()) == Seq::<ActionView>::empty());
        assert(acts@.map_values(|a: Action| a@) + Seq::<ActionView>::empty() =~= acts@.map_values(
            |a: Action| a@,
        ));
    }
    acts
}

/// The report for a name-taking token with nothing after it.
pub open spec fn missing_name_text() -> Seq<char> {
    "Missing blueprint name"@
}

/// Build the missing-name report.
pub fn missing_name_message() -> (m: String)
    ensures
        m@ == missing_name_text(),
{
    "Missing blueprint name".to_owned()
}

/// The report for a token no command answers to.
pub open spec fn unknown_argument_text(t: Seq<char>) -> Seq<char> {
    "Unknown argument "@ + t
}

/// Build the unknown-argument report.
pub fn unknown_argument_message(token: &String) -> (m: String)
    ensures
        m@ == unknown_argument_text(token@),
{
    let head: String = "Unknown argument ".to_owned();
    head.concat(token.as_str())
}

/// The help text, line by line.
pub fn help_lines() -> (lines: Vec<String>)
    ensures
        lines@.len() == 10,
        lines@[0]@ == "Usage: blueprint [OPTIONS] [SUBCOMMAND]"@,
        lines@[1]@ == ""@,
        lines@[2]@ == "Options:"@,
        lines@[3]@ == "  -h, --help       Prints help information"@,
        lines@[4]@ == ""@,
        lines@[5]@ == "Subcommands:"@,
        lines@[6]@ == "  create <name>    make a new file from blueprint from an existing blueprint"@,
        lines@[7]@ == "  list             List all blueprints"@,
        lines@[8]@ == "  new <name>       Create a new blueprint from the current directory"@,
        lines@[9]@ == "  remove <name>    Remove a blueprint"@,
{
    let mut lines: Vec<String> = Vec::new();
    lines.push("Usage: blueprint [OPTIONS] [SUBCOMMAND]".to_owned());
    lines.push("".to_owned());
    lines.push("Options:".to_owned());
    lines.push("  -h, --help       Prints help information".to_owned());
    lines.push("".to_owned());
    lines.push("Subcommands:".to_owned());
    lines.push("  create <name>    make a new file from blueprint from an existing blueprint".to_owned());
    lines.push("  list             List all blueprints".to_owned());
    lines.push("  new <name>       Create a new blueprint from the current directory".to_owned());
    lines.push("  remove <name>    Remove a blueprint".to_owned());
    lines
}

/// One observed directory entry: its base name, and whether it is a
/// directory.
pub struct EntryInfo {
    pub name: String,
    pub is_dir: bool,
}

impl View for EntryInfo {
    type V = (Seq<char>, bool);

    open spec fn view(&self) -> (Seq<char>, bool) {
        (self.name@, self.is_dir)
    }
}

/// The names a copy carries over: every entry that is not a
/// directory, in listing order.
pub open spec fn kept_names(s: Seq<(Seq<char>, bool)>) -> Seq<Seq<char>>
    decreases s.len(),
{
    if s.len() == 0 {
        Seq::empty()
    } else if s[0].1 {
        kept_names(s.drop_first())
    } else {
        seq![s[0].0] + kept_names(s.drop_first())
    }
}

/// The copy plan for one listing: exactly the names of its
/// non-directory entries, in order.
pub fn copy_plan(entries: &Vec<EntryInfo>) -> (r: Vec<String>)
    ensures
        r@.map_values(|s: String| s@) == kept_names(entries@.map_values(|e: EntryInfo| e@)),
{
    let ghost evs = entries@.map_values(|e: EntryInfo| e@);
    let mut r: Vec<String> = Vec::new();
    let mut i: usize = 0;
    proof {
        assert(evs.skip(0) =~= evs);
        assert(r@.map_values(|s: String| s@) =~= Seq::<Seq<char>>::empty());
        assert(Seq::<Seq<char>>::empty() + kept_names(evs) =~= kept_names(evs));
    }
    while i < entries.len()
        invariant
            i <= evs.len(),
            evs == entries@.map_values(|e: EntryInfo| e@),
            evs.len() == entries@.len(),
            kept_names(evs) == r@.map_values(|s: String| s@) + kept_names(evs.skip(i as int)),
        decreases evs.len() - i,
    {
        let ghost rest = evs.skip(i as int);
        let ghost done = r@.map_values(|s: String| s@);
        proof {
            assert(rest[0] == evs[i as int]);
            assert(rest.drop_first() =~= evs.skip(i + 1 as int));
            assert(evs[i as int] == entries@[i as int]@);
        }
        if !entries[i].is_dir {
            r.push(entries[i].name.clone());
            proof {
                assert(r@.map_values(|s: String| s@) =~= done.push(evs[i as int].0));
                assert(kept_names(rest) == seq![rest[0].0] + kept_names(rest.drop_first()));
                assert(done.push(evs[i as int].0) + kept_names(evs.skip(i + 1 as int)) =~= done
                    + kept_names(rest));
            }
        } else {
            proof {
                assert(kept_names(rest) == kept_names(rest.drop_first()));
            }
        }
        i = i + 1;
    }
    proof {
        assert(evs.skip(evs.len() as int) =~= Seq::<(Seq<char>, bool)>::empty());
        assert(kept_names(Seq::<(Seq<char>, bool)>::empty()) == Seq::<Seq<char>>::empty());
        assert(r@.map_values(|s: String| s@) + Seq::<Seq<char>>::empty() =~= r@.map_values(
            |s: String| s@,
        ));
    }
    r
}

/// A directory's name never stands in the copy plan, unless a
/// non-directory entry carries the same name.
pub proof fn lemma_plan_skips_directories(s: Seq<(Seq<char>, bool)>, n: Seq<char>)
    ensures
        kept_names(s).contains(n) ==> exists|k: int|
            0 <= k < s.len() && s[k].0 == n && !s[k].1,
    decreases s.len(),
{
    if s.len() == 0 {
    } else {
        lemma_plan_skips_directories(s.drop_first(), n);
        if !s[0].1 {
            assert(kept_names(s)[0] == s[0].0);
            assert(kept_names(s).drop_first() =~= kept_names(s.drop_first()));
            if kept_names(s).contains(n) {
                let j = choose|j: int| 0 <= j < kept_names(s).len() && kept_names(s)[j] == n;
                if j == 0 {
                    assert(s[0].0 == n && !s[0].1);
                } else {
                    assert(kept_names(s.drop_first())[j - 1] == n);
                    if kept_names(s.drop_first()).contains(n) {
                        let k = choose|k: int|
                            0 <= k < s.drop_first().len() && s.drop_first()[k].0 == n
                                && !s.drop_first()[k].1;
                        assert(s[k + 1].0 == n && !s[k + 1].1);
                    }
                }
            }
        } else {
            if kept_names(s).contains(n) {
                assert(kept_names(s.drop_first()).contains(n));
                let k = choose|k: int|
                    0 <= k < s.drop_first().len() && s.drop_first()[k].0 == n
                        && !s.drop_first()[k].1;
                assert(s[k + 1].0 == n && !s[k + 1].1);
            }
        }
    }
}

/// Law: no arguments ask for the help text alone, and the plan's exit
/// status is zero.
pub proof fn lemma_no_args_help()
    ensures
        plan_top(Seq::empty()) == seq![ActionView::Help],
        plan_exit(plan_top(Seq::empty())) == 0,
{
    let p = plan_top(Seq::<Seq<char>>::empty());
    if p.contains(ActionView::MissingName) {
        let j = choose|j: int| 0 <= j < p.len() && p[j] == ActionView::MissingName;
        assert(p[0] == ActionView::Help);
    }
}

/// Law: a name-taking token with nothing after it plans only the
/// missing-name report, exits with one, and touches neither the store
/// nor the working directory.
pub proof fn lemma_missing_name(t: Seq<char>)
    requires
        is_create_token(t) || is_new_token(t) || is_remove_token(t),
    ensures
        plan_top(seq![t]) == seq![ActionView::MissingName],
        plan_exit(plan_top(seq![t])) == 1,
        forall|k: int|
            0 <= k < plan_top(seq![t]).len() ==> !touches_store(#[trigger] plan_top(seq![t])[k]),
{
    let toks = seq![t];
    assert(toks.len() == 1);
    assert(toks[0] == t);
    reveal_strlit("-l");
    reveal_strlit("list");
    reveal_strlit("ls");
    reveal_strlit("-c");
    reveal_strlit("create");
    reveal_strlit("-n");
    reveal_strlit("new");
    reveal_strlit("-r");
    reveal_strlit("remove");
    assert("-c"@[1] == 'c' && "-n"@[1] == 'n' && "-r"@[1] == 'r');
    assert("-l"@[1] == 'l' && "ls"@[0] == 'l');
    assert("-c"@[0] == '-' && "-n"@[0] == '-' && "-r"@[0] == '-');
    assert("-c"@ != "-l"@ && "-c"@ != "ls"@);
    assert("-n"@ != "-l"@ && "-n"@ != "ls"@);
    assert("-r"@ != "-l"@ && "-r"@ != "ls"@);
    assert("-l"@.len() == 2 && "ls"@.len() == 2 && "list"@.len() == 4);
    assert("create"@.len() == 6 && "new"@.len() == 3 && "remove"@.len() == 6);
    assert(!is_list_token(t));
    let p = plan_top(toks);
    assert(p == plan_steps(toks));
    assert(p =~= seq![ActionView::MissingName]);
    assert(p[0] == ActionView::MissingName);
    assert(p.contains(ActionView::MissingName));
}

} // verus!
