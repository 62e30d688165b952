//! The command line.
use vstd::prelude::*;
use vstd::string::StringExecFns;
use crate::text::{
    begins_with, finishes_with, first_of, join, joined, lemma_first_of, lemma_first_of_is, opt_text,
    same, starts_with, texts,
};

verus! {

/// What the program is asked to do.
#[derive(Debug)]
pub enum Command {
    Help,
    Init { force: bool },
    Proxy { key_path: Option<String> },
    Launch { key_path: Option<String>, browser: Option<String>, browser_args: Vec<String> },
}

/// The model of a command.
pub enum CommandView {
    Help,
    Init { force: bool },
    Proxy { key_path: Option<Seq<char>> },
    Launch {
        key_path: Option<Seq<char>>,
        browser: Option<Seq<char>>,
        browser_args: Seq<Seq<char>>,
    },
}

impl View for Command {
    type V = CommandView;

    open spec fn view(&self) -> CommandView {
        match self {
            Command::Help => CommandView::Help,
            Command::Init { force } => CommandView::Init { force: *force },
            Command::Proxy { key_path } => CommandView::Proxy { key_path: opt_text(*key_path) },
            Command::Launch { key_path, browser, browser_args } => CommandView::Launch {
                key_path: opt_text(*key_path),
                browser: opt_text(*browser),
                browser_args: texts(browser_args@),
            },
        }
    }
}

pub const USAGE: &'static str =
    "usage: httplogger <command>\n\ncommands:\n  init              create httplogger.yml, CA, and browser home\n  proxy [--key PATH]  start MITM proxy (Ctrl+C to stop)\n  launch [--key PATH] [NAME|PATH] [--] [browser args...]  start proxy and browser\n\nlaunch:\n  browser args are only forwarded after --";

pub const KEY_VALUE: &'static str = "a path to the CA private key PEM file";

/// How the program is used.
pub fn usage() -> (r: &'static str)
    ensures
        r@ == USAGE@,
{
    USAGE
}

// ---------------------------------------------------------------------------
// Arguments.
// ---------------------------------------------------------------------------

/// The arguments before the first `--`.
pub open spec fn before_dashes(args: Seq<Seq<char>>) -> Seq<Seq<char>> {
    args.take(first_of(args, "--"@) as int)
}

/// The arguments behind the first `--`.
pub open spec fn behind_dashes(args: Seq<Seq<char>>) -> Seq<Seq<char>> {
    if first_of(args, "--"@) < args.len() {
        args.skip(first_of(args, "--"@) as int + 1)
    } else {
        seq![]
    }
}

/// An argument that asks for help.
pub open spec fn asks_for_help(args: Seq<Seq<char>>) -> bool {
    args.contains("--help"@) || args.contains("-h"@)
}

/// What is left when the flag `flag` and the value behind it are taken out of the arguments.
pub enum FlagView {
    /// The value, where the flag was there, and the other arguments.
    Taken(Option<Seq<char>>, Seq<Seq<char>>),
    /// The flag is the last argument.
    NoValue,
    /// The flag is there twice.
    Twice,
}

pub open spec fn flag_taken(
    args: Seq<Seq<char>>,
    flag: Seq<char>,
    value: Option<Seq<char>>,
) -> FlagView
    decreases args.len(),
{
    if args.len() == 0 {
        FlagView::Taken(value, seq![])
    } else if args[0] == flag {
        if args.len() == 1 {
            FlagView::NoValue
        } else if value is Some {
            FlagView::Twice
        } else {
            flag_taken(args.skip(2), flag, Some(args[1]))
        }
    } else {
        match flag_taken(args.skip(1), flag, value) {
            FlagView::Taken(v, rest) => FlagView::Taken(v, seq![args[0]] + rest),
            other => other,
        }
    }
}

/// The position of the first argument that does not begin with a hyphen, or how many there are.
pub open spec fn first_positional(args: Seq<Seq<char>>) -> nat
    decreases args.len(),
{
    if args.len() == 0 || !begins_with(args[0], "-"@) {
        0
    } else {
        1 + first_positional(args.drop_first())
    }
}

/// What is to be done, or why the arguments are refused.
pub enum ParseView {
    Command(CommandView),
    Refused(Seq<char>),
}

/// What is said where a flag has no value.
pub open spec fn no_value_text(flag: Seq<char>, value_name: Seq<char>) -> Seq<char> {
    flag + " requires "@ + value_name
}

/// What is said where a flag is there twice.
pub open spec fn twice_text(flag: Seq<char>) -> Seq<char> {
    flag + " may only be specified once"@
}

/// The arguments of `init`.
pub open spec fn init_of(args: Seq<Seq<char>>) -> ParseView {
    if exists|i: int| 0 <= i < args.len() && #[trigger] args[i] != "--force"@ {
        ParseView::Refused("usage: httplogger init [--force]"@)
    } else {
        ParseView::Command(CommandView::Init { force: args.len() > 0 })
    }
}

/// The arguments of `proxy`.
pub open spec fn proxy_of(args: Seq<Seq<char>>) -> ParseView {
    match flag_taken(args, "--key"@, None) {
        FlagView::Taken(key_path, rest) => if rest.len() > 0 {
            ParseView::Refused("usage: httplogger proxy [--key <ca-key.pem>]"@)
        } else {
            ParseView::Command(CommandView::Proxy { key_path })
        },
        FlagView::NoValue => ParseView::Refused(no_value_text("--key"@, KEY_VALUE@)),
        FlagView::Twice => ParseView::Refused(twice_text("--key"@)),
    }
}

/// The arguments of `launch` before the first `--`, with those behind it.
pub open spec fn launch_of(own: Seq<Seq<char>>, browser_args: Seq<Seq<char>>) -> ParseView {
    match flag_taken(own, "--key"@, None) {
        FlagView::Taken(key_path, rest) => {
            let n = first_positional(rest) as int;
            if n < rest.len() && rest.len() == 1 {
                ParseView::Command(
                    CommandView::Launch { key_path, browser: Some(rest[0]), browser_args },
                )
            } else if rest.len() == 0 {
                ParseView::Command(CommandView::Launch { key_path, browser: None, browser_args })
            } else {
                let left = if n < rest.len() {
                    rest.remove(n)
                } else {
                    rest
                };
                ParseView::Refused(
                    "unexpected argument(s): "@ + join(left, " "@) + "\n\n"@ + USAGE@,
                )
            }
        },
        FlagView::NoValue => ParseView::Refused(no_value_text("--key"@, KEY_VALUE@)),
        FlagView::Twice => ParseView::Refused(twice_text("--key"@)),
    }
}

/// What the arguments ask for.
pub open spec fn parsed(args: Seq<Seq<char>>) -> ParseView {
    if asks_for_help(before_dashes(args)) {
        ParseView::Command(CommandView::Help)
    } else if args.len() == 0 {
        ParseView::Refused(USAGE@)
    } else if args[0] == "init"@ {
        init_of(args.drop_first())
    } else if args[0] == "proxy"@ {
        proxy_of(args.drop_first())
    } else if args[0] == "launch"@ {
        launch_of(before_dashes(args.drop_first()), behind_dashes(args.drop_first()))
    } else {
        ParseView::Refused(USAGE@ + "\n\nunknown command: "@ + args[0])
    }
}

/// The view of a parsed command line.
pub open spec fn parse_view(r: Result<Command, String>) -> ParseView {
    match r {
        Ok(command) => ParseView::Command(command@),
        Err(message) => ParseView::Refused(message@),
    }
}

/// Whether an argument is in the list.
fn has_arg(args: &[String], arg: &str) -> (r: bool)
    ensures
        r == texts(args@).contains(arg@),
{
    let mut i: usize = 0;
    while i < args.len()
        invariant
            i <= args@.len(),
            forall|j: int| 0 <= j < i ==> texts(args@)[j] != arg@,
        decreases args@.len() - i,
    {
        if same(args[i].as_str(), arg) {
            assert(texts(args@)[i as int] == arg@);
            return true;
        }
        i = i + 1;
    }
    false
}

/// The position of the first `--`, or how many arguments there are.
fn dashes(args: &[String]) -> (r: usize)
    ensures
        r == first_of(texts(args@), "--"@),
        r <= args@.len(),
{
    let mut i: usize = 0;
    while i < args.len()
        invariant
            i <= args@.len(),
            forall|j: int| 0 <= j < i ==> texts(args@)[j] != "--"@,
        decreases args@.len() - i,
    {
        if same(args[i].as_str(), "--") {
            assert(texts(args@)[i as int] == "--"@);
            proof {
                lemma_first_of_is(texts(args@), "--"@, i as int);
            }
            return i;
        }
        i = i + 1;
    }
    proof {
        lemma_first_of_is(texts(args@), "--"@, i as int);
    }
    i
}

fn copy_args(args: &[String], from: usize, to: usize) -> (r: Vec<String>)
    requires
        from <= to <= args@.len(),
    ensures
        texts(r@) == texts(args@).subrange(from as int, to as int),
{
    let mut out: Vec<String> = Vec::new();
    let mut i: usize = from;
    while i < to
        invariant
            from <= i <= to <= args@.len(),
            texts(out@) == texts(args@).subrange(from as int, i as int),
        decreases to - i,
    {
        let arg = args[i].clone();
        assert(texts(out@.push(arg)) =~= texts(out@).push(arg@));
        out.push(arg);
        i = i + 1;
        assert(texts(args@).subrange(from as int, i as int) =~= texts(args@).subrange(
            from as int,
            i - 1,
        ).push(arg@));
    }
    out
}

/// The arguments before and behind the first `--`.
pub fn split_at_double_dash(args: &[String]) -> (r: (Vec<String>, Vec<String>))
    ensures
        texts(r.0@) == before_dashes(texts(args@)),
        texts(r.1@) == behind_dashes(texts(args@)),
{
    let n: usize = dashes(args);
    let own = copy_args(args, 0, n);
    assert(texts(args@).subrange(0, n as int) =~= texts(args@).take(n as int));
    if n < args.len() {
        let browser_args = copy_args(args, n + 1, args.len());
        assert(texts(args@).subrange(n + 1, args@.len() as int) =~= texts(args@).skip(n + 1));
        (own, browser_args)
    } else {
        let none: Vec<String> = Vec::new();
        assert(texts(none@) =~= Seq::<Seq<char>>::empty());
        (own, none)
    }
}

/// Whether an argument asks for help.
pub fn wants_help(args: &[String]) -> (r: bool)
    ensures
        r == asks_for_help(texts(args@)),
{
    has_arg(args, "--help") || has_arg(args, "-h")
}

/// Whether an argument before the first `--` asks for help.
pub fn help_target(args: &[String]) -> (r: bool)
    ensures
        r == asks_for_help(before_dashes(texts(args@))),
{
    let n: usize = dashes(args);
    let own = copy_args(args, 0, n);
    assert(texts(args@).subrange(0, n as int) =~= texts(args@).take(n as int));
    wants_help(own.as_slice())
}

/// A value found before, put in front of what the other arguments give.
proof fn lemma_flag_step(done: Seq<Seq<char>>, x: Seq<char>, rest: FlagView)
    ensures
        prefixed(done.push(x), rest) == prefixed(done, prefixed(seq![x], rest)),
{
    if rest is Taken {
        assert(done.push(x) + rest->Taken_1 =~= done + (seq![x] + rest->Taken_1));
    }
}

/// The arguments `done` in front of those that are left.
pub open spec fn prefixed(done: Seq<Seq<char>>, r: FlagView) -> FlagView {
    match r {
        FlagView::Taken(v, rest) => FlagView::Taken(v, done + rest),
        other => other,
    }
}

/// Takes a flag and the value behind it out of the arguments. `value_name` says what the value
/// is, where it is missing.
pub fn take_flag(args: &[String], flag: &str, value_name: &str) -> (r: Result<
    (Option<String>, Vec<String>),
    String,
>)
    ensures
        match flag_taken(texts(args@), flag@, None) {
            FlagView::Taken(value, rest) => r is Ok && opt_text((r->Ok_0).0) == value && texts(
                (r->Ok_0).1@,
            ) == rest,
            FlagView::NoValue => r is Err && (r->Err_0)@ == no_value_text(flag@, value_name@),
            FlagView::Twice => r is Err && (r->Err_0)@ == twice_text(flag@),
        },
{
    let ghost all = texts(args@);
    let mut value: Option<String> = None;
    let mut rest: Vec<String> = Vec::new();
    let mut i: usize = 0;
    proof {
        assert(all.skip(0) =~= all);
        assert(texts(rest@) =~= Seq::<Seq<char>>::empty());
        let r = flag_taken(all, flag@, None);
        if r is Taken {
            assert(Seq::<Seq<char>>::empty() + r->Taken_1 =~= r->Taken_1);
        }
    }
    while i < args.len()
        invariant
            i <= args@.len(),
            all == texts(args@),
            flag_taken(all, flag@, None) == prefixed(
                texts(rest@),
                flag_taken(all.skip(i as int), flag@, opt_text(value)),
            ),
        decreases args@.len() - i,
    {
        let ghost tail = all.skip(i as int);
        assert(tail[0] == args@[i as int]@);
        if same(args[i].as_str(), flag) {
            if args.len() - i == 1 {
                let mut message = flag.to_owned();
                message.append(" requires ");
                message.append(value_name);
                return Err(message);
            }
            if value.is_some() {
                let mut message = flag.to_owned();
                message.append(" may only be specified once");
                return Err(message);
            }
            assert(tail[1] == args@[i + 1]@);
            assert(tail.skip(2) =~= all.skip(i + 2));
            value = Some(args[i + 1].clone());
            i = i + 2;
        } else {
            assert(tail.skip(1) =~= all.skip(i + 1));
            let arg = args[i].clone();
            assert(texts(rest@.push(arg)) =~= texts(rest@).push(arg@));
            proof {
                lemma_flag_step(
                    texts(rest@),
                    arg@,
                    flag_taken(all.skip(i + 1), flag@, opt_text(value)),
                );
            }
            rest.push(arg);
            i = i + 1;
        }
    }
    assert(texts(rest@) + Seq::<Seq<char>>::empty() =~= texts(rest@));
    Ok((value, rest))
}

/// The first argument that does not begin with a hyphen, and the others.
pub fn take_first_positional(args: &[String]) -> (r: (Option<String>, Vec<String>))
    ensures
        ({
            let all = texts(args@);
            let n = first_positional(all) as int;
            if n < all.len() {
                opt_text(r.0) == Some(all[n]) && texts(r.1@) == all.remove(n)
            } else {
                r.0 is None && texts(r.1@) == all
            }
        }),
{
    let ghost all = texts(args@);
    let mut i: usize = 0;
    assert(all.skip(0) =~= all);
    while i < args.len() && starts_with(args[i].as_str(), "-")
        invariant
            i <= args@.len(),
            all == texts(args@),
            first_positional(all) == i + first_positional(all.skip(i as int)),
        decreases args@.len() - i,
    {
        assert(all.skip(i as int)[0] == args@[i as int]@);
        assert(all.skip(i as int).drop_first() =~= all.skip(i + 1));
        i = i + 1;
    }
    if i < args.len() {
        assert(all.skip(i as int)[0] == args@[i as int]@);
        let mut rest = copy_args(args, 0, i);
        let mut tail = copy_args(args, i + 1, args.len());
        let ghost a = rest@;
        let ghost b = tail@;
        rest.append(&mut tail);
        assert(rest@ =~= a + b);
        assert(texts(rest@) =~= texts(a) + texts(b));
        assert(texts(rest@) =~= all.remove(i as int));
        (Some(args[i].clone()), rest)
    } else {
        let rest = copy_args(args, 0, args.len());
        assert(texts(rest@) =~= all);
        (None, rest)
    }
}

fn parse_init(args: &[String]) -> (r: Result<Command, String>)
    ensures
        parse_view(r) == init_of(texts(args@)),
{
    let mut i: usize = 0;
    while i < args.len()
        invariant
            i <= args@.len(),
            forall|j: int| 0 <= j < i ==> texts(args@)[j] == "--force"@,
        decreases args@.len() - i,
    {
        if !same(args[i].as_str(), "--force") {
            assert(texts(args@)[i as int] != "--force"@);
            return Err("usage: httplogger init [--force]".to_owned());
        }
        i = i + 1;
    }
    Ok(Command::Init { force: args.len() > 0 })
}

fn parse_proxy(args: &[String]) -> (r: Result<Command, String>)
    ensures
        parse_view(r) == proxy_of(texts(args@)),
{
    match take_flag(args, "--key", KEY_VALUE) {
        Ok((key_path, rest)) => {
            assert(texts(rest@).len() == rest@.len());
            if rest.len() > 0 {
                return Err("usage: httplogger proxy [--key <ca-key.pem>]".to_owned());
            }
            Ok(Command::Proxy { key_path })
        },
        Err(message) => Err(message),
    }
}

fn parse_launch(own: &[String], browser_args: Vec<String>) -> (r: Result<Command, String>)
    ensures
        parse_view(r) == launch_of(texts(own@), texts(browser_args@)),
{
    match take_flag(own, "--key", KEY_VALUE) {
        Ok((key_path, rest)) => {
            assert(texts(rest@).len() == rest@.len());
            let (browser, left) = take_first_positional(rest.as_slice());
            assert(texts(left@).len() == left@.len());
            if left.len() > 0 {
                let mut message = "unexpected argument(s): ".to_owned();
                message.append(joined(left.as_slice(), " ").as_str());
                message.append("\n\n");
                message.append(USAGE);
                return Err(message);
            }
            Ok(Command::Launch { key_path, browser, browser_args })
        },
        Err(message) => Err(message),
    }
}

/// What the arguments ask for, or why they are refused.
pub fn parse_command(args: &[String]) -> (r: Result<Command, String>)
    ensures
        parse_view(r) == parsed(texts(args@)),
{
    if help_target(args) {
        return Ok(Command::Help);
    }
    if args.len() == 0 {
        return Err(USAGE.to_owned());
    }
    assert(texts(args@)[0] == args@[0]@);
    let rest = copy_args(args, 1, args.len());
    assert(texts(rest@) =~= texts(args@).drop_first());
    let name = args[0].as_str();
    if same(name, "init") {
        parse_init(rest.as_slice())
    } else if same(name, "proxy") {
        parse_proxy(rest.as_slice())
    } else if same(name, "launch") {
        let (own, browser_args) = split_at_double_dash(rest.as_slice());
        parse_launch(own.as_slice(), browser_args)
    } else {
        let mut message = USAGE.to_owned();
        message.append("\n\nunknown command: ");
        message.append(name);
        Err(message)
    }
}

/// Arguments with `--` between them fall apart there again.
proof fn lemma_dashes_between(a: Seq<Seq<char>>, b: Seq<Seq<char>>)
    requires
        !a.contains("--"@),
    ensures
        before_dashes(a + seq!["--"@] + b) == a,
        behind_dashes(a + seq!["--"@] + b) == b,
{
    let all = a + seq!["--"@] + b;
    assert forall|j: int| 0 <= j < a.len() implies all[j] != "--"@ by {
        assert(a.contains(a[j]));
        assert(all[j] == a[j]);
    }
    lemma_first_of_is(all, "--"@, a.len() as int);
    assert(all.take(a.len() as int) =~= a);
    assert(all.skip(a.len() as int + 1) =~= b);
}

/// What stands behind `--` is handed to the browser as it is, and decides nothing else.
pub proof fn law_browser_args_are_forwarded(own: Seq<Seq<char>>, browser_args: Seq<Seq<char>>)
    requires
        !own.contains("--"@),
    ensures
        parsed(seq!["launch"@] + own + seq!["--"@] + browser_args) == if asks_for_help(own) {
            ParseView::Command(CommandView::Help)
        } else {
            launch_of(own, browser_args)
        },
        launch_of(own, browser_args) matches ParseView::Command(
            CommandView::Launch { browser_args: handed, .. },
        ) ==> handed == browser_args,
{
    reveal_strlit("--");
    reveal_strlit("-h");
    reveal_strlit("--help");
    reveal_strlit("launch");
    reveal_strlit("init");
    reveal_strlit("proxy");
    let args = seq!["launch"@] + own + seq!["--"@] + browser_args;
    let a = seq!["launch"@] + own;
    assert("launch"@.len() != "--"@.len());
    assert(!a.contains("--"@)) by {
        if a.contains("--"@) {
            let i = choose|i: int| 0 <= i < a.len() && a[i] == "--"@;
            if i > 0 {
                assert(own[i - 1] == "--"@);
                assert(own.contains("--"@));
            }
        }
    }
    lemma_dashes_between(a, browser_args);
    lemma_dashes_between(own, browser_args);
    assert(args.drop_first() =~= own + seq!["--"@] + browser_args);
    assert("launch"@[0] != "--help"@[0]);
    assert("launch"@.len() != "-h"@.len());
    assert(asks_for_help(a) == asks_for_help(own)) by {
        assert forall|x: Seq<char>| x != "launch"@ implies a.contains(x) == own.contains(x) by {
            if a.contains(x) {
                let i = choose|i: int| 0 <= i < a.len() && a[i] == x;
                assert(own[i - 1] == x);
            }
            if own.contains(x) {
                let i = choose|i: int| 0 <= i < own.len() && own[i] == x;
                assert(a[i + 1] == x);
            }
        }
    }
    assert(args[0] == "launch"@);
    assert("launch"@.len() != "init"@.len());
    assert("launch"@.len() != "proxy"@.len());
}

/// Without `--` nothing is handed to the browser.
pub proof fn law_no_browser_args_without_dashes(args: Seq<Seq<char>>)
    requires
        !args.contains("--"@),
    ensures
        parsed(args) matches ParseView::Command(CommandView::Launch { browser_args, .. })
            ==> browser_args.len() == 0,
{
    let rest = args.drop_first();
    if args.len() > 0 {
        lemma_first_of(rest, "--"@);
        if first_of(rest, "--"@) < rest.len() {
            assert(args[first_of(rest, "--"@) as int + 1] == "--"@);
            assert(args.contains("--"@));
        }
    }
}

/// An option that stands once is taken out with the value behind it, wherever it stands; the other
/// arguments stay in their order. One that does not stand there leaves them all.
pub proof fn law_option_is_taken_out(
    front: Seq<Seq<char>>,
    flag: Seq<char>,
    value: Seq<char>,
    back: Seq<Seq<char>>,
)
    requires
        !front.contains(flag),
        !back.contains(flag),
    ensures
        flag_taken(front, flag, None) == FlagView::Taken(None, front),
        flag_taken(front + seq![flag, value] + back, flag, None) == FlagView::Taken(
            Some(value),
            front + back,
        ),
{
    lemma_other_arguments_stay(front, seq![], flag, None);
    assert(front + Seq::<Seq<char>>::empty() =~= front);
    let tail = seq![flag, value] + back;
    assert(front + seq![flag, value] + back =~= front + tail);
    lemma_other_arguments_stay(front, tail, flag, None);
    assert(tail[0] == flag && tail[1] == value);
    assert(tail.skip(2) =~= back);
    lemma_other_arguments_stay(back, seq![], flag, Some(value));
    assert(back + Seq::<Seq<char>>::empty() =~= back);
}

/// An option without a value behind it, and one that stands twice, are refused.
pub proof fn law_option_needs_one_value(
    front: Seq<Seq<char>>,
    flag: Seq<char>,
    value: Seq<char>,
    middle: Seq<Seq<char>>,
    back: Seq<Seq<char>>,
)
    requires
        !front.contains(flag),
        !middle.contains(flag),
        back.len() > 0,
    ensures
        flag_taken(front.push(flag), flag, None) is NoValue,
        flag_taken(front + seq![flag, value] + middle + seq![flag] + back, flag, None) is Twice,
        flag_taken(front + seq![flag, value] + middle + seq![flag], flag, None) is NoValue,
{
    assert(front.push(flag) =~= front + seq![flag]);
    lemma_other_arguments_stay(front, seq![flag], flag, None);
    let second = seq![flag] + back;
    let tail = seq![flag, value] + middle + second;
    assert(front + seq![flag, value] + middle + seq![flag] + back =~= front + tail);
    lemma_other_arguments_stay(front, tail, flag, None);
    assert(tail[0] == flag && tail[1] == value);
    assert(tail.skip(2) =~= middle + second);
    lemma_other_arguments_stay(middle, second, flag, Some(value));
    assert(second[0] == flag);
    let last = seq![flag, value] + middle + seq![flag];
    assert(front + seq![flag, value] + middle + seq![flag] =~= front + last);
    lemma_other_arguments_stay(front, last, flag, None);
    assert(last[0] == flag && last[1] == value);
    assert(last.skip(2) =~= middle + seq![flag]);
    lemma_other_arguments_stay(middle, seq![flag], flag, Some(value));
}

proof fn lemma_other_arguments_stay(
    front: Seq<Seq<char>>,
    tail: Seq<Seq<char>>,
    flag: Seq<char>,
    value: Option<Seq<char>>,
)
    requires
        !front.contains(flag),
    ensures
        flag_taken(front + tail, flag, value) == match flag_taken(tail, flag, value) {
            FlagView::Taken(v, rest) => FlagView::Taken(v, front + rest),
            other => other,
        },
    decreases front.len(),
{
    if front.len() == 0 {
        assert(front + tail =~= tail);
        if let FlagView::Taken(v, rest) = flag_taken(tail, flag, value) {
            assert(front + rest =~= rest);
        }
    } else {
        let less = front.skip(1);
        assert(!less.contains(flag)) by {
            if less.contains(flag) {
                let i = choose|i: int| 0 <= i < less.len() && less[i] == flag;
                assert(front[i + 1] == flag);
            }
        }
        assert(front.contains(front[0]));
        assert((front + tail).skip(1) =~= less + tail);
        lemma_other_arguments_stay(less, tail, flag, value);
        if let FlagView::Taken(v, rest) = flag_taken(tail, flag, value) {
            assert(seq![front[0]] + (less + rest) =~= front + rest);
        }
    }
}

/// Help is asked for by `--help` or `-h` before the first `--`, and by nothing else.
pub proof fn law_help_stands_before_dashes(own: Seq<Seq<char>>, behind: Seq<Seq<char>>)
    requires
        !own.contains("--"@),
    ensures
        parsed(own) == ParseView::Command(CommandView::Help) <==> own.contains("--help"@)
            || own.contains("-h"@),
        parsed(own + seq!["--"@] + behind) == ParseView::Command(CommandView::Help)
            <==> own.contains("--help"@) || own.contains("-h"@),
{
    let all = own + seq!["--"@] + behind;
    lemma_first_of(own, "--"@);
    assert(first_of(own, "--"@) == own.len()) by {
        if first_of(own, "--"@) < own.len() {
            assert(own.contains(own[first_of(own, "--"@) as int]));
        }
    }
    assert(own.take(own.len() as int) =~= own);
    assert forall|j: int| 0 <= j < own.len() implies all[j] != "--"@ by {
        assert(all[j] == own[j]);
        assert(own.contains(own[j]));
    }
    lemma_first_of_is(all, "--"@, own.len() as int);
    assert(all.take(own.len() as int) =~= own);
    reveal_strlit("init");
    reveal_strlit("proxy");
    reveal_strlit("launch");
}

/// Which command is named decides; each has the arguments behind it.
pub proof fn law_first_argument_is_the_command(args: Seq<Seq<char>>, word: Seq<char>)
    requires
        !word.contains('-'),
        !args.contains("--"@),
        !args.contains("--help"@),
        !args.contains("-h"@),
    ensures
        parsed(seq![]) is Refused,
        word == "init"@ ==> parsed(seq![word] + args) == init_of(args),
        word == "proxy"@ ==> parsed(seq![word] + args) == proxy_of(args),
        word == "launch"@ ==> parsed(seq![word] + args) == launch_of(args, seq![]),
        word != "init"@ && word != "proxy"@ && word != "launch"@ ==> parsed(seq![word] + args)
            is Refused && finishes_with(parsed(seq![word] + args)->Refused_0, word),
{
    reveal_strlit("--");
    reveal_strlit("--help");
    reveal_strlit("-h");
    reveal_strlit("init");
    reveal_strlit("proxy");
    reveal_strlit("launch");
    let all = seq![word] + args;
    assert(word != "--"@) by {
        if word == "--"@ {
            assert(word[0] == '-');
        }
    }
    assert(word != "--help"@) by {
        if word == "--help"@ {
            assert(word[0] == '-');
        }
    }
    assert(word != "-h"@) by {
        if word == "-h"@ {
            assert(word[0] == '-');
        }
    }
    assert forall|i: int| 0 <= i < all.len() implies all[i] != "--"@ && all[i] != "--help"@
        && all[i] != "-h"@ by {
        if i > 0 {
            assert(args.contains(args[i - 1]));
        }
    }
    let none = Seq::<Seq<char>>::empty();
    assert(none.take(0) =~= none);
    assert(before_dashes(none) =~= none);
    lemma_first_of(all, "--"@);
    assert(before_dashes(all) =~= all);
    assert(all.drop_first() =~= args);
    lemma_first_of(args, "--"@);
    if first_of(args, "--"@) < args.len() {
        assert(args.contains(args[first_of(args, "--"@) as int]));
    }
    assert(before_dashes(args) =~= args);
    let text = USAGE@ + "\n\nunknown command: "@ + word;
    assert(text.skip(text.len() - word.len()) =~= word);
}

/// `init` takes `--force`, any number of times, and nothing else.
pub proof fn law_init_takes_force(args: Seq<Seq<char>>)
    ensures
        init_of(seq![]) == ParseView::Command(CommandView::Init { force: false }),
        args.len() > 0 && (forall|i: int| 0 <= i < args.len() ==> args[i] == "--force"@)
            ==> init_of(args) == ParseView::Command(CommandView::Init { force: true }),
        forall|i: int| 0 <= i < args.len() && #[trigger] args[i] != "--force"@ ==> init_of(args)
            is Refused,
{
}

/// `proxy` takes `--key` with a path, and nothing else.
pub proof fn law_proxy_takes_a_key(path: Seq<char>, front: Seq<Seq<char>>, back: Seq<Seq<char>>)
    requires
        !front.contains("--key"@),
        !back.contains("--key"@),
        front.len() + back.len() > 0,
    ensures
        proxy_of(seq![]) == ParseView::Command(CommandView::Proxy { key_path: None }),
        proxy_of(seq!["--key"@, path]) == ParseView::Command(
            CommandView::Proxy { key_path: Some(path) },
        ),
        proxy_of(front + seq!["--key"@, path] + back) is Refused,
        proxy_of(front + back) is Refused,
        proxy_of(seq!["--key"@]) is Refused,
        proxy_of(seq!["--key"@, path, "--key"@, path]) is Refused,
{
    let none = Seq::<Seq<char>>::empty();
    let key = "--key"@;
    law_option_is_taken_out(none, key, path, none);
    assert(none + seq![key, path] + none =~= seq![key, path]);
    assert(none + none =~= none);
    law_option_is_taken_out(front, key, path, back);
    let both = front + back;
    assert(!both.contains(key)) by {
        if both.contains(key) {
            let i = choose|i: int| 0 <= i < both.len() && both[i] == key;
            if i < front.len() {
                assert(front[i] == key);
            } else {
                assert(back[i - front.len()] == key);
            }
        }
    }
    law_option_is_taken_out(both, key, path, none);
    law_option_needs_one_value(none, key, path, none, seq![path]);
    assert(none.push(key) =~= seq![key]);
    assert(none + seq![key, path] + none + seq![key] + seq![path] =~= seq![key, path, key, path]);
}

/// `launch` takes `--key` with a path before or behind the browser, or alone, and hands on what it
/// was given for the browser.
pub proof fn law_launch_takes_key_and_browser(
    path: Seq<char>,
    browser: Seq<char>,
    browser_args: Seq<Seq<char>>,
)
    requires
        !begins_with(browser, "-"@),
    ensures
        ({
            let key = "--key"@;
            let with_both = ParseView::Command(
                CommandView::Launch { key_path: Some(path), browser: Some(browser), browser_args },
            );
            &&& launch_of(seq![], browser_args) == ParseView::Command(
                CommandView::Launch { key_path: None, browser: None, browser_args },
            )
            &&& launch_of(seq![browser], browser_args) == ParseView::Command(
                CommandView::Launch { key_path: None, browser: Some(browser), browser_args },
            )
            &&& launch_of(seq![key, path], browser_args) == ParseView::Command(
                CommandView::Launch { key_path: Some(path), browser: None, browser_args },
            )
            &&& launch_of(seq![key, path, browser], browser_args) == with_both
            &&& launch_of(seq![browser, key, path], browser_args) == with_both
        }),
{
    reveal_strlit("--key");
    reveal_strlit("-");
    let none = Seq::<Seq<char>>::empty();
    let key = "--key"@;
    assert(browser != key) by {
        if browser == key {
            assert(browser.take(1) =~= "-"@);
        }
    }
    let one = seq![browser];
    assert(!one.contains(key));
    law_option_is_taken_out(none, key, path, none);
    law_option_is_taken_out(one, key, path, none);
    law_option_is_taken_out(none, key, path, one);
    assert(none + seq![key, path] + none =~= seq![key, path]);
    assert(one + seq![key, path] + none =~= seq![browser, key, path]);
    assert(none + seq![key, path] + one =~= seq![key, path, browser]);
    assert(none + none =~= none);
    assert(one + none =~= one);
    assert(none + one =~= one);
    assert(first_positional(one) == 0);
}

/// `launch` takes one browser: more arguments than that, and one that begins with a hyphen, are
/// refused.
pub proof fn law_launch_refuses_the_rest(own: Seq<Seq<char>>, browser_args: Seq<Seq<char>>)
    requires
        !own.contains("--key"@),
        own.len() > 1 || own.len() == 1 && begins_with(own[0], "-"@),
    ensures
        launch_of(own, browser_args) is Refused,
{
    let none = Seq::<Seq<char>>::empty();
    law_option_is_taken_out(own, "--key"@, seq![], none);
    if own.len() == 1 {
        reveal_with_fuel(first_positional, 2);
        assert(first_positional(own) == 1);
    }
}

/// A refusal says what is wrong: the option and what it needs, or that it stands twice, or which
/// arguments are left over.
pub proof fn law_refusals_name_the_reason(path: Seq<char>, other: Seq<char>)
    requires
        other != "--key"@,
    ensures
        proxy_of(seq!["--key"@]) == ParseView::Refused(
            "--key"@ + " requires "@ + "a path to the CA private key PEM file"@,
        ),
        launch_of(seq!["--key"@], seq![]) == proxy_of(seq!["--key"@]),
        proxy_of(seq!["--key"@, path, "--key"@, path]) == ParseView::Refused(
            "--key"@ + " may only be specified once"@,
        ),
        launch_of(seq!["--key"@, path, "--key"@, path], seq![]) == proxy_of(
            seq!["--key"@, path, "--key"@, path],
        ),
        proxy_of(seq![other]) == ParseView::Refused("usage: httplogger proxy [--key <ca-key.pem>]"@),
        begins_with(other, "-"@) ==> launch_of(seq![other], seq![]) == ParseView::Refused(
            "unexpected argument(s): "@ + other + "\n\n"@ + USAGE@,
        ),
{
    let none = Seq::<Seq<char>>::empty();
    let key = "--key"@;
    law_option_needs_one_value(none, key, path, none, seq![path]);
    assert(none.push(key) =~= seq![key]);
    assert(none + seq![key, path] + none + seq![key] + seq![path] =~= seq![key, path, key, path]);
    let one = seq![other];
    assert(!one.contains(key)) by {
        if one.contains(key) {
            let i = choose|i: int| 0 <= i < one.len() && one[i] == key;
            assert(one[i] == other);
        }
    }
    law_option_is_taken_out(one, key, path, none);
    if begins_with(other, "-"@) {
        reveal_with_fuel(first_positional, 2);
        assert(first_positional(one) == 1);
        reveal_with_fuel(join, 2);
        assert(one.drop_last() =~= none);
        assert(join(one, " "@) =~= other);
    }
}

} // verus!
