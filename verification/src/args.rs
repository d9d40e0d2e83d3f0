//! The command line: `--listen URL`, `--listen=URL`, and any number of
//! `-c KEY=VALUE` or `--config KEY=VALUE`.
use vstd::prelude::*;

use crate::text::{same_text, strip_prefix};
use crate::transport::{McpListenTransport, McpListenTransportParseError};
#[allow(unused_imports)]
use crate::transport::{
    error_text, only_the_default_url_is_stdio, result_view, transport, TransportErrorModel,
    TransportModel,
};

verus! {

/// A command line argument as the operating system hands it over.
#[derive(Clone, Debug, PartialEq, Eq)]
pub enum OsArg {
    /// An argument that is valid UTF-8.
    Text(String),
    /// One that is not, with its invalid parts replaced for display.
    NotUtf8 { lossy: String },
}

/// Settings to put over those of the configuration, as they were given.
#[derive(Clone, Debug, PartialEq, Eq)]
pub struct CliConfigOverrides {
    pub raw_overrides: Vec<String>,
}

/// What the command line asks for.
#[derive(Clone, Debug, PartialEq, Eq)]
pub struct McpServerArgs {
    pub listen: McpListenTransport,
    pub config_overrides: CliConfigOverrides,
}

/// Why a command line was refused.
#[derive(Clone, Debug, PartialEq, Eq)]
pub enum McpServerArgsError {
    /// An argument is not valid UTF-8.
    NotUtf8 { lossy: String },
    /// `--listen` stands last.
    MissingListenValue,
    /// `-c` or `--config` stands last.
    MissingConfigValue,
    /// An argument that is none of the options.
    UnexpectedArgument(String),
    /// The listen URL was refused.
    Listen(McpListenTransportParseError),
}

/// An argument as a mathematical value.
pub enum ArgModel {
    Text(Seq<char>),
    NotUtf8(Seq<char>),
}

/// One option with its value.
pub enum Setting {
    Listen(Seq<char>),
    Config(Seq<char>),
}

/// What the command line asks for, as a mathematical value.
pub struct ArgsModel {
    pub listen: TransportModel,
    pub overrides: Seq<Seq<char>>,
}

/// A refusal as a mathematical value.
pub enum ArgsErrorModel {
    NotUtf8(Seq<char>),
    MissingListenValue,
    MissingConfigValue,
    UnexpectedArgument(Seq<char>),
    Listen(TransportErrorModel),
}

impl View for OsArg {
    type V = ArgModel;

    open spec fn view(&self) -> ArgModel {
        match self {
            OsArg::Text(text) => ArgModel::Text(text@),
            OsArg::NotUtf8 { lossy } => ArgModel::NotUtf8(lossy@),
        }
    }
}

impl View for McpServerArgs {
    type V = ArgsModel;

    open spec fn view(&self) -> ArgsModel {
        ArgsModel {
            listen: self.listen@,
            overrides: texts(self.config_overrides.raw_overrides@),
        }
    }
}

impl View for McpServerArgsError {
    type V = ArgsErrorModel;

    open spec fn view(&self) -> ArgsErrorModel {
        match self {
            McpServerArgsError::NotUtf8 { lossy } => ArgsErrorModel::NotUtf8(lossy@),
            McpServerArgsError::MissingListenValue => ArgsErrorModel::MissingListenValue,
            McpServerArgsError::MissingConfigValue => ArgsErrorModel::MissingConfigValue,
            McpServerArgsError::UnexpectedArgument(arg) => {
                ArgsErrorModel::UnexpectedArgument(arg@)
            },
            McpServerArgsError::Listen(error) => ArgsErrorModel::Listen(error@),
        }
    }
}

/// Strings taken by their views.
pub open spec fn texts(v: Seq<String>) -> Seq<Seq<char>> {
    v.map_values(|s: String| s@)
}

/// Arguments taken by their views.
pub open spec fn arg_models(v: Seq<OsArg>) -> Seq<ArgModel> {
    v.map_values(|a: OsArg| a@)
}

/// A result with both sides taken by their views.
pub open spec fn args_view(r: Result<McpServerArgs, McpServerArgsError>) -> Result<
    ArgsModel,
    ArgsErrorModel,
> {
    match r {
        Ok(args) => Ok(args@),
        Err(error) => Err(error@),
    }
}

/// Settings before others that may have been refused.
pub open spec fn after(
    first: Seq<Setting>,
    rest: Result<Seq<Setting>, ArgsErrorModel>,
) -> Result<Seq<Setting>, ArgsErrorModel> {
    match rest {
        Ok(more) => Ok(first + more),
        Err(error) => Err(error),
    }
}

/// The options on a command line, the program's name left out. The first
/// argument that is no option, or an option's missing or undecodable value,
/// refuses it.
pub open spec fn settings(args: Seq<ArgModel>) -> Result<Seq<Setting>, ArgsErrorModel>
    decreases args.len(),
{
    if args.len() == 0 {
        Ok(seq![])
    } else {
        match args[0] {
            ArgModel::NotUtf8(lossy) => Err(ArgsErrorModel::NotUtf8(lossy)),
            ArgModel::Text(text) => if "--listen="@.is_prefix_of(text) {
                after(
                    seq![Setting::Listen(text.skip("--listen="@.len() as int))],
                    settings(args.skip(1)),
                )
            } else if text == "--listen"@ || is_config_flag(text) {
                if args.len() == 1 {
                    Err(
                        if text == "--listen"@ {
                            ArgsErrorModel::MissingListenValue
                        } else {
                            ArgsErrorModel::MissingConfigValue
                        },
                    )
                } else {
                    match args[1] {
                        ArgModel::NotUtf8(lossy) => Err(ArgsErrorModel::NotUtf8(lossy)),
                        ArgModel::Text(value) => after(
                            seq![
                                if text == "--listen"@ {
                                    Setting::Listen(value)
                                } else {
                                    Setting::Config(value)
                                },
                            ],
                            settings(args.skip(2)),
                        ),
                    }
                }
            } else {
                Err(ArgsErrorModel::UnexpectedArgument(text))
            },
        }
    }
}

/// The two spellings of the configuration option.
pub open spec fn is_config_flag(text: Seq<char>) -> bool {
    text == "-c"@ || text == "--config"@
}

/// The listen URL in force: the one given last, or the default.
pub open spec fn listen_url(s: Seq<Setting>) -> Seq<char>
    decreases s.len(),
{
    if s.len() == 0 {
        McpListenTransport::DEFAULT_LISTEN_URL@
    } else {
        match s.last() {
            Setting::Listen(url) => url,
            Setting::Config(_) => listen_url(s.drop_last()),
        }
    }
}

/// The configuration values, in the order in which they were given.
pub open spec fn overrides(s: Seq<Setting>) -> Seq<Seq<char>>
    decreases s.len(),
{
    if s.len() == 0 {
        seq![]
    } else {
        match s.last() {
            Setting::Listen(_) => overrides(s.drop_last()),
            Setting::Config(value) => overrides(s.drop_last()).push(value),
        }
    }
}

/// What options ask for.
pub open spec fn resolve(s: Seq<Setting>) -> Result<ArgsModel, ArgsErrorModel> {
    match transport(listen_url(s)) {
        Ok(listen) => Ok(ArgsModel { listen, overrides: overrides(s) }),
        Err(error) => Err(ArgsErrorModel::Listen(error)),
    }
}

/// What a command line asks for. Its first argument is the program's name and
/// is not looked at.
pub open spec fn command_line(args: Seq<ArgModel>) -> Result<ArgsModel, ArgsErrorModel> {
    match settings(args.skip(if args.len() == 0 { 0 } else { 1 })) {
        Ok(s) => resolve(s),
        Err(error) => Err(error),
    }
}

/// What a refusal says to the user.
pub open spec fn args_error_text(error: ArgsErrorModel) -> Seq<char> {
    match error {
        ArgsErrorModel::NotUtf8(lossy) => "argument `"@ + lossy + "` is not valid UTF-8"@,
        ArgsErrorModel::MissingListenValue => "missing value for `--listen`"@,
        ArgsErrorModel::MissingConfigValue => "missing value for `-c` / `--config`"@,
        ArgsErrorModel::UnexpectedArgument(arg) => "unexpected argument `"@ + arg + "`"@,
        ArgsErrorModel::Listen(error) => error_text(error),
    }
}

/// No arguments, with a program name or without: the standard streams, and
/// nothing overridden.
pub proof fn bare_command_line_is_stdio(program: ArgModel)
    ensures
        command_line(seq![]) == command_line(seq![program]),
        command_line(seq![program]) == Ok::<ArgsModel, ArgsErrorModel>(
            ArgsModel { listen: TransportModel::Stdio, overrides: seq![] },
        ),
{
    assert(seq![program].skip(1) =~= seq![]);
    assert(Seq::<ArgModel>::empty().skip(0) =~= seq![]);
    only_the_default_url_is_stdio(McpListenTransport::DEFAULT_LISTEN_URL@);
}

/// The program's name plays no part, whatever it is.
pub proof fn program_name_is_not_looked_at(one: ArgModel, other: ArgModel, rest: Seq<ArgModel>)
    ensures
        command_line(seq![one] + rest) == command_line(seq![other] + rest),
{
    assert((seq![one] + rest).skip(1) =~= rest);
    assert((seq![other] + rest).skip(1) =~= rest);
}

/// A command line that was accepted so far is read on from where it ended.
pub proof fn accepted_options_stand(first: Seq<ArgModel>, rest: Seq<ArgModel>)
    requires
        settings(first) is Ok,
    ensures
        settings(first + rest) == after(settings(first)->Ok_0, settings(rest)),
    decreases first.len(),
{
    let all = first + rest;
    if first.len() == 0 {
        assert(all =~= rest);
        assert(settings(first)->Ok_0 =~= seq![]);
        if let Ok(more) = settings(rest) {
            assert(seq![] + more =~= more);
        }
    } else {
        assert(all[0] == first[0]);
        let text = first[0]->Text_0;
        let n: int = if "--listen="@.is_prefix_of(text) {
            1
        } else {
            2
        };
        if n == 2 {
            assert(all[1] == first[1]);
        }
        assert(all.skip(n) =~= first.skip(n) + rest);
        accepted_options_stand(first.skip(n), rest);
        let head = settings(first)->Ok_0;
        let tail = settings(first.skip(n))->Ok_0;
        if let Ok(more) = settings(rest) {
            assert(head + more =~= seq![head[0]] + (tail + more));
            assert(head =~= seq![head[0]] + tail);
        }
    }
}

/// `--listen URL` and `--listen=URL` ask for the same, wherever they stand.
pub proof fn listen_spellings_agree(
    program: ArgModel,
    before: Seq<ArgModel>,
    url: Seq<char>,
    rest: Seq<ArgModel>,
)
    requires
        settings(before) is Ok,
    ensures
        command_line(
            seq![program] + before + seq![ArgModel::Text("--listen"@), ArgModel::Text(url)] + rest,
        ) == command_line(
            seq![program] + before + seq![ArgModel::Text("--listen="@ + url)] + rest,
        ),
{
    let two = seq![ArgModel::Text("--listen"@), ArgModel::Text(url)] + rest;
    let one = seq![ArgModel::Text("--listen="@ + url)] + rest;
    lemma_flags_are_distinct();
    assert(two.skip(2) =~= rest);
    assert(one.skip(1) =~= rest);
    assert(("--listen="@ + url).subrange(0, "--listen="@.len() as int) =~= "--listen="@);
    assert(("--listen="@ + url).skip("--listen="@.len() as int) =~= url);
    assert(settings(one) == settings(two));
    accepted_options_stand(before, two);
    accepted_options_stand(before, one);
    assert((seq![program] + before + seq![ArgModel::Text("--listen"@), ArgModel::Text(url)]
        + rest).skip(1) =~= before + two);
    assert((seq![program] + before + seq![ArgModel::Text("--listen="@ + url)] + rest).skip(1)
        =~= before + one);
}

/// `-c VALUE` and `--config VALUE` ask for the same, wherever they stand.
pub proof fn config_spellings_agree(
    program: ArgModel,
    before: Seq<ArgModel>,
    value: Seq<char>,
    rest: Seq<ArgModel>,
)
    requires
        settings(before) is Ok,
    ensures
        command_line(
            seq![program] + before + seq![ArgModel::Text("-c"@), ArgModel::Text(value)] + rest,
        ) == command_line(
            seq![program] + before + seq![ArgModel::Text("--config"@), ArgModel::Text(value)]
                + rest,
        ),
{
    let short = seq![ArgModel::Text("-c"@), ArgModel::Text(value)] + rest;
    let long = seq![ArgModel::Text("--config"@), ArgModel::Text(value)] + rest;
    lemma_flags_are_distinct();
    assert(short.skip(2) =~= rest);
    assert(long.skip(2) =~= rest);
    assert(settings(short) == settings(long));
    accepted_options_stand(before, short);
    accepted_options_stand(before, long);
    assert((seq![program] + before + seq![ArgModel::Text("-c"@), ArgModel::Text(value)]
        + rest).skip(1) =~= before + short);
    assert((seq![program] + before + seq![ArgModel::Text("--config"@), ArgModel::Text(value)]
        + rest).skip(1) =~= before + long);
}

/// The last `--listen` is the one in force, and leaves the overrides as they
/// were.
pub proof fn last_listen_wins(program: ArgModel, before: Seq<ArgModel>, url: Seq<char>)
    requires
        settings(before) is Ok,
    ensures
        command_line(
            seq![program] + before + seq![ArgModel::Text("--listen"@), ArgModel::Text(url)],
        ) == match transport(url) {
            Ok(listen) => Ok::<ArgsModel, ArgsErrorModel>(
                ArgsModel { listen, overrides: overrides(settings(before)->Ok_0) },
            ),
            Err(error) => Err(ArgsErrorModel::Listen(error)),
        },
{
    let last = seq![ArgModel::Text("--listen"@), ArgModel::Text(url)];
    lemma_one_option("--listen"@, url);
    accepted_options_stand(before, last);
    let s = settings(before)->Ok_0;
    assert((s + seq![Setting::Listen(url)]).drop_last() =~= s);
    assert((seq![program] + before + last).skip(1) =~= before + last);
}

/// One more `-c` adds its value behind the other overrides and leaves the
/// listen URL as it was.
pub proof fn overrides_keep_their_order(program: ArgModel, before: Seq<ArgModel>, value: Seq<char>)
    requires
        settings(before) is Ok,
    ensures
        command_line(
            seq![program] + before + seq![ArgModel::Text("-c"@), ArgModel::Text(value)],
        ) == match command_line(seq![program] + before) {
            Ok(args) => Ok::<ArgsModel, ArgsErrorModel>(
                ArgsModel { listen: args.listen, overrides: args.overrides.push(value) },
            ),
            Err(error) => Err(error),
        },
{
    let last = seq![ArgModel::Text("-c"@), ArgModel::Text(value)];
    lemma_flags_are_distinct();
    lemma_one_option("-c"@, value);
    accepted_options_stand(before, last);
    let s = settings(before)->Ok_0;
    assert((s + seq![Setting::Config(value)]).drop_last() =~= s);
    assert((seq![program] + before).skip(1) =~= before);
    assert((seq![program] + before + last).skip(1) =~= before + last);
}

/// No option begins another or is one.
pub proof fn lemma_flags_are_distinct()
    ensures
        "--listen"@ != "-c"@,
        "--listen"@ != "--config"@,
        !"--listen="@.is_prefix_of("--listen"@),
        !"--listen="@.is_prefix_of("-c"@),
        !"--listen="@.is_prefix_of("--config"@),
{
    reveal_strlit("--listen=");
    reveal_strlit("--listen");
    reveal_strlit("-c");
    reveal_strlit("--config");
    assert("--listen"@.len() != "-c"@.len());
    assert("--listen"@[2] == 'l');
    assert("--config"@[2] == 'c');
}

proof fn lemma_one_option(flag: Seq<char>, value: Seq<char>)
    requires
        flag == "--listen"@ || is_config_flag(flag),
    ensures
        settings(seq![ArgModel::Text(flag), ArgModel::Text(value)]) == Ok::<
            Seq<Setting>,
            ArgsErrorModel,
        >(
            seq![
                if flag == "--listen"@ {
                    Setting::Listen(value)
                } else {
                    Setting::Config(value)
                },
            ],
        ),
{
    let args = seq![ArgModel::Text(flag), ArgModel::Text(value)];
    lemma_flags_are_distinct();
    assert(args.skip(2) =~= seq![]);
    let one = seq![
        if flag == "--listen"@ {
            Setting::Listen(value)
        } else {
            Setting::Config(value)
        },
    ];
    assert(one + Seq::<Setting>::empty() =~= one);
    assert(settings(args.skip(2)) == Ok::<Seq<Setting>, ArgsErrorModel>(seq![]));
}

impl McpServerArgsError {
    /// What to tell the user.
    pub fn to_string(&self) -> (text: String)
        ensures
            text@ == args_error_text(self@),
    {
        match self {
            McpServerArgsError::NotUtf8 { lossy } => {
                "argument `".to_owned().concat(lossy.as_str()).concat("` is not valid UTF-8")
            },
            McpServerArgsError::MissingListenValue => "missing value for `--listen`".to_owned(),
            McpServerArgsError::MissingConfigValue => {
                "missing value for `-c` / `--config`".to_owned()
            },
            McpServerArgsError::UnexpectedArgument(arg) => {
                "unexpected argument `".to_owned().concat(arg.as_str()).concat("`")
            },
            McpServerArgsError::Listen(error) => error.to_string(),
        }
    }
}

/// The text of an argument.
pub fn os_string_to_string(value: &OsArg) -> (r: Result<String, McpServerArgsError>)
    ensures
        match value@ {
            ArgModel::Text(text) => r is Ok && r->Ok_0@ == text,
            ArgModel::NotUtf8(lossy) => r is Err && r->Err_0@ == ArgsErrorModel::NotUtf8(lossy),
        },
{
    match value {
        OsArg::Text(text) => Ok(text.clone()),
        OsArg::NotUtf8 { lossy } => Err(McpServerArgsError::NotUtf8 { lossy: lossy.clone() }),
    }
}

impl McpServerArgs {
    /// Reads a command line, the program's name first.
    pub fn parse_from(args: &Vec<OsArg>) -> (r: Result<Self, McpServerArgsError>)
        ensures
            args_view(r) == command_line(arg_models(args@)),
    {
        let n: usize = args.len();
        let mut i: usize = if n == 0 {
            0
        } else {
            1
        };
        let ghost start: int = i as int;
        let ghost all = arg_models(args@);
        let ghost rest = all.skip(start);
        let ghost mut done: Seq<Setting> = seq![];
        let mut url = McpListenTransport::DEFAULT_LISTEN_URL.to_owned();
        let mut raw_overrides: Vec<String> = Vec::new();
        proof {
            assert(texts(raw_overrides@) =~= overrides(done));
            if let Ok(more) = settings(rest) {
                assert(done + more =~= more);
            }
        }
        while i < n
            invariant
                start <= i <= n,
                n == args@.len(),
                all == arg_models(args@),
                all.len() == n,
                start == if n == 0 { 0int } else { 1 },
                rest == all.skip(start),
                settings(rest) == after(done, settings(all.skip(i as int))),
                url@ == listen_url(done),
                texts(raw_overrides@) == overrides(done),
            decreases n - i,
        {
            let ghost here = all.skip(i as int);
            let ghost before = done;
            proof {
                assert(here[0] == args@[i as int]@);
                assert(here.skip(1) =~= all.skip(i + 1));
                if i + 1 < n {
                    assert(here[1] == args@[i + 1]@);
                    assert(here.skip(2) =~= all.skip(i + 2));
                }
                lemma_flags_are_distinct();
            }
            let arg = match os_string_to_string(&args[i]) {
                Ok(arg) => arg,
                Err(error) => return Err(error),
            };
            if let Some(value) = strip_prefix(arg.as_str(), "--listen=") {
                url = value.to_owned();
                i += 1;
                proof {
                    let one = Setting::Listen(value@);
                    done = done.push(one);
                    lemma_setting_read(before, one, settings(here.skip(1)));
                }
                continue ;
            }
            if same_text(arg.as_str(), "--listen") {
                if i + 1 >= n {
                    return Err(McpServerArgsError::MissingListenValue);
                }
                let value = match os_string_to_string(&args[i + 1]) {
                    Ok(value) => value,
                    Err(error) => return Err(error),
                };
                proof {
                    let one = Setting::Listen(value@);
                    done = done.push(one);
                    lemma_setting_read(before, one, settings(here.skip(2)));
                }
                url = value;
                i += 2;
                continue ;
            }
            if same_text(arg.as_str(), "-c") || same_text(arg.as_str(), "--config") {
                if i + 1 >= n {
                    return Err(McpServerArgsError::MissingConfigValue);
                }
                let value = match os_string_to_string(&args[i + 1]) {
                    Ok(value) => value,
                    Err(error) => return Err(error),
                };
                let ghost kept = raw_overrides@;
                proof {
                    let one = Setting::Config(value@);
                    done = done.push(one);
                    lemma_setting_read(before, one, settings(here.skip(2)));
                    assert(texts(kept.push(value)) =~= texts(kept).push(value@));
                }
                raw_overrides.push(value);
                i += 2;
                continue ;
            }
            return Err(McpServerArgsError::UnexpectedArgument(arg));
        }
        proof {
            assert(all.skip(n as int) =~= seq![]);
            assert(done + Seq::<Setting>::empty() =~= done);
        }
        match McpListenTransport::from_listen_url(url.as_str()) {
            Ok(listen) => Ok(
                McpServerArgs { listen, config_overrides: CliConfigOverrides { raw_overrides } },
            ),
            Err(error) => Err(McpServerArgsError::Listen(error)),
        }
    }
}

proof fn lemma_setting_read(
    done: Seq<Setting>,
    one: Setting,
    rest: Result<Seq<Setting>, ArgsErrorModel>,
)
    ensures
        after(done, after(seq![one], rest)) == after(done.push(one), rest),
        done.push(one).drop_last() == done,
        done.push(one).last() == one,
{
    assert(done.push(one).drop_last() =~= done);
    if let Ok(more) = rest {
        assert(done + (seq![one] + more) =~= done.push(one) + more);
    }
}

} // verus!
