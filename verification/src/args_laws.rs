//! Which command lines are accepted, what each asks for, and why each of the
//! others is refused.
use vstd::prelude::*;

#[allow(unused_imports)]
use crate::args::{
    after, arg_models, args_error_text, args_view, command_line, lemma_flags_are_distinct,
    listen_url, overrides, resolve, settings, ArgModel, ArgsErrorModel, ArgsModel, McpServerArgs,
    McpServerArgsError, OsArg, Setting,
};
#[allow(unused_imports)]
use crate::transport::{error_text, transport, TransportErrorModel};

verus! {

/// The words of one option. Each has two spellings.
pub open spec fn words(setting: Setting, long: bool) -> Seq<ArgModel> {
    match setting {
        Setting::Listen(url) => if long {
            seq![ArgModel::Text("--listen="@ + url)]
        } else {
            seq![ArgModel::Text("--listen"@), ArgModel::Text(url)]
        },
        Setting::Config(value) => if long {
            seq![ArgModel::Text("--config"@), ArgModel::Text(value)]
        } else {
            seq![ArgModel::Text("-c"@), ArgModel::Text(value)]
        },
    }
}

/// The words of options one after the other.
pub open spec fn spelled(options: Seq<(Setting, bool)>) -> Seq<ArgModel>
    decreases options.len(),
{
    if options.len() == 0 {
        seq![]
    } else {
        words(options[0].0, options[0].1) + spelled(options.skip(1))
    }
}

/// Options without their spelling.
pub open spec fn asked(options: Seq<(Setting, bool)>) -> Seq<Setting> {
    options.map_values(|o: (Setting, bool)| o.0)
}

proof fn lemma_words(setting: Setting, long: bool, rest: Seq<ArgModel>)
    ensures
        settings(words(setting, long) + rest) == after(seq![setting], settings(rest)),
{
    let args = words(setting, long) + rest;
    lemma_flags_are_distinct();
    match setting {
        Setting::Listen(url) => {
            if long {
                let text = "--listen="@ + url;
                assert(args[0] == ArgModel::Text(text));
                assert(text.subrange(0, "--listen="@.len() as int) =~= "--listen="@);
                assert(text.skip("--listen="@.len() as int) =~= url);
                assert(args.skip(1) =~= rest);
            } else {
                assert(args[0] == ArgModel::Text("--listen"@));
                assert(args[1] == ArgModel::Text(url));
                assert(args.skip(2) =~= rest);
            }
        },
        Setting::Config(value) => {
            assert(args[1] == ArgModel::Text(value));
            assert(args.skip(2) =~= rest);
        },
    }
}

proof fn lemma_spelled(options: Seq<(Setting, bool)>, rest: Seq<ArgModel>)
    ensures
        settings(spelled(options) + rest) == after(asked(options), settings(rest)),
    decreases options.len(),
{
    let all = spelled(options) + rest;
    if options.len() == 0 {
        assert(all =~= rest);
        assert(asked(options) =~= seq![]);
        if let Ok(more) = settings(rest) {
            assert(seq![] + more =~= more);
        }
    } else {
        let (setting, long) = options[0];
        let tail = options.skip(1);
        lemma_spelled(tail, rest);
        assert(all =~= words(setting, long) + (spelled(tail) + rest));
        lemma_words(setting, long, spelled(tail) + rest);
        assert(asked(options) =~= seq![setting] + asked(tail));
        if let Ok(more) = settings(rest) {
            assert(seq![setting] + (asked(tail) + more) =~= asked(options) + more);
        }
    }
}

proof fn lemma_line(program: ArgModel, options: Seq<(Setting, bool)>, rest: Seq<ArgModel>)
    ensures
        command_line(seq![program] + spelled(options) + rest) == match settings(rest) {
            Ok(more) => resolve(asked(options) + more),
            Err(error) => Err(error),
        },
{
    lemma_spelled(options, rest);
    assert((seq![program] + spelled(options) + rest).skip(1) =~= spelled(options) + rest);
}

/// The overrides are the values of the configuration options, all of them, in
/// their order, wherever the other options stand.
pub proof fn overrides_are_the_config_values(s: Seq<Setting>)
    ensures
        overrides(s) == s.filter(|x: Setting| x is Config).map_values(
            |x: Setting| x->Config_0,
        ),
    decreases s.len(),
{
    reveal(Seq::filter);
    let is_config = |x: Setting| x is Config;
    let value = |x: Setting| x->Config_0;
    if s.len() == 0 {
        assert(overrides(s) =~= s.filter(is_config).map_values(value));
    } else {
        overrides_are_the_config_values(s.drop_last());
        let before = s.drop_last().filter(is_config);
        if s.last() is Config {
            assert(before.push(s.last()).map_values(value) =~= before.map_values(value).push(
                s.last()->Config_0,
            ));
        }
    }
}

/// The listen URL in force is that of the last listen option, or `stdio://`
/// where there is none.
pub proof fn the_last_listen_url_is_in_force(s: Seq<Setting>)
    ensures
        listen_url(s) == if s.filter(|x: Setting| x is Listen).len() == 0 {
            "stdio://"@
        } else {
            s.filter(|x: Setting| x is Listen).last()->Listen_0
        },
    decreases s.len(),
{
    reveal(Seq::filter);
    if s.len() > 0 {
        the_last_listen_url_is_in_force(s.drop_last());
    }
}

/// Every list of options is a command line, in either spelling of each, in any
/// number and order. It asks for the last listen URL, `stdio://` where there is
/// none, and for all configuration values in their order; a refused URL refuses
/// it.
pub proof fn every_list_of_options_is_read(program: ArgModel, options: Seq<(Setting, bool)>)
    ensures
        ({
            let listens = asked(options).filter(|x: Setting| x is Listen);
            let configs = asked(options).filter(|x: Setting| x is Config);
            let url = if listens.len() == 0 {
                "stdio://"@
            } else {
                listens.last()->Listen_0
            };
            command_line(seq![program] + spelled(options)) == match transport(url) {
                Ok(listen) => Ok::<ArgsModel, ArgsErrorModel>(
                    ArgsModel {
                        listen,
                        overrides: configs.map_values(|x: Setting| x->Config_0),
                    },
                ),
                Err(error) => Err(ArgsErrorModel::Listen(error)),
            }
        }),
{
    lemma_line(program, options, seq![]);
    assert(seq![program] + spelled(options) + seq![] =~= seq![program] + spelled(options));
    assert(asked(options) + Seq::<Setting>::empty() =~= asked(options));
    overrides_are_the_config_values(asked(options));
    the_last_listen_url_is_in_force(asked(options));
}

/// Nothing but lists of options is accepted, and nothing else is refused for
/// its listen URL.
pub proof fn nothing_but_options_is_read(args: Seq<ArgModel>)
    requires
        args.len() > 0,
        command_line(args) is Ok || command_line(args)->Err_0 is Listen,
    ensures
        exists|options: Seq<(Setting, bool)>| args == seq![args[0]] + #[trigger] spelled(options),
{
    let rest = args.skip(1);
    lemma_only_options(rest);
    let options = choose|options: Seq<(Setting, bool)>| rest == #[trigger] spelled(options);
    assert(args =~= seq![args[0]] + spelled(options));
}

proof fn lemma_only_options(args: Seq<ArgModel>)
    requires
        settings(args) is Ok || settings(args)->Err_0 is Listen,
    ensures
        exists|options: Seq<(Setting, bool)>| args == #[trigger] spelled(options),
    decreases args.len(),
{
    if args.len() == 0 {
        assert(args =~= spelled(seq![]));
    } else {
        let text = args[0]->Text_0;
        let inline = "--listen="@.is_prefix_of(text);
        let n: int = if inline {
            1
        } else {
            2
        };
        lemma_only_options(args.skip(n));
        let tail = choose|options: Seq<(Setting, bool)>|
            args.skip(n) == #[trigger] spelled(options);
        let first = if inline {
            (Setting::Listen(text.skip("--listen="@.len() as int)), true)
        } else if text == "--listen"@ {
            (Setting::Listen(args[1]->Text_0), false)
        } else {
            (Setting::Config(args[1]->Text_0), text == "--config"@)
        };
        if inline {
            assert(text =~= "--listen="@ + text.skip("--listen="@.len() as int));
        }
        let options = seq![first] + tail;
        assert(options.skip(1) =~= tail);
        assert(words(first.0, first.1) =~= args.take(n));
        assert(args =~= args.take(n) + args.skip(n));
        assert(args == spelled(options));
    }
}

/// After any options, an argument that is none of them refuses the command
/// line, whatever follows.
pub proof fn other_arguments_are_refused(
    program: ArgModel,
    options: Seq<(Setting, bool)>,
    arg: Seq<char>,
    rest: Seq<ArgModel>,
)
    requires
        arg != "--listen"@,
        arg != "-c"@,
        arg != "--config"@,
        !(exists|url: Seq<char>| arg == #[trigger] ("--listen="@ + url)),
    ensures
        command_line(seq![program] + spelled(options) + (seq![ArgModel::Text(arg)] + rest))
            == Err::<ArgsModel, ArgsErrorModel>(ArgsErrorModel::UnexpectedArgument(arg)),
{
    let bad = seq![ArgModel::Text(arg)] + rest;
    assert(bad[0] == ArgModel::Text(arg));
    if "--listen="@.is_prefix_of(arg) {
        assert(arg =~= "--listen="@ + arg.skip("--listen="@.len() as int));
    }
    lemma_line(program, options, bad);
}

/// After any options, an argument that is not valid UTF-8 refuses the command
/// line, whatever follows, where an option could stand and where the value of
/// one could.
pub proof fn undecodable_arguments_are_refused(
    program: ArgModel,
    options: Seq<(Setting, bool)>,
    flag: Seq<char>,
    lossy: Seq<char>,
    rest: Seq<ArgModel>,
)
    requires
        flag == "--listen"@ || flag == "-c"@ || flag == "--config"@,
    ensures
        command_line(seq![program] + spelled(options) + (seq![ArgModel::NotUtf8(lossy)] + rest))
            == Err::<ArgsModel, ArgsErrorModel>(ArgsErrorModel::NotUtf8(lossy)),
        command_line(
            seq![program] + spelled(options) + (seq![
                ArgModel::Text(flag),
                ArgModel::NotUtf8(lossy),
            ] + rest),
        ) == Err::<ArgsModel, ArgsErrorModel>(ArgsErrorModel::NotUtf8(lossy)),
{
    let bare = seq![ArgModel::NotUtf8(lossy)] + rest;
    let value = seq![ArgModel::Text(flag), ArgModel::NotUtf8(lossy)] + rest;
    lemma_flags_are_distinct();
    assert(bare[0] == ArgModel::NotUtf8(lossy));
    assert(value[0] == ArgModel::Text(flag) && value[1] == ArgModel::NotUtf8(lossy));
    lemma_line(program, options, bare);
    lemma_line(program, options, value);
}

/// After any options, one without its value refuses the command line.
pub proof fn missing_values_are_refused(program: ArgModel, options: Seq<(Setting, bool)>)
    ensures
        command_line(seq![program] + spelled(options) + seq![ArgModel::Text("--listen"@)]) == Err::<
            ArgsModel,
            ArgsErrorModel,
        >(ArgsErrorModel::MissingListenValue),
        command_line(seq![program] + spelled(options) + seq![ArgModel::Text("-c"@)]) == Err::<
            ArgsModel,
            ArgsErrorModel,
        >(ArgsErrorModel::MissingConfigValue),
        command_line(seq![program] + spelled(options) + seq![ArgModel::Text("--config"@)]) == Err::<
            ArgsModel,
            ArgsErrorModel,
        >(ArgsErrorModel::MissingConfigValue),
{
    lemma_flags_are_distinct();
    lemma_line(program, options, seq![ArgModel::Text("--listen"@)]);
    lemma_line(program, options, seq![ArgModel::Text("-c"@)]);
    lemma_line(program, options, seq![ArgModel::Text("--config"@)]);
}

/// One more listen option replaces the transport and leaves the overrides
/// alone; one more configuration option leaves the transport alone.
pub proof fn one_more_option_changes_its_own_part(
    before: Seq<ArgModel>,
    url: Seq<char>,
    value: Seq<char>,
    long: bool,
)
    requires
        before.len() > 0,
        command_line(before) is Ok,
    ensures
        transport(url) matches Ok(listen) ==> command_line(
            before + words(Setting::Listen(url), long),
        ) == Ok::<ArgsModel, ArgsErrorModel>(
            ArgsModel { listen, overrides: command_line(before)->Ok_0.overrides },
        ),
        transport(url) matches Err(error) ==> command_line(
            before + words(Setting::Listen(url), long),
        ) == Err::<ArgsModel, ArgsErrorModel>(ArgsErrorModel::Listen(error)),
        command_line(before + words(Setting::Config(value), long)) == Ok::<
            ArgsModel,
            ArgsErrorModel,
        >(
            ArgsModel {
                listen: command_line(before)->Ok_0.listen,
                overrides: command_line(before)->Ok_0.overrides.push(value),
            },
        ),
{
    nothing_but_options_is_read(before);
    let options = choose|options: Seq<(Setting, bool)>|
        before == seq![before[0]] + #[trigger] spelled(options);
    let program = before[0];
    lemma_line(program, options, seq![]);
    assert(seq![program] + spelled(options) + seq![] =~= before);
    let s = asked(options);
    assert(s + Seq::<Setting>::empty() =~= s);
    lemma_one_more(program, options, Setting::Listen(url), long);
    lemma_one_more(program, options, Setting::Config(value), long);
    assert(s.push(Setting::Listen(url)).drop_last() =~= s);
    assert(s.push(Setting::Config(value)).drop_last() =~= s);
}

proof fn lemma_one_more(
    program: ArgModel,
    options: Seq<(Setting, bool)>,
    setting: Setting,
    long: bool,
)
    ensures
        command_line(seq![program] + spelled(options) + words(setting, long)) == resolve(
            asked(options).push(setting),
        ),
{
    let last = words(setting, long);
    lemma_words(setting, long, seq![]);
    assert(last + Seq::<ArgModel>::empty() =~= last);
    assert(seq![setting] + Seq::<Setting>::empty() =~= seq![setting]);
    lemma_line(program, options, last);
    assert(asked(options) + seq![setting] =~= asked(options).push(setting));
}

/// A refusal tells the user which argument is wrong and how.
pub proof fn refusals_say_what_is_wrong(arg: Seq<char>, error: TransportErrorModel)
    ensures
        args_error_text(ArgsErrorModel::NotUtf8(arg)) == "argument `"@ + arg
            + "` is not valid UTF-8"@,
        args_error_text(ArgsErrorModel::MissingListenValue) == "missing value for `--listen`"@,
        args_error_text(ArgsErrorModel::MissingConfigValue)
            == "missing value for `-c` / `--config`"@,
        args_error_text(ArgsErrorModel::UnexpectedArgument(arg)) == "unexpected argument `"@ + arg
            + "`"@,
        args_error_text(ArgsErrorModel::Listen(error)) == error_text(error),
{
}

/// Arguments are seen one by one, each as it is.
pub proof fn nothing_is_hidden_of_the_arguments(args: Seq<OsArg>, i: int)
    ensures
        arg_models(args).len() == args.len(),
        0 <= i < args.len() ==> match args[i] {
            OsArg::Text(text) => arg_models(args)[i] == ArgModel::Text(text@),
            OsArg::NotUtf8 { lossy } => arg_models(args)[i] == ArgModel::NotUtf8(lossy@),
        },
{
}

/// What a command line asks for is seen with all its parts, and so is a
/// refusal.
pub proof fn nothing_is_hidden_of_the_result(
    args: McpServerArgs,
    error: McpServerArgsError,
    i: int,
)
    ensures
        args@.listen == args.listen@,
        args@.overrides.len() == args.config_overrides.raw_overrides@.len(),
        0 <= i < args@.overrides.len() ==> args@.overrides[i]
            == args.config_overrides.raw_overrides@[i]@,
        error matches McpServerArgsError::NotUtf8 { lossy } ==> error@ == ArgsErrorModel::NotUtf8(
            lossy@,
        ),
        error is MissingListenValue <==> error@ is MissingListenValue,
        error is MissingConfigValue <==> error@ is MissingConfigValue,
        error matches McpServerArgsError::UnexpectedArgument(arg) ==> error@
            == ArgsErrorModel::UnexpectedArgument(arg@),
        error matches McpServerArgsError::Listen(e) ==> error@ == ArgsErrorModel::Listen(e@),
        args_view(Ok(args)) == Ok::<ArgsModel, ArgsErrorModel>(args@),
        args_view(Err(error)) == Err::<ArgsModel, ArgsErrorModel>(error@),
{
}

} // verus!
