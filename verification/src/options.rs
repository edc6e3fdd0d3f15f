//! The command line.

use vstd::prelude::*;

verus! {

/// The input device that is used when none is named.
pub const DEFAULT_DEVICE_NAME: &'static str = "music_out";

/// What a run of the meter needs to know.
pub struct AppConfig {
    /// The name of the input device.
    pub input_device_name: String,
    /// Whether the input is played on the default output device.
    pub passthrough: bool,
}

/// What the command line asks for.
pub enum Invocation {
    /// Print the names of the input devices.
    ListDevices,
    /// Run the meter.
    Run(AppConfig),
}

/// The texts of a list of arguments.
pub open spec fn words(args: Seq<String>) -> Seq<Seq<char>> {
    Seq::new(args.len(), |i: int| args[i]@)
}

/// Whether an argument asks for the list of devices.
pub open spec fn is_list_flag(arg: Seq<char>) -> bool {
    arg == "--list-devices"@ || arg == "-l"@
}

/// Whether an argument asks for passthrough.
pub open spec fn is_passthrough_flag(arg: Seq<char>) -> bool {
    arg == "--passthrough"@ || arg == "-p"@
}

/// Whether an argument begins with a dash. All others name the input device.
pub open spec fn is_dashed(arg: Seq<char>) -> bool {
    arg.len() > 0 && arg[0] == '-'
}

/// Whether one of the arguments asks for the list of devices.
pub open spec fn asks_for_list(args: Seq<Seq<char>>) -> bool {
    exists|i: int| 0 <= i < args.len() && is_list_flag(#[trigger] args[i])
}

/// Whether one of the arguments asks for passthrough.
pub open spec fn asks_for_passthrough(args: Seq<Seq<char>>) -> bool {
    exists|i: int| 0 <= i < args.len() && is_passthrough_flag(#[trigger] args[i])
}

/// The device that the arguments name: the last one without a dash, or the
/// default.
pub open spec fn named_device(args: Seq<Seq<char>>) -> Seq<char>
    decreases args.len(),
{
    if args.len() == 0 {
        DEFAULT_DEVICE_NAME@
    } else if !is_dashed(args.last()) {
        args.last()
    } else {
        named_device(args.drop_last())
    }
}

/// Whether a text is the given word.
fn is_word(text: &String, word: &str) -> (same: bool)
    ensures
        same == (text@ == word@),
{
    let other: String = word.to_owned();
    *text == other
}

/// Whether a text begins with a dash.
fn starts_with_dash(text: &String) -> (dashed: bool)
    ensures
        dashed == is_dashed(text@),
{
    let s: &str = text.as_str();
    !s.is_empty() && s.get_char(0) == '-'
}

/// Reads the arguments that follow the program's name. A request for the list
/// of devices wins over everything else. Options that are not known are
/// ignored.
pub fn parse_args(args: &Vec<String>) -> (invocation: Invocation)
    ensures
        match invocation {
            Invocation::ListDevices => asks_for_list(words(args@)),
            Invocation::Run(cfg) => {
                &&& !asks_for_list(words(args@))
                &&& cfg.passthrough == asks_for_passthrough(words(args@))
                &&& cfg.input_device_name@ == named_device(words(args@))
            },
        },
        invocation is ListDevices <==> exists|i: int|
            0 <= i < args@.len() && ((#[trigger] args@[i])@ == "--list-devices"@ || args@[i]@
                == "-l"@),
        invocation matches Invocation::Run(cfg) ==> {
            &&& cfg.passthrough <==> exists|i: int|
                0 <= i < args@.len() && ((#[trigger] args@[i])@ == "--passthrough"@ || args@[i]@
                    == "-p"@)
            &&& (forall|i: int|
                0 <= i < args@.len() ==> (#[trigger] args@[i])@.len() > 0 && args@[i]@[0] == '-')
                ==> cfg.input_device_name@ == "music_out"@
            &&& forall|d: int|
                0 <= d < args@.len() && ((#[trigger] args@[d])@.len() == 0 || args@[d]@[0] != '-')
                    && (forall|i: int|
                    d < i < args@.len() ==> (#[trigger] args@[i])@.len() > 0 && args@[i]@[0]
                        == '-') ==> cfg.input_device_name@ == args@[d]@
        },
{
    let mut i: usize = 0;
    while i < args.len()
        invariant
            i <= args.len(),
            forall|k: int| 0 <= k < i ==> !is_list_flag(#[trigger] words(args@)[k]),
        decreases args.len() - i,
    {
        if is_word(&args[i], "--list-devices") || is_word(&args[i], "-l") {
            assert(is_list_flag(words(args@)[i as int]));
            assert(args@[i as int]@ == "--list-devices"@ || args@[i as int]@ == "-l"@);
            return Invocation::ListDevices;
        }
        i += 1;
    }
    let mut input_device_name: String = DEFAULT_DEVICE_NAME.to_owned();
    let mut passthrough: bool = false;
    let mut i: usize = 0;
    while i < args.len()
        invariant
            i <= args.len(),
            passthrough == asks_for_passthrough(words(args@).take(i as int)),
            input_device_name@ == named_device(words(args@).take(i as int)),
        decreases args.len() - i,
    {
        proof {
            let before = words(args@).take(i as int);
            let after = words(args@).take(i + 1);
            let arg = words(args@)[i as int];
            assert(after.drop_last() =~= before);
            assert(after.last() == arg);
            assert(asks_for_passthrough(after) == (asks_for_passthrough(before)
                || is_passthrough_flag(arg))) by {
                if asks_for_passthrough(before) {
                    let k = choose|k: int|
                        0 <= k < before.len() && is_passthrough_flag(#[trigger] before[k]);
                    assert(is_passthrough_flag(after[k]));
                }
                if is_passthrough_flag(arg) {
                    assert(is_passthrough_flag(after[i as int]));
                }
                if asks_for_passthrough(after) {
                    let k = choose|k: int|
                        0 <= k < after.len() && is_passthrough_flag(#[trigger] after[k]);
                    if k < i {
                        assert(is_passthrough_flag(before[k]));
                    }
                }
            }
            reveal_strlit("--passthrough");
            reveal_strlit("-p");
        }
        if is_word(&args[i], "--passthrough") || is_word(&args[i], "-p") {
            passthrough = true;
        } else if !starts_with_dash(&args[i]) {
            input_device_name = args[i].clone();
        }
        i += 1;
    }
    proof {
        let all = words(args@);
        assert(all.take(args.len() as int) =~= all);
        assert forall|k: int| 0 <= k < all.len() implies all[k] == #[trigger] args@[k]@ by {
        }
        flags_are_words(all);
        if passthrough {
            let k = choose|k: int|
                0 <= k < all.len() && ((#[trigger] all[k]) == "--passthrough"@ || all[k] == "-p"@);
            assert(args@[k]@ == all[k]);
        }
        if forall|i: int|
            0 <= i < args@.len() ==> (#[trigger] args@[i])@.len() > 0 && args@[i]@[0] == '-' {
            only_dashes_name_the_default(all);
        }
        assert forall|d: int|
            0 <= d < args@.len() && ((#[trigger] args@[d])@.len() == 0 || args@[d]@[0] != '-') && (
            forall|i: int|
                d < i < args@.len() ==> (#[trigger] args@[i])@.len() > 0 && args@[i]@[0]
                    == '-') implies input_device_name@ == args@[d]@ by {
            let tail = all.skip(d + 1);
            assert forall|i: int| 0 <= i < tail.len() implies (#[trigger] tail[i]).len() > 0
                && tail[i][0] == '-' by {
                assert(tail[i] == args@[d + 1 + i]@);
            }
            last_name_without_a_dash_wins(all.take(d), args@[d]@, tail);
            assert(all =~= all.take(d).push(args@[d]@) + tail);
        }
    }
    Invocation::Run(AppConfig { input_device_name, passthrough })
}

/// An option that is not known can be left out.
pub proof fn unknown_options_are_ignored(args: Seq<Seq<char>>, option: Seq<char>)
    requires
        is_dashed(option),
        !is_list_flag(option),
        !is_passthrough_flag(option),
    ensures
        asks_for_list(args.push(option)) == asks_for_list(args),
        asks_for_passthrough(args.push(option)) == asks_for_passthrough(args),
        named_device(args.push(option)) == named_device(args),
{
    let more = args.push(option);
    assert(more.drop_last() =~= args);
    if asks_for_list(args) {
        let k = choose|k: int| 0 <= k < args.len() && is_list_flag(#[trigger] args[k]);
        assert(is_list_flag(more[k]));
    }
    if asks_for_list(more) {
        let k = choose|k: int| 0 <= k < more.len() && is_list_flag(#[trigger] more[k]);
        assert(is_list_flag(args[k]));
    }
    if asks_for_passthrough(args) {
        let k = choose|k: int| 0 <= k < args.len() && is_passthrough_flag(#[trigger] args[k]);
        assert(is_passthrough_flag(more[k]));
    }
    if asks_for_passthrough(more) {
        let k = choose|k: int| 0 <= k < more.len() && is_passthrough_flag(#[trigger] more[k]);
        assert(is_passthrough_flag(args[k]));
    }
}

/// The flags never name the device, and a device that is named last is the one
/// that is used.
pub proof fn last_device_wins(args: Seq<Seq<char>>, device: Seq<char>, flag: Seq<char>)
    requires
        !is_dashed(device),
        is_passthrough_flag(flag),
    ensures
        named_device(args.push(device)) == device,
        named_device(args.push(device).push(flag)) == device,
        named_device(args.push(flag)) == named_device(args),
{
    reveal_strlit("--passthrough");
    reveal_strlit("-p");
    assert(named_device(args.push(device)) == device);
    assert(args.push(device).push(flag).drop_last() =~= args.push(device));
    assert(args.push(flag).drop_last() =~= args);
}

/// What the flags are: a list is asked for with one of two words, passthrough with
/// one of two others, and nothing else asks for them.
pub proof fn flags_are_words(args: Seq<Seq<char>>)
    ensures
        asks_for_list(args) <==> exists|i: int|
            0 <= i < args.len() && ((#[trigger] args[i]) == "--list-devices"@ || args[i] == "-l"@),
        asks_for_passthrough(args) <==> exists|i: int|
            0 <= i < args.len() && ((#[trigger] args[i]) == "--passthrough"@ || args[i] == "-p"@),
{
    if asks_for_list(args) {
        let k = choose|k: int| 0 <= k < args.len() && is_list_flag(#[trigger] args[k]);
        assert(args[k] == "--list-devices"@ || args[k] == "-l"@);
    }
    if exists|i: int|
        0 <= i < args.len() && ((#[trigger] args[i]) == "--list-devices"@ || args[i] == "-l"@) {
        let k = choose|i: int|
            0 <= i < args.len() && ((#[trigger] args[i]) == "--list-devices"@ || args[i] == "-l"@);
        assert(is_list_flag(args[k]));
    }
    if asks_for_passthrough(args) {
        let k = choose|k: int| 0 <= k < args.len() && is_passthrough_flag(#[trigger] args[k]);
        assert(args[k] == "--passthrough"@ || args[k] == "-p"@);
    }
    if exists|i: int|
        0 <= i < args.len() && ((#[trigger] args[i]) == "--passthrough"@ || args[i] == "-p"@) {
        let k = choose|i: int|
            0 <= i < args.len() && ((#[trigger] args[i]) == "--passthrough"@ || args[i] == "-p"@);
        assert(is_passthrough_flag(args[k]));
    }
}

/// The last argument that is empty or begins with anything but a dash is the device,
/// whatever characters follow, and whatever options come after it.
pub proof fn last_name_without_a_dash_wins(
    args: Seq<Seq<char>>,
    device: Seq<char>,
    tail: Seq<Seq<char>>,
)
    requires
        device.len() == 0 || device[0] != '-',
        forall|i: int|
            0 <= i < tail.len() ==> (#[trigger] tail[i]).len() > 0 && tail[i][0] == '-',
    ensures
        named_device(args.push(device) + tail) == device,
    decreases tail.len(),
{
    let all = args.push(device) + tail;
    if tail.len() == 0 {
        assert(all =~= args.push(device));
        assert(all.last() == device);
    } else {
        let shorter = tail.drop_last();
        assert forall|i: int| 0 <= i < shorter.len() implies (#[trigger] shorter[i]).len() > 0
            && shorter[i][0] == '-' by {
            assert(shorter[i] == tail[i]);
        }
        last_name_without_a_dash_wins(args, device, shorter);
        assert(all.drop_last() =~= args.push(device) + shorter);
        assert(all.last() == tail[tail.len() - 1]);
    }
}

/// Arguments that all begin with a dash name no device, and the default is used.
pub proof fn only_dashes_name_the_default(args: Seq<Seq<char>>)
    requires
        forall|i: int|
            0 <= i < args.len() ==> (#[trigger] args[i]).len() > 0 && args[i][0] == '-',
    ensures
        named_device(args) == "music_out"@,
    decreases args.len(),
{
    if args.len() > 0 {
        let shorter = args.drop_last();
        assert forall|i: int| 0 <= i < shorter.len() implies (#[trigger] shorter[i]).len() > 0
            && shorter[i][0] == '-' by {
            assert(shorter[i] == args[i]);
        }
        only_dashes_name_the_default(shorter);
        assert(args.last() == args[args.len() - 1]);
    }
}

/// The arguments are read one by one, each as its text.
pub proof fn words_are_the_arguments(args: Seq<String>, i: int)
    requires
        0 <= i < args.len(),
    ensures
        words(args).len() == args.len(),
        words(args)[i] == args[i]@,
{
}

} // verus!
