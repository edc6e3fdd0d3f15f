use meter::interface::{ui_action, Key, KeyInput, UiAction, UI_TICK_MILLIS};
use meter::options::{parse_args, AppConfig, Invocation};
use meter::setup::{
    device_listing, select_device, Encoding, Known, Progress, SampleKind, SetupAction, SetupError,
    SetupEvent,
};

fn parse(args: &[&str]) -> Invocation {
    parse_args(&args.iter().map(|a| a.to_string()).collect())
}

fn config(args: &[&str]) -> (String, bool) {
    match parse(args) {
        Invocation::Run(cfg) => (cfg.input_device_name, cfg.passthrough),
        Invocation::ListDevices => panic!("asked for the list of devices"),
    }
}

fn lists(args: &[&str]) -> bool {
    matches!(parse(args), Invocation::ListDevices)
}

fn names(names: &[Option<&str>]) -> Vec<Option<String>> {
    names.iter().map(|n| n.map(|n| n.to_string())).collect()
}

fn progress(passthrough: bool) -> Progress {
    Progress::new(AppConfig { input_device_name: "music_out".to_string(), passthrough })
}

#[test]
fn default_device_without_arguments() {
    assert_eq!(config(&[]), ("music_out".to_string(), false));
}

#[test]
fn device_is_named() {
    assert_eq!(config(&["BlackHole 2ch"]), ("BlackHole 2ch".to_string(), false));
}

#[test]
fn device_and_passthrough_in_any_order() {
    for args in [
        ["music_out", "--passthrough"],
        ["--passthrough", "music_out"],
        ["music_out", "-p"],
        ["-p", "music_out"],
    ] {
        assert_eq!(config(&args), ("music_out".to_string(), true));
    }
    assert_eq!(config(&["-p"]), ("music_out".to_string(), true));
}

#[test]
fn last_device_counts() {
    assert_eq!(config(&["a", "-p", "b", "--verbose"]), ("b".to_string(), true));
    assert_eq!(config(&["a", ""]), ("".to_string(), false));
}

#[test]
fn unknown_options_do_nothing() {
    assert_eq!(config(&["-x", "--pass", "-", "--list", "-P"]), ("music_out".to_string(), false));
}

#[test]
fn list_of_devices_wins() {
    assert!(lists(&["--list-devices"]));
    assert!(lists(&["-l"]));
    assert!(lists(&["a", "-p", "-l", "b"]));
    assert!(!lists(&["l", "list-devices", "--list"]));
}

#[test]
fn first_device_of_the_name_is_selected() {
    let devices = names(&[Some("mic"), None, Some("music_out"), Some("music_out")]);
    assert_eq!(select_device(&devices, &"music_out".to_string()), Some(2));
    assert_eq!(select_device(&devices, &"mic".to_string()), Some(0));
    assert_eq!(select_device(&devices, &"Mic".to_string()), None);
    assert_eq!(select_device(&names(&[None]), &"".to_string()), None);
    assert_eq!(select_device(&vec![], &"mic".to_string()), None);
}

#[test]
fn devices_without_a_name_are_listed_as_unknown() {
    let devices = names(&[Some("mic"), None, Some("")]);
    assert_eq!(device_listing(&devices), vec!["mic", "<unknown>", ""]);
}

#[test]
fn setup_without_passthrough() {
    let mut p = progress(false);
    assert!(matches!(p.next_action(), SetupAction::ListInputs));
    p.record(SetupEvent::Inputs(Some(names(&[Some("mic"), Some("music_out")]))));
    assert!(matches!(p.next_action(), SetupAction::ReadInput(1)));
    p.record(SetupEvent::Input(Some(Encoding::I16)));
    assert!(matches!(p.next_action(), SetupAction::OpenInput(1, SampleKind::I16)));
    p.record(SetupEvent::InputStream(true));
    assert!(matches!(p.next_action(), SetupAction::Finish));
}

#[test]
fn setup_with_passthrough() {
    let mut p = progress(true);
    p.record(SetupEvent::Inputs(Some(names(&[Some("music_out")]))));
    p.record(SetupEvent::Input(Some(Encoding::F32)));
    assert!(matches!(p.next_action(), SetupAction::FindOutput));
    p.record(SetupEvent::Output(true));
    assert!(matches!(p.next_action(), SetupAction::ReadOutput));
    p.record(SetupEvent::OutputConfig(Some(Encoding::U16)));
    assert!(matches!(p.next_action(), SetupAction::OpenOutput(SampleKind::U16)));
    p.record(SetupEvent::OutputStream(true));
    assert!(matches!(p.next_action(), SetupAction::OpenInput(0, SampleKind::F32)));
    p.record(SetupEvent::InputStream(true));
    assert!(matches!(p.next_action(), SetupAction::Finish));
}

fn failure(p: &Progress) -> String {
    match p.next_action() {
        SetupAction::Fail(error) => error.message(),
        _ => panic!("not a failure"),
    }
}

#[test]
fn setup_failures_in_order() {
    let mut p = progress(true);
    p.record(SetupEvent::Inputs(None));
    assert_eq!(failure(&p), "failed to enumerate input devices");
    p.record(SetupEvent::Inputs(Some(names(&[Some("mic"), None]))));
    assert_eq!(failure(&p), "input device 'music_out' not found");
    p.record(SetupEvent::Inputs(Some(names(&[Some("music_out")]))));
    p.record(SetupEvent::Input(None));
    assert_eq!(failure(&p), "failed to read default input config for selected device");
    p.record(SetupEvent::Input(Some(Encoding::Other("I32".to_string()))));
    p.record(SetupEvent::Output(false));
    assert_eq!(failure(&p), "no default output device available");
    p.record(SetupEvent::Output(true));
    p.record(SetupEvent::OutputConfig(None));
    assert_eq!(failure(&p), "failed to read default output config");
    p.record(SetupEvent::OutputConfig(Some(Encoding::Other("F64".to_string()))));
    assert_eq!(failure(&p), "unsupported output sample format: F64");
    p.record(SetupEvent::OutputConfig(Some(Encoding::F32)));
    p.record(SetupEvent::OutputStream(false));
    assert_eq!(failure(&p), "failed to build output stream");
    p.record(SetupEvent::OutputStream(true));
    assert_eq!(failure(&p), "unsupported input sample format: I32");
    p.record(SetupEvent::Input(Some(Encoding::U16)));
    p.record(SetupEvent::InputStream(false));
    assert_eq!(failure(&p), "failed to build input stream");
}

#[test]
fn output_does_not_matter_without_passthrough() {
    let mut p = progress(false);
    p.record(SetupEvent::Inputs(Some(names(&[Some("music_out")]))));
    p.record(SetupEvent::Input(Some(Encoding::U16)));
    p.record(SetupEvent::Output(false));
    p.record(SetupEvent::OutputConfig(None));
    p.record(SetupEvent::OutputStream(false));
    assert!(matches!(p.next_action(), SetupAction::OpenInput(0, SampleKind::U16)));
    p.record(SetupEvent::Input(Some(Encoding::Other("U8".to_string()))));
    assert!(matches!(p.next_action(), SetupAction::Fail(SetupError::UnsupportedInput(_))));
}

fn press(key: Key) -> Option<KeyInput> {
    Some(KeyInput { key, pressed: true })
}

#[test]
fn q_and_escape_quit() {
    for since in [0u128, 33_000_000, u128::MAX] {
        assert_eq!(ui_action(press(Key::Char('q')), since), UiAction::Quit);
        assert_eq!(ui_action(press(Key::Esc), since), UiAction::Quit);
    }
}

#[test]
fn other_input_does_not_quit() {
    let released = Some(KeyInput { key: Key::Char('q'), pressed: false });
    let released_esc = Some(KeyInput { key: Key::Esc, pressed: false });
    for input in [None, press(Key::Char('Q')), press(Key::Char('x')), press(Key::Other), released, released_esc] {
        assert_eq!(ui_action(input, 0), UiAction::Wait);
        assert_eq!(ui_action(input, 32_999_999), UiAction::Wait);
        assert_eq!(ui_action(input, 33_000_000), UiAction::Draw);
        assert_eq!(ui_action(input, u128::MAX), UiAction::Draw);
    }
    assert_eq!(UI_TICK_MILLIS, 33);
}

#[test]
fn integers_are_clamped() {
    assert!(!SampleKind::F32.clamps());
    assert!(SampleKind::I16.clamps());
    assert!(SampleKind::U16.clamps());
}

/// What a step that works reports.
fn success(action: &SetupAction) -> Option<SetupEvent> {
    match action {
        SetupAction::ListInputs => Some(SetupEvent::Inputs(Some(names(&[Some("music_out")])))),
        SetupAction::ReadInput(_) => Some(SetupEvent::Input(Some(Encoding::F32))),
        SetupAction::FindOutput => Some(SetupEvent::Output(true)),
        SetupAction::ReadOutput => Some(SetupEvent::OutputConfig(Some(Encoding::F32))),
        SetupAction::OpenOutput(_) => Some(SetupEvent::OutputStream(true)),
        SetupAction::OpenInput(_, _) => Some(SetupEvent::InputStream(true)),
        SetupAction::Finish | SetupAction::Fail(_) => None,
    }
}

#[test]
fn setup_ends_after_its_steps() {
    for (passthrough, steps) in [(false, 3), (true, 6)] {
        let mut p = progress(passthrough);
        let mut events = 0;
        while let Some(event) = success(&p.next_action()) {
            p.record(event);
            events += 1;
        }
        assert_eq!(events, steps);
        assert!(matches!(p.next_action(), SetupAction::Finish));
    }
}

#[test]
fn record_keeps_the_rest() {
    let mut p = progress(true);
    assert!(matches!(p.inputs, Known::Untried));
    p.record(SetupEvent::Output(true));
    assert!(matches!(p.output, Known::Got(())));
    assert!(matches!(p.inputs, Known::Untried));
    assert!(matches!(p.output_stream, Known::Untried));
    p.record(SetupEvent::InputStream(false));
    assert!(matches!(p.input_stream, Known::Failed));
    assert!(matches!(p.output, Known::Got(())));
    assert!(p.config.passthrough);
}
