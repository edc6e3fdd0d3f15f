//! Setting the audio streams up: which device to use, in which order to ask for
//! things, and how large the queues are.

use crate::options::AppConfig;
use crate::queue::{
    point_capacity, point_offers, point_pulls, point_queue, points_in, points_out,
    sample_capacity, sample_offers, sample_pulls, sample_queue, samples_in, samples_out,
    PointConsumer, PointProducer, SampleConsumer, SampleProducer,
};
use vstd::prelude::*;

verus! {

/// How many scope points are meant to come in per second.
pub const SCOPE_POINTS_PER_SEC: u32 = 240;

/// How many scope points can wait for the display.
pub const SCOPE_QUEUE_CAPACITY: usize = 32_768;

/// How many frames can wait for the output device, at the least.
pub const PASSTHROUGH_MIN_FRAMES: usize = 4096;

/// The name that stands for a device that does not tell its own.
pub const UNKNOWN_DEVICE_NAME: &'static str = "<unknown>";

/// How a device encodes samples.
pub enum Encoding {
    /// As binary32 numbers.
    F32,
    /// As signed 16-bit integers.
    I16,
    /// As unsigned 16-bit integers.
    U16,
    /// In another way, which goes by the given name.
    Other(String),
}

/// The encodings that a stream can be opened with.
#[derive(Clone, Copy, Debug, PartialEq, Eq, Structural)]
pub enum SampleKind {
    /// Binary32 numbers.
    F32,
    /// Signed 16-bit integers.
    I16,
    /// Unsigned 16-bit integers.
    U16,
}

impl SampleKind {
    /// Whether amplitudes have to be held between -1 and 1 before they are encoded:
    /// integers cannot hold more than full scale.
    pub fn clamps(self) -> (clamps: bool)
        ensures
            clamps == !(self is F32),
    {
        match self {
            SampleKind::F32 => false,
            SampleKind::I16 => true,
            SampleKind::U16 => true,
        }
    }
}

/// What has come of something that was to be tried.
pub enum Known<T> {
    /// It has not been tried yet.
    Untried,
    /// It has failed.
    Failed,
    /// It has given a result.
    Got(T),
}

/// What is known while the streams are being set up.
pub struct Progress {
    /// What the user asked for.
    pub config: AppConfig,
    /// The names of the input devices; `None` for one that does not tell.
    pub inputs: Known<Vec<Option<String>>>,
    /// The encoding of the input device.
    pub input: Known<Encoding>,
    /// Whether there is an output device.
    pub output: Known<()>,
    /// The encoding of the output device.
    pub output_config: Known<Encoding>,
    /// Whether the output stream is open.
    pub output_stream: Known<()>,
    /// Whether the input stream is open.
    pub input_stream: Known<()>,
}

/// What has come of the step that was to be tried.
pub enum SetupEvent {
    /// The names of the input devices, or that they cannot be listed.
    Inputs(Option<Vec<Option<String>>>),
    /// The encoding of the input device, or that it does not tell.
    Input(Option<Encoding>),
    /// Whether there is an output device.
    Output(bool),
    /// The encoding of the output device, or that it does not tell.
    OutputConfig(Option<Encoding>),
    /// Whether the output stream has been opened.
    OutputStream(bool),
    /// Whether the input stream has been opened.
    InputStream(bool),
}

/// Why the streams cannot be set up.
pub enum SetupError {
    /// The input devices cannot be listed.
    ListInputs,
    /// No input device has the given name.
    InputNotFound(String),
    /// The input device does not tell its configuration.
    ReadInput,
    /// There is no output device.
    NoOutput,
    /// The output device does not tell its configuration.
    ReadOutput,
    /// The output device encodes samples in the given way.
    UnsupportedOutput(String),
    /// The output stream cannot be opened.
    OpenOutput,
    /// The input device encodes samples in the given way.
    UnsupportedInput(String),
    /// The input stream cannot be opened.
    OpenInput,
}

/// What to try next.
pub enum SetupAction {
    /// List the input devices.
    ListInputs,
    /// Ask the input device at the given position for its configuration.
    ReadInput(usize),
    /// Look for the output device.
    FindOutput,
    /// Ask the output device for its configuration.
    ReadOutput,
    /// Open the output stream.
    OpenOutput(SampleKind),
    /// Open the input stream of the device at the given position.
    OpenInput(usize, SampleKind),
    /// Nothing: the streams are set up.
    Finish,
    /// Nothing: the streams cannot be set up.
    Fail(SetupError),
}

impl SetupAction {
    /// Whether nothing is left to try.
    pub open spec fn ends(self) -> bool {
        self is Finish || self is Fail
    }

    /// Whether an event says what has come of this action.
    pub open spec fn answered_by(self, event: SetupEvent) -> bool {
        match self {
            SetupAction::ListInputs => event is Inputs,
            SetupAction::ReadInput(_) => event is Input,
            SetupAction::FindOutput => event is Output,
            SetupAction::ReadOutput => event is OutputConfig,
            SetupAction::OpenOutput(_) => event is OutputStream,
            SetupAction::OpenInput(_, _) => event is InputStream,
            SetupAction::Finish => false,
            SetupAction::Fail(_) => false,
        }
    }

    /// Whether two actions are the same, names compared by their text.
    pub open spec fn same(self, other: SetupAction) -> bool {
        match (self, other) {
            (SetupAction::Fail(a), SetupAction::Fail(b)) => a.same(b),
            (a, b) => a == b,
        }
    }
}

/// Whether the device at position `i` has the given name.
pub open spec fn goes_by(names: Seq<Option<String>>, i: int, wanted: Seq<char>) -> bool {
    0 <= i < names.len() && names[i] is Some && names[i]->0@ == wanted
}

/// Whether `i` is the position of the first device with the given name.
pub open spec fn is_first_named(names: Seq<Option<String>>, i: int, wanted: Seq<char>) -> bool {
    &&& goes_by(names, i, wanted)
    &&& forall|j: int| 0 <= j < i ==> !#[trigger] goes_by(names, j, wanted)
}

/// The position of the first device with the given name.
pub fn select_device(names: &Vec<Option<String>>, wanted: &String) -> (found: Option<usize>)
    ensures
        match found {
            Some(i) => is_first_named(names@, i as int, wanted@),
            None => forall|j: int| !#[trigger] goes_by(names@, j, wanted@),
        },
        found matches Some(i) ==> {
            &&& i < names@.len()
            &&& names@[i as int] matches Some(name) && name@ == wanted@
            &&& forall|j: int|
                0 <= j < i ==> ((#[trigger] names@[j]) matches Some(name) ==> name@ != wanted@)
        },
        found is None ==> forall|j: int|
            0 <= j < names@.len() ==> ((#[trigger] names@[j]) matches Some(name) ==> name@
                != wanted@),
{
    let mut i: usize = 0;
    while i < names.len()
        invariant
            i <= names.len(),
            forall|j: int| 0 <= j < i ==> !#[trigger] goes_by(names@, j, wanted@),
            forall|j: int|
                0 <= j < i ==> ((#[trigger] names@[j]) matches Some(name) ==> name@ != wanted@),
        decreases names.len() - i,
    {
        if let Some(name) = &names[i] {
            if *name == *wanted {
                return Some(i);
            }
        }
        i += 1;
    }
    None
}

/// The name under which a device is listed.
pub open spec fn listed_as(name: Option<String>) -> Seq<char> {
    match name {
        Some(name) => name@,
        None => UNKNOWN_DEVICE_NAME@,
    }
}

/// The lines of the list of devices.
pub fn device_listing(names: &Vec<Option<String>>) -> (lines: Vec<String>)
    ensures
        lines@.len() == names@.len(),
        forall|i: int| 0 <= i < names@.len() ==> (#[trigger] lines@[i])@ == listed_as(names@[i]),
        forall|i: int|
            0 <= i < names@.len() ==> (#[trigger] lines@[i])@ == (match names@[i] {
                Some(name) => name@,
                None => "<unknown>"@,
            }),
{
    let mut lines: Vec<String> = Vec::new();
    let mut i: usize = 0;
    while i < names.len()
        invariant
            i <= names.len(),
            lines.len() == i,
            forall|j: int| 0 <= j < i ==> (#[trigger] lines@[j])@ == listed_as(names@[j]),
        decreases names.len() - i,
    {
        let line: String = match &names[i] {
            Some(name) => name.clone(),
            None => UNKNOWN_DEVICE_NAME.to_owned(),
        };
        lines.push(line);
        i += 1;
    }
    lines
}

/// The encoding that a stream can be opened with, if it is one of these.
pub open spec fn supported(encoding: Encoding) -> Option<SampleKind> {
    match encoding {
        Encoding::F32 => Some(SampleKind::F32),
        Encoding::I16 => Some(SampleKind::I16),
        Encoding::U16 => Some(SampleKind::U16),
        Encoding::Other(_) => None,
    }
}

impl SetupError {
    /// The text of an error.
    pub open spec fn text(self) -> Seq<char> {
        match self {
            SetupError::ListInputs => "failed to enumerate input devices"@,
            SetupError::InputNotFound(name) => "input device '"@ + name@ + "' not found"@,
            SetupError::ReadInput => "failed to read default input config for selected device"@,
            SetupError::NoOutput => "no default output device available"@,
            SetupError::ReadOutput => "failed to read default output config"@,
            SetupError::UnsupportedOutput(name) => "unsupported output sample format: "@ + name@,
            SetupError::OpenOutput => "failed to build output stream"@,
            SetupError::UnsupportedInput(name) => "unsupported input sample format: "@ + name@,
            SetupError::OpenInput => "failed to build input stream"@,
        }
    }

    /// Whether two errors have the same text.
    pub open spec fn same(self, other: SetupError) -> bool {
        match (self, other) {
            (SetupError::InputNotFound(a), SetupError::InputNotFound(b)) => a@ == b@,
            (SetupError::UnsupportedOutput(a), SetupError::UnsupportedOutput(b)) => a@ == b@,
            (SetupError::UnsupportedInput(a), SetupError::UnsupportedInput(b)) => a@ == b@,
            (a, b) => a == b,
        }
    }

    /// The text of the error.
    pub fn message(&self) -> (message: String)
        ensures
            message@ == self.text(),
    {
        match self {
            SetupError::ListInputs => "failed to enumerate input devices".to_owned(),
            SetupError::InputNotFound(name) => {
                let mut message: String = "input device '".to_owned();
                message.append(name.as_str());
                message.append("' not found");
                message
            },
            SetupError::ReadInput => {
                "failed to read default input config for selected device".to_owned()
            },
            SetupError::NoOutput => "no default output device available".to_owned(),
            SetupError::ReadOutput => "failed to read default output config".to_owned(),
            SetupError::UnsupportedOutput(name) => {
                let mut message: String = "unsupported output sample format: ".to_owned();
                message.append(name.as_str());
                message
            },
            SetupError::OpenOutput => "failed to build output stream".to_owned(),
            SetupError::UnsupportedInput(name) => {
                let mut message: String = "unsupported input sample format: ".to_owned();
                message.append(name.as_str());
                message
            },
            SetupError::OpenInput => "failed to build input stream".to_owned(),
        }
    }
}

impl<T> Known<T> {
    /// What is known once something has been tried: its result, or that it failed.
    pub open spec fn of(result: Option<T>) -> Known<T> {
        match result {
            Some(value) => Known::Got(value),
            None => Known::Failed,
        }
    }

    /// What is known once something has been tried.
    fn tried(result: Option<T>) -> (known: Known<T>)
        ensures
            known == Known::of(result),
    {
        match result {
            Some(value) => Known::Got(value),
            None => Known::Failed,
        }
    }
}

/// What an event without a result says: that it worked, or that it did not.
pub open spec fn outcome(worked: bool) -> Option<()> {
    if worked {
        Some(())
    } else {
        None
    }
}

impl Progress {
    /// What is known after an event.
    pub open spec fn after(self, event: SetupEvent) -> Progress {
        match event {
            SetupEvent::Inputs(names) => Progress { inputs: Known::of(names), ..self },
            SetupEvent::Input(encoding) => Progress { input: Known::of(encoding), ..self },
            SetupEvent::Output(found) => Progress { output: Known::of(outcome(found)), ..self },
            SetupEvent::OutputConfig(encoding) => Progress {
                output_config: Known::of(encoding),
                ..self
            },
            SetupEvent::OutputStream(opened) => Progress {
                output_stream: Known::of(outcome(opened)),
                ..self
            },
            SetupEvent::InputStream(opened) => Progress {
                input_stream: Known::of(outcome(opened)),
                ..self
            },
        }
    }

    /// Takes note of what has come of a step.
    pub fn record(&mut self, event: SetupEvent)
        ensures
            *final(self) == old(self).after(event),
    {
        match event {
            SetupEvent::Inputs(names) => {
                self.inputs = Known::tried(names);
            },
            SetupEvent::Input(encoding) => {
                self.input = Known::tried(encoding);
            },
            SetupEvent::Output(found) => {
                self.output = if found {
                    Known::Got(())
                } else {
                    Known::Failed
                };
            },
            SetupEvent::OutputConfig(encoding) => {
                self.output_config = Known::tried(encoding);
            },
            SetupEvent::OutputStream(opened) => {
                self.output_stream = if opened {
                    Known::Got(())
                } else {
                    Known::Failed
                };
            },
            SetupEvent::InputStream(opened) => {
                self.input_stream = if opened {
                    Known::Got(())
                } else {
                    Known::Failed
                };
            },
        }
    }

    /// Whether nothing has been tried.
    pub open spec fn is_new(self) -> bool {
        &&& self.inputs is Untried
        &&& self.input is Untried
        &&& self.output is Untried
        &&& self.output_config is Untried
        &&& self.output_stream is Untried
        &&& self.input_stream is Untried
    }

    /// What is known after the given events.
    pub open spec fn after_all(self, events: Seq<SetupEvent>) -> Progress
        decreases events.len(),
    {
        if events.len() == 0 {
            self
        } else {
            self.after_all(events.drop_last()).after(events.last())
        }
    }

    /// Whether each event says what has come of the action that was due.
    pub open spec fn runs_through(self, events: Seq<SetupEvent>) -> bool
        decreases events.len(),
    {
        events.len() > 0 ==> {
            &&& self.runs_through(events.drop_last())
            &&& exists|action: SetupAction|
                #[trigger] self.after_all(events.drop_last()).calls_for(action)
                    && action.answered_by(events.last())
        }
    }

    /// How many steps have not been tried.
    spec fn untried(self) -> int {
        (if self.inputs is Untried {
            1int
        } else {
            0int
        }) + (if self.input is Untried {
            1int
        } else {
            0int
        }) + (if self.output is Untried {
            1int
        } else {
            0int
        }) + (if self.output_config is Untried {
            1int
        } else {
            0int
        }) + (if self.output_stream is Untried {
            1int
        } else {
            0int
        }) + (if self.input_stream is Untried {
            1int
        } else {
            0int
        })
    }

    /// Nothing has been tried yet.
    pub fn new(config: AppConfig) -> (progress: Progress)
        ensures
            progress.config == config,
            progress.is_new(),
    {
        Progress {
            config,
            inputs: Known::Untried,
            input: Known::Untried,
            output: Known::Untried,
            output_config: Known::Untried,
            output_stream: Known::Untried,
            input_stream: Known::Untried,
        }
    }

    /// Whether the input device at position `i` has been picked and has told its
    /// configuration.
    pub open spec fn input_is_known(self, i: int) -> bool {
        &&& self.inputs is Got
        &&& is_first_named(self.inputs->Got_0@, i, self.config.input_device_name@)
        &&& self.input is Got
    }

    /// Whether nothing is left to do for the output: it is not wanted, or its
    /// stream is open.
    pub open spec fn output_is_settled(self) -> bool {
        self.config.passthrough ==> {
            &&& self.output is Got
            &&& self.output_config is Got
            &&& supported(self.output_config->Got_0) is Some
            &&& self.output_stream is Got
        }
    }

    /// Whether the output stream can be opened as the given kind.
    pub open spec fn output_can_open(self, kind: SampleKind) -> bool {
        &&& self.config.passthrough
        &&& self.output is Got
        &&& self.output_config is Got
        &&& supported(self.output_config->Got_0) == Some(kind)
    }

    /// Whether an action is the one to take: everything that comes before it has
    /// given a result, and itself it has not been tried. A failure is reported
    /// for the first thing that failed.
    pub open spec fn calls_for(self, action: SetupAction) -> bool {
        let wanted = self.config.input_device_name@;
        match action {
            SetupAction::ListInputs => self.inputs is Untried,
            SetupAction::ReadInput(i) => {
                &&& self.inputs is Got
                &&& is_first_named(self.inputs->Got_0@, i as int, wanted)
                &&& self.input is Untried
            },
            SetupAction::FindOutput => {
                &&& exists|i: int| self.input_is_known(i)
                &&& self.config.passthrough
                &&& self.output is Untried
            },
            SetupAction::ReadOutput => {
                &&& exists|i: int| self.input_is_known(i)
                &&& self.config.passthrough
                &&& self.output is Got
                &&& self.output_config is Untried
            },
            SetupAction::OpenOutput(kind) => {
                &&& exists|i: int| self.input_is_known(i)
                &&& self.output_can_open(kind)
                &&& self.output_stream is Untried
            },
            SetupAction::OpenInput(i, kind) => {
                &&& self.input_is_known(i as int)
                &&& self.output_is_settled()
                &&& supported(self.input->Got_0) == Some(kind)
                &&& self.input_stream is Untried
            },
            SetupAction::Finish => {
                &&& exists|i: int| self.input_is_known(i)
                &&& self.output_is_settled()
                &&& supported(self.input->Got_0) is Some
                &&& self.input_stream is Got
            },
            SetupAction::Fail(error) => self.fails_with(error),
        }
    }

    /// Whether the given error is the one to report.
    pub open spec fn fails_with(self, error: SetupError) -> bool {
        let wanted = self.config.input_device_name@;
        match error {
            SetupError::ListInputs => self.inputs is Failed,
            SetupError::InputNotFound(name) => {
                &&& self.inputs is Got
                &&& forall|i: int| !#[trigger] goes_by(self.inputs->Got_0@, i, wanted)
                &&& name@ == wanted
            },
            SetupError::ReadInput => {
                &&& self.inputs is Got
                &&& exists|i: int| is_first_named(self.inputs->Got_0@, i, wanted)
                &&& self.input is Failed
            },
            SetupError::NoOutput => {
                &&& exists|i: int| self.input_is_known(i)
                &&& self.config.passthrough
                &&& self.output is Failed
            },
            SetupError::ReadOutput => {
                &&& exists|i: int| self.input_is_known(i)
                &&& self.config.passthrough
                &&& self.output is Got
                &&& self.output_config is Failed
            },
            SetupError::UnsupportedOutput(name) => {
                &&& exists|i: int| self.input_is_known(i)
                &&& self.config.passthrough
                &&& self.output is Got
                &&& self.output_config matches Known::Got(Encoding::Other(other)) && name@
                    == other@
            },
            SetupError::OpenOutput => {
                &&& exists|i: int| self.input_is_known(i)
                &&& exists|kind: SampleKind| self.output_can_open(kind)
                &&& self.output_stream is Failed
            },
            SetupError::UnsupportedInput(name) => {
                &&& exists|i: int| self.input_is_known(i)
                &&& self.output_is_settled()
                &&& self.input matches Known::Got(Encoding::Other(other)) && name@ == other@
            },
            SetupError::OpenInput => {
                &&& exists|i: int| self.input_is_known(i)
                &&& self.output_is_settled()
                &&& supported(self.input->Got_0) is Some
                &&& self.input_stream is Failed
            },
        }
    }

    /// What to try next.
    pub fn next_action(&self) -> (action: SetupAction)
        ensures
            self.calls_for(action),
    {
        let position: usize = match &self.inputs {
            Known::Untried => {
                return SetupAction::ListInputs;
            },
            Known::Failed => {
                return SetupAction::Fail(SetupError::ListInputs);
            },
            Known::Got(names) => match select_device(names, &self.config.input_device_name) {
                Some(i) => i,
                None => {
                    return SetupAction::Fail(
                        SetupError::InputNotFound(self.config.input_device_name.clone()),
                    );
                },
            },
        };
        assert(is_first_named(
            self.inputs->Got_0@,
            position as int,
            self.config.input_device_name@,
        ));
        let input: &Encoding = match &self.input {
            Known::Untried => {
                return SetupAction::ReadInput(position);
            },
            Known::Failed => {
                return SetupAction::Fail(SetupError::ReadInput);
            },
            Known::Got(encoding) => encoding,
        };
        assert(self.input_is_known(position as int));
        if self.config.passthrough {
            match &self.output {
                Known::Untried => {
                    return SetupAction::FindOutput;
                },
                Known::Failed => {
                    return SetupAction::Fail(SetupError::NoOutput);
                },
                Known::Got(_) => {},
            }
            let kind: SampleKind = match &self.output_config {
                Known::Untried => {
                    return SetupAction::ReadOutput;
                },
                Known::Failed => {
                    return SetupAction::Fail(SetupError::ReadOutput);
                },
                Known::Got(encoding) => match encoding {
                    Encoding::F32 => SampleKind::F32,
                    Encoding::I16 => SampleKind::I16,
                    Encoding::U16 => SampleKind::U16,
                    Encoding::Other(name) => {
                        return SetupAction::Fail(SetupError::UnsupportedOutput(name.clone()));
                    },
                },
            };
            assert(self.output_can_open(kind));
            match &self.output_stream {
                Known::Untried => {
                    return SetupAction::OpenOutput(kind);
                },
                Known::Failed => {
                    return SetupAction::Fail(SetupError::OpenOutput);
                },
                Known::Got(_) => {},
            }
        }
        let kind: SampleKind = match input {
            Encoding::F32 => SampleKind::F32,
            Encoding::I16 => SampleKind::I16,
            Encoding::U16 => SampleKind::U16,
            Encoding::Other(name) => {
                return SetupAction::Fail(SetupError::UnsupportedInput(name.clone()));
            },
        };
        match &self.input_stream {
            Known::Untried => SetupAction::OpenInput(position, kind),
            Known::Failed => SetupAction::Fail(SetupError::OpenInput),
            Known::Got(_) => SetupAction::Finish,
        }
    }
}

/// Whatever is known calls for one action only.
pub proof fn next_action_is_determined(progress: Progress, a: SetupAction, b: SetupAction)
    requires
        progress.calls_for(a),
        progress.calls_for(b),
    ensures
        a.same(b),
{
    let wanted = progress.config.input_device_name@;
    if progress.inputs is Got {
        let names = progress.inputs->Got_0@;
        assert forall|i: int, j: int| #[trigger]
            is_first_named(names, i, wanted) && #[trigger] is_first_named(
                names,
                j,
                wanted,
            ) implies i == j by {
            assert(goes_by(names, i, wanted) && goes_by(names, j, wanted));
        }
    }
}

/// The output is touched only where passthrough is asked for, and only after the
/// input device has told its configuration. The input stream is opened last.
pub proof fn output_comes_between(progress: Progress, action: SetupAction)
    requires
        progress.calls_for(action),
    ensures
        action is FindOutput || action is ReadOutput || action is OpenOutput ==> {
            &&& progress.config.passthrough
            &&& progress.input is Got
        },
        action is OpenInput && progress.config.passthrough ==> progress.output_stream is Got,
        action is Finish ==> progress.input_stream is Got && (progress.config.passthrough
            ==> progress.output_stream is Got),
{
}

/// The steps that are left grow fewer with every event, and without passthrough
/// those of the output are never taken.
proof fn steps_run_out(progress: Progress, events: Seq<SetupEvent>)
    requires
        progress.is_new(),
        progress.runs_through(events),
    ensures
        progress.after_all(events).untried() == 6 - events.len(),
        progress.after_all(events).config == progress.config,
        !progress.config.passthrough ==> {
            &&& progress.after_all(events).output is Untried
            &&& progress.after_all(events).output_config is Untried
            &&& progress.after_all(events).output_stream is Untried
        },
    decreases events.len(),
{
    if events.len() > 0 {
        let earlier = events.drop_last();
        steps_run_out(progress, earlier);
        let action = choose|action: SetupAction|
            #[trigger] progress.after_all(earlier).calls_for(action) && action.answered_by(
                events.last(),
            );
        assert(progress.after_all(earlier).calls_for(action));
    }
}

/// Setting up ends: from the start at most six events come in, at most three
/// without passthrough, and after as many as that nothing is left to try.
pub proof fn setup_ends(progress: Progress, events: Seq<SetupEvent>, action: SetupAction)
    requires
        progress.is_new(),
        progress.runs_through(events),
        progress.after_all(events).calls_for(action),
    ensures
        events.len() <= (if progress.config.passthrough {
            6
        } else {
            3int
        }),
        events.len() == (if progress.config.passthrough {
            6
        } else {
            3int
        }) ==> action.ends(),
{
    steps_run_out(progress, events);
}

/// Recording what has come of the action that was due moves on: the same action is
/// not due again.
pub proof fn no_step_is_repeated(progress: Progress, action: SetupAction, event: SetupEvent)
    requires
        progress.calls_for(action),
        action.answered_by(event),
    ensures
        !progress.after(event).calls_for(action),
{
}

/// The number of frames to a scope point, given the sample rate divided by
/// [`SCOPE_POINTS_PER_SEC`] and rounded: at least one.
pub fn scope_bucket_samples(rounded: u32) -> (samples: u32)
    ensures
        samples == (if rounded == 0 {
            1
        } else {
            rounded
        }),
        samples >= 1,
{
    if rounded == 0 {
        1
    } else {
        rounded
    }
}

/// The two ends of the queue between the input callback and the display.
pub fn scope_queue() -> (ends: (PointProducer, PointConsumer))
    ensures
        point_offers(ends.0) == Seq::<(u64, bool)>::empty(),
        point_capacity(ends.0) == SCOPE_QUEUE_CAPACITY,
        point_capacity(ends.0) == 32_768,
        point_pulls(ends.1) == Seq::<Option<u64>>::empty(),
        points_in(ends.0) == points_out(ends.1),
{
    point_queue(SCOPE_QUEUE_CAPACITY)
}

/// The room of the queue between the callbacks, in samples: two seconds of
/// frames at the given rate, or the least number of frames if that is more, with
/// two samples to a frame.
pub open spec fn passthrough_room(rate: int) -> int {
    2 * if 2 * rate > PASSTHROUGH_MIN_FRAMES {
        2 * rate
    } else {
        PASSTHROUGH_MIN_FRAMES as int
    }
}

/// The two ends of the queue between the input callback and the output callback
/// at the given sample rate.
pub fn passthrough_queue(rate: usize) -> (ends: (SampleProducer, SampleConsumer))
    requires
        rate <= usize::MAX / 32,
    ensures
        sample_offers(ends.0) == Seq::<(u32, bool)>::empty(),
        sample_capacity(ends.0) == passthrough_room(rate as int),
        rate <= 2048 ==> sample_capacity(ends.0) == 8192,
        rate >= 2048 ==> sample_capacity(ends.0) == 4 * rate,
        sample_pulls(ends.1) == Seq::<Option<u32>>::empty(),
        samples_in(ends.0) == samples_out(ends.1),
{
    let mut frames: usize = rate * 2;
    if frames < PASSTHROUGH_MIN_FRAMES {
        frames = PASSTHROUGH_MIN_FRAMES;
    }
    sample_queue(frames * 2)
}

/// Whether a device goes by a name, and whether it is the first one that does.
pub proof fn devices_go_by_their_names(names: Seq<Option<String>>, i: int, wanted: Seq<char>)
    ensures
        goes_by(names, i, wanted) <==> 0 <= i < names.len() && names[i] is Some && names[i]->0@
            == wanted,
        is_first_named(names, i, wanted) <==> {
            &&& 0 <= i < names.len()
            &&& names[i] is Some && names[i]->0@ == wanted
            &&& forall|j: int|
                0 <= j < i ==> !((#[trigger] names[j]) is Some && names[j]->0@ == wanted)
        },
        0 <= i < names.len() ==> listed_as(names[i]) == (match names[i] {
            Some(name) => name@,
            None => "<unknown>"@,
        }),
{
    if 0 <= i < names.len() && names[i] is Some && names[i]->0@ == wanted && (forall|j: int|
        0 <= j < i ==> !((#[trigger] names[j]) is Some && names[j]->0@ == wanted)) {
        assert forall|j: int| 0 <= j < i implies !#[trigger] goes_by(names, j, wanted) by {
            assert(!(names[j] is Some && names[j]->0@ == wanted));
        }
    }
    if is_first_named(names, i, wanted) {
        assert forall|j: int| 0 <= j < i implies !((#[trigger] names[j]) is Some && names[j]->0@
            == wanted) by {
            assert(!goes_by(names, j, wanted));
        }
    }
}

/// A stream is opened with the encoding that its device has told: binary32 numbers
/// for binary32 numbers, signed integers for signed ones and unsigned for unsigned.
pub proof fn streams_open_as_told(progress: Progress, kind: SampleKind, i: usize)
    ensures
        progress.calls_for(SetupAction::OpenOutput(kind)) ==> {
            &&& progress.output_config is Got
            &&& kind is F32 <==> progress.output_config->Got_0 is F32
            &&& kind is I16 <==> progress.output_config->Got_0 is I16
            &&& kind is U16 <==> progress.output_config->Got_0 is U16
        },
        progress.calls_for(SetupAction::OpenInput(i, kind)) ==> {
            &&& progress.input is Got
            &&& kind is F32 <==> progress.input->Got_0 is F32
            &&& kind is I16 <==> progress.input->Got_0 is I16
            &&& kind is U16 <==> progress.input->Got_0 is U16
        },
{
}

/// When each step is due: the step itself has not been tried, and all those before it
/// have worked. The input device is the first one of the name that was asked for.
/// The output comes before the input stream, and only with passthrough.
pub proof fn steps_are_due_in_order(progress: Progress, action: SetupAction)
    requires
        progress.calls_for(action),
    ensures
        action is ListInputs ==> progress.inputs is Untried,
        action matches SetupAction::ReadInput(i) ==> {
            &&& progress.inputs is Got && progress.input is Untried
            &&& i < progress.inputs->Got_0@.len()
            &&& progress.inputs->Got_0@[i as int] is Some
            &&& progress.inputs->Got_0@[i as int]->0@ == progress.config.input_device_name@
            &&& forall|j: int|
                0 <= j < i ==> !((#[trigger] progress.inputs->Got_0@[j]) is Some
                    && progress.inputs->Got_0@[j]->0@ == progress.config.input_device_name@)
        },
        action is FindOutput ==> progress.config.passthrough && progress.output is Untried,
        action is ReadOutput ==> progress.config.passthrough && progress.output is Got
            && progress.output_config is Untried,
        action is OpenOutput ==> progress.config.passthrough && progress.output is Got
            && progress.output_config is Got && progress.output_stream is Untried,
        action matches SetupAction::OpenInput(i, kind) ==> {
            &&& progress.inputs is Got && progress.input is Got && progress.input_stream is Untried
            &&& i < progress.inputs->Got_0@.len()
            &&& progress.inputs->Got_0@[i as int] is Some
            &&& progress.inputs->Got_0@[i as int]->0@ == progress.config.input_device_name@
            &&& forall|j: int|
                0 <= j < i ==> !((#[trigger] progress.inputs->Got_0@[j]) is Some
                    && progress.inputs->Got_0@[j]->0@ == progress.config.input_device_name@)
        },
        action is FindOutput || action is ReadOutput || action is OpenOutput || action is OpenInput
            || action is Finish ==> {
            &&& progress.inputs is Got && progress.input is Got
            &&& exists|i: int|
                0 <= i < progress.inputs->Got_0@.len() && (#[trigger] progress.inputs->Got_0@[i])
                    is Some && progress.inputs->Got_0@[i]->0@ == progress.config.input_device_name@
        },
        action is OpenInput || action is Finish ==> {
            &&& !(progress.input->Got_0 is Other)
            &&& progress.config.passthrough ==> progress.output is Got && progress.output_config
                is Got && !(progress.output_config->Got_0 is Other) && progress.output_stream is Got
        },
        action is Finish ==> progress.input_stream is Got,
{
    let wanted = progress.config.input_device_name@;
    if progress.inputs is Got {
        let names = progress.inputs->Got_0@;
        match action {
            SetupAction::ReadInput(i) => {
                devices_go_by_their_names(names, i as int, wanted);
            },
            SetupAction::OpenInput(i, _) => {
                devices_go_by_their_names(names, i as int, wanted);
                assert(names[i as int] is Some && names[i as int]->0@ == wanted);
            },
            _ => {
                if exists|i: int| progress.input_is_known(i) {
                    let i = choose|i: int| progress.input_is_known(i);
                    devices_go_by_their_names(names, i, wanted);
                    assert(names[i] is Some && names[i]->0@ == wanted);
                }
            },
        }
    }
}

/// When each failure is reported: the step that it names has failed, or found nothing
/// that can be used, and all those before it have worked.
pub proof fn failures_are_reported_in_order(progress: Progress, error: SetupError)
    requires
        progress.calls_for(SetupAction::Fail(error)),
    ensures
        error is ListInputs ==> progress.inputs is Failed,
        error matches SetupError::InputNotFound(name) ==> {
            &&& progress.inputs is Got && name@ == progress.config.input_device_name@
            &&& forall|j: int|
                0 <= j < progress.inputs->Got_0@.len() ==> !((#[trigger] progress.inputs->Got_0@[j])
                    is Some && progress.inputs->Got_0@[j]->0@
                    == progress.config.input_device_name@)
        },
        error is ReadInput ==> progress.inputs is Got && progress.input is Failed,
        error is NoOutput ==> progress.config.passthrough && progress.output is Failed,
        error is ReadOutput ==> progress.config.passthrough && progress.output is Got
            && progress.output_config is Failed,
        error matches SetupError::UnsupportedOutput(name) ==> {
            &&& progress.config.passthrough && progress.output is Got
            &&& progress.output_config matches Known::Got(Encoding::Other(other)) && other@ == name@
        },
        error is OpenOutput ==> progress.config.passthrough && progress.output is Got
            && progress.output_config is Got && !(progress.output_config->Got_0 is Other)
            && progress.output_stream is Failed,
        error matches SetupError::UnsupportedInput(name) ==> {
            progress.input matches Known::Got(Encoding::Other(other)) && other@ == name@
        },
        error is OpenInput ==> progress.input is Got && !(progress.input->Got_0 is Other)
            && progress.input_stream is Failed,
        error is UnsupportedInput || error is OpenInput ==> (progress.config.passthrough
            ==> progress.output_stream is Got),
        !(error is ListInputs || error is InputNotFound) ==> progress.inputs is Got && exists|i: int|
            0 <= i < progress.inputs->Got_0@.len() && (#[trigger] progress.inputs->Got_0@[i])
                is Some && progress.inputs->Got_0@[i]->0@ == progress.config.input_device_name@,
        !(error is ListInputs || error is InputNotFound || error is ReadInput) ==> progress.input
            is Got,
{
    let wanted = progress.config.input_device_name@;
    if progress.inputs is Got {
        let names = progress.inputs->Got_0@;
        if error is InputNotFound {
            assert forall|j: int| 0 <= j < names.len() implies !((#[trigger] names[j]) is Some
                && names[j]->0@ == wanted) by {
                assert(!goes_by(names, j, wanted));
            }
        }
        if error is ReadInput {
            let i = choose|i: int| is_first_named(names, i, wanted);
            devices_go_by_their_names(names, i, wanted);
            assert(names[i] is Some && names[i]->0@ == wanted);
        }
        if exists|i: int| progress.input_is_known(i) {
            let i = choose|i: int| progress.input_is_known(i);
            devices_go_by_their_names(names, i, wanted);
            assert(names[i] is Some && names[i]->0@ == wanted);
        }
    }
    if error is OpenOutput {
        let kind = choose|kind: SampleKind| progress.output_can_open(kind);
        assert(progress.output_can_open(kind));
    }
}

/// What an event leaves behind: what has come of its own step, and everything else as
/// it was.
pub proof fn events_are_recorded(progress: Progress, event: SetupEvent)
    ensures
        ({
            let after = progress.after(event);
            &&& after.config == progress.config
            &&& event matches SetupEvent::Inputs(Some(names)) ==> after.inputs == Known::Got(names)
            &&& event matches SetupEvent::Inputs(None) ==> after.inputs is Failed
            &&& !(event is Inputs) ==> after.inputs == progress.inputs
            &&& event matches SetupEvent::Input(Some(told)) ==> after.input == Known::Got(told)
            &&& event matches SetupEvent::Input(None) ==> after.input is Failed
            &&& !(event is Input) ==> after.input == progress.input
            &&& event matches SetupEvent::Output(true) ==> after.output is Got
            &&& event matches SetupEvent::Output(false) ==> after.output is Failed
            &&& !(event is Output) ==> after.output == progress.output
            &&& event matches SetupEvent::OutputConfig(Some(told)) ==> after.output_config
                == Known::Got(told)
            &&& event matches SetupEvent::OutputConfig(None) ==> after.output_config is Failed
            &&& !(event is OutputConfig) ==> after.output_config == progress.output_config
            &&& event matches SetupEvent::OutputStream(true) ==> after.output_stream is Got
            &&& event matches SetupEvent::OutputStream(false) ==> after.output_stream is Failed
            &&& !(event is OutputStream) ==> after.output_stream == progress.output_stream
            &&& event matches SetupEvent::InputStream(true) ==> after.input_stream is Got
            &&& event matches SetupEvent::InputStream(false) ==> after.input_stream is Failed
            &&& !(event is InputStream) ==> after.input_stream == progress.input_stream
        }),
        progress.is_new() <==> progress.inputs is Untried && progress.input is Untried
            && progress.output is Untried && progress.output_config is Untried
            && progress.output_stream is Untried && progress.input_stream is Untried,
{
}

/// What the errors say. Those about something that has a name end in that name or
/// hold it between quotes.
pub proof fn errors_say_what_failed(name: String)
    ensures
        SetupError::ListInputs.text() == "failed to enumerate input devices"@,
        SetupError::InputNotFound(name).text() == "input device '"@ + name@ + "' not found"@,
        SetupError::ReadInput.text()
            == "failed to read default input config for selected device"@,
        SetupError::NoOutput.text() == "no default output device available"@,
        SetupError::ReadOutput.text() == "failed to read default output config"@,
        SetupError::UnsupportedOutput(name).text() == "unsupported output sample format: "@ + name@,
        SetupError::OpenOutput.text() == "failed to build output stream"@,
        SetupError::UnsupportedInput(name).text() == "unsupported input sample format: "@ + name@,
        SetupError::OpenInput.text() == "failed to build input stream"@,
{
}

/// The room for passthrough: two samples for each of 4096 frames, or for two seconds
/// of frames if these are more.
pub proof fn passthrough_has_room_for_two_seconds(rate: int)
    requires
        rate >= 0,
    ensures
        passthrough_room(rate) >= 4 * rate,
        passthrough_room(rate) >= 2 * 4096,
        passthrough_room(rate) == 4 * rate || passthrough_room(rate) == 2 * 4096,
{
}

} // verus!
