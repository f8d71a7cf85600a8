//! The settings of the service and the decisions of its loops.

use crate::binary32;
use crate::binary32::Binary32;
use crate::nearness;
use crate::transformation;
use crate::transformation::{transform_bands, Config};
use vstd::prelude::*;
use vstd::string::*;

verus! {

/// Samples per second of the sound that is listened to.
pub const SAMPLING_RATE: u32 = 96000;

/// The port on which sound is listened to.
pub const GST_PORT: u16 = 5556;

/// How many decibels below full scale the threshold of the spectrum is.
pub const DB_THRESHOLD: u8 = 100;

/// How many times a second new levels are handed out.
pub const EV_PER_SECOND: u64 = 100;

/// What stands in for a text that is not known.
pub open spec fn unknown() -> Seq<char> {
    "unknown"@
}

/// The decimal digit of a number below ten.
pub open spec fn digit(d: nat) -> char {
    ('0' as u32 + d) as char
}

/// A number in decimal digits.
pub open spec fn decimal(n: nat) -> Seq<char>
    decreases n,
{
    if n < 10 {
        seq![digit(n)]
    } else {
        decimal(n / 10).push(digit(n % 10))
    }
}

/// The description of the capture pipeline with the given settings.
pub open spec fn pipeline_text(port: nat, sampling_rate: nat, db_threshold: nat) -> Seq<char> {
    "\n            udpsrc port="@ + decimal(port) + " caps=\"audio/x-raw,rate="@ + decimal(
        sampling_rate,
    )
        + ",channels=1,format=S16LE\" !\n            queue !\n            spectrum name=spec interval=500000 bands=4096 threshold=-"@
        + decimal(db_threshold) + " ! fakesink\n            "@
}

fn digit_text(d: u32) -> (text: &'static str)
    requires
        d < 10,
    ensures
        text@ == seq![digit(d as nat)],
{
    proof {
        reveal_strlit("0");
        reveal_strlit("1");
        reveal_strlit("2");
        reveal_strlit("3");
        reveal_strlit("4");
        reveal_strlit("5");
        reveal_strlit("6");
        reveal_strlit("7");
        reveal_strlit("8");
        reveal_strlit("9");
    }
    match d {
        0 => "0",
        1 => "1",
        2 => "2",
        3 => "3",
        4 => "4",
        5 => "5",
        6 => "6",
        7 => "7",
        8 => "8",
        _ => "9",
    }
}

/// A number in decimal digits.
fn decimal_text(n: u32) -> (text: String)
    ensures
        text@ == decimal(n as nat),
    decreases n,
{
    let mut text: String = if n < 10 {
        String::new()
    } else {
        decimal_text(n / 10)
    };
    text.append(digit_text(n % 10));
    assert(text@ =~= decimal(n as nat));
    text
}

/// The description of the pipeline that captures sound and takes its spectrum.
pub fn pipeline_description() -> (text: String)
    ensures
        text@ == pipeline_text(GST_PORT as nat, SAMPLING_RATE as nat, DB_THRESHOLD as nat),
        text@
            == "\n            udpsrc port=5556 caps=\"audio/x-raw,rate=96000,channels=1,format=S16LE\" !\n            queue !\n            spectrum name=spec interval=500000 bands=4096 threshold=-100 ! fakesink\n            "@,
{
    let mut text: String = "\n            udpsrc port=".to_owned();
    text.append(decimal_text(GST_PORT as u32).as_str());
    text.append(" caps=\"audio/x-raw,rate=");
    text.append(decimal_text(SAMPLING_RATE).as_str());
    text.append(",channels=1,format=S16LE\" !\n            queue !\n            spectrum name=spec interval=500000 bands=4096 threshold=-");
    text.append(decimal_text(DB_THRESHOLD as u32).as_str());
    text.append(" ! fakesink\n            ");
    proof {
        reveal_strlit("\n            udpsrc port=");
        reveal_strlit(" caps=\"audio/x-raw,rate=");
        reveal_strlit(
            ",channels=1,format=S16LE\" !\n            queue !\n            spectrum name=spec interval=500000 bands=4096 threshold=-",
        );
        reveal_strlit(" ! fakesink\n            ");
        reveal_strlit(
            "\n            udpsrc port=5556 caps=\"audio/x-raw,rate=96000,channels=1,format=S16LE\" !\n            queue !\n            spectrum name=spec interval=500000 bands=4096 threshold=-100 ! fakesink\n            ",
        );
        reveal_with_fuel(decimal, 6);
        assert(text@
            =~= "\n            udpsrc port=5556 caps=\"audio/x-raw,rate=96000,channels=1,format=S16LE\" !\n            queue !\n            spectrum name=spec interval=500000 bands=4096 threshold=-100 ! fakesink\n            "@);
    }
    text
}

/// Whether an element message with the given name carries a spectrum.
pub fn is_spectrum(name: &str) -> (spectrum: bool)
    ensures
        spectrum == (name@ == "spectrum"@),
{
    let name: String = name.to_owned();
    name.eq(&"spectrum".to_owned())
}

/// A message of the capture pipeline. An element message has magnitudes when it carries a
/// spectrum and its magnitudes can be read.
pub enum BusMessage {
    Element { magnitudes: Option<Vec<Binary32>> },
    Eos,
    Error,
    Other,
}

/// What a look at the messages of the pipeline gives.
pub enum BusPoll {
    Pending,
    Closed,
    Message(BusMessage),
}

/// What the stream of spectra answers.
pub enum StreamStep {
    Pending,
    Finished,
    Item(Vec<Binary32>),
}

/// What the stream of spectra answers to a look at the messages: magnitudes are handed on, the
/// end of the messages, of the sound and an error finish the stream, and all else is waited out.
pub open spec fn stream_answer(polled: BusPoll) -> StreamStep {
    match polled {
        BusPoll::Message(BusMessage::Element { magnitudes: Some(magnitudes) }) => StreamStep::Item(
            magnitudes,
        ),
        BusPoll::Message(BusMessage::Eos) => StreamStep::Finished,
        BusPoll::Message(BusMessage::Error) => StreamStep::Finished,
        BusPoll::Closed => StreamStep::Finished,
        _ => StreamStep::Pending,
    }
}

/// What the stream of spectra answers.
pub fn stream_step(polled: BusPoll) -> (step: StreamStep)
    ensures
        step == stream_answer(polled),
        match polled {
            BusPoll::Message(BusMessage::Element { magnitudes: Some(list) }) => step
                == StreamStep::Item(list),
            BusPoll::Message(BusMessage::Element { magnitudes: None }) => step is Pending,
            BusPoll::Message(BusMessage::Eos) => step is Finished,
            BusPoll::Message(BusMessage::Error) => step is Finished,
            BusPoll::Message(BusMessage::Other) => step is Pending,
            BusPoll::Closed => step is Finished,
            BusPoll::Pending => step is Pending,
        },
{
    match polled {
        BusPoll::Message(message) => match message {
            BusMessage::Element { magnitudes } => match magnitudes {
                Some(magnitudes) => StreamStep::Item(magnitudes),
                None => StreamStep::Pending,
            },
            BusMessage::Eos => StreamStep::Finished,
            BusMessage::Error => StreamStep::Finished,
            BusMessage::Other => StreamStep::Pending,
        },
        BusPoll::Closed => StreamStep::Finished,
        BusPoll::Pending => StreamStep::Pending,
    }
}

/// What the capture pipeline takes its spectra with.
pub fn capture_config() -> (config: Config)
    ensures
        config.db_threshold@ == binary32::opposite(binary32::whole(DB_THRESHOLD as nat)),
        config.sampling_rate == SAMPLING_RATE,
        config.sampling_rate == 96000,
        binary32::is_finite(config.db_threshold@),
        binary32::signed(config.db_threshold@) == -100 * nearness::one(),
{
    proof {
        binary32::lemma_whole_exact(100);
    }
    Config {
        db_threshold: Binary32::from_whole(DB_THRESHOLD as u64).negate(),
        sampling_rate: SAMPLING_RATE,
    }
}

/// The time between two looks for a new spectrum, in milliseconds.
pub fn relay_period_millis() -> (period: u64)
    ensures
        period == 1000u64 / EV_PER_SECOND,
        period == 10,
{
    1000 / EV_PER_SECOND
}

/// What the relay between capture and listeners wakes up for: its period is over, with the
/// latest spectrum if there is a new one, or the service ends.
pub enum RelayEvent {
    Tick { latest: Option<Vec<Binary32>> },
    Cancelled,
}

/// What the relay does next.
pub enum RelayAction {
    Wait,
    Send(Vec<Binary32>),
    Stop,
}

/// What the relay does next: it sends the levels of a new spectrum.
pub fn relay_step(event: RelayEvent) -> (action: RelayAction)
    requires
        event matches RelayEvent::Tick { latest: Some(bands) } ==> 0 < bands.len() <= u32::MAX,
    ensures
        match event {
            RelayEvent::Cancelled => action is Stop,
            RelayEvent::Tick { latest: None } => action is Wait,
            RelayEvent::Tick { latest: Some(bands) } => action matches RelayAction::Send(levels)
                && levels.len() == transformation::LOG_BANDS && transformation::data_of(levels@)
                == transformation::transformed(
                transformation::data_of(bands@),
                binary32::opposite(binary32::whole(DB_THRESHOLD as nat)),
                SAMPLING_RATE as nat,
            ),
        },
{
    match event {
        RelayEvent::Cancelled => RelayAction::Stop,
        RelayEvent::Tick { latest } => match latest {
            None => RelayAction::Wait,
            Some(bands) => {
                proof {
                    lemma_threshold_is_negative();
                }
                RelayAction::Send(transform_bands(bands, capture_config()))
            },
        },
    }
}

/// The threshold of the capture pipeline is below zero.
proof fn lemma_threshold_is_negative()
    ensures
        binary32::is_less(
            binary32::opposite(binary32::whole(DB_THRESHOLD as nat)),
            transformation::zero(),
        ),
{
    let x = binary32::whole(DB_THRESHOLD as nat);
    binary32::lemma_whole_exact(DB_THRESHOLD as nat);
    crate::rounding::lemma_units_increase(0, x->magnitude);
}

/// What the main loop wakes up for: an interrupt by the user, the time for a report, or the next
/// spectrum of the stream.
pub enum MainEvent {
    Interrupted,
    ReportDue,
    Received(Option<Vec<Binary32>>),
}

/// What the main loop does next.
pub enum MainAction {
    Report,
    Publish(Vec<Binary32>),
    Stop { stream_finished: bool },
}

/// What the main loop does next: it publishes spectra until it is interrupted or the stream is
/// finished, and then ends the service.
pub fn main_step(event: MainEvent) -> (action: MainAction)
    ensures
        action == match event {
            MainEvent::Interrupted => MainAction::Stop { stream_finished: false },
            MainEvent::ReportDue => MainAction::Report,
            MainEvent::Received(Some(magnitudes)) => MainAction::Publish(magnitudes),
            MainEvent::Received(None) => MainAction::Stop { stream_finished: true },
        },
{
    match event {
        MainEvent::Interrupted => MainAction::Stop { stream_finished: false },
        MainEvent::ReportDue => MainAction::Report,
        MainEvent::Received(received) => match received {
            Some(magnitudes) => MainAction::Publish(magnitudes),
            None => MainAction::Stop { stream_finished: true },
        },
    }
}

/// What a listener is sent.
pub struct SseMessage {
    pub data: Vec<Binary32>,
    pub timestamp: u128,
}

/// What a listener is sent at a time in milliseconds: the levels, or nothing when the listener
/// missed them.
pub fn sse_message(received: Option<Vec<Binary32>>, timestamp: u128) -> (message: Option<
    SseMessage,
>)
    ensures
        message == match received {
            Some(data) => Some(SseMessage { data, timestamp }),
            None => None,
        },
{
    match received {
        Some(data) => Some(SseMessage { data, timestamp }),
        None => None,
    }
}

fn or_unknown(text: Option<String>) -> (known: String)
    ensures
        known@ == match text {
            Some(text) => text@,
            None => unknown(),
        },
        text is None ==> known@ == "unknown"@,
{
    match text {
        Some(text) => text,
        None => "unknown".to_owned(),
    }
}

/// What the program was built from.
pub struct BuildInfo {
    pub git_sha: String,
    pub pkg_version: String,
    pub build_time: String,
}

impl BuildInfo {
    pub fn new(git_sha: Option<String>, pkg_version: String, build_time: String) -> (info: BuildInfo)
        ensures
            info.git_sha@ == match git_sha {
                Some(text) => text@,
                None => unknown(),
            },
            git_sha is None ==> info.git_sha@ == "unknown"@,
            info.pkg_version == pkg_version,
            info.build_time == build_time,
    {
        BuildInfo { git_sha: or_unknown(git_sha), pkg_version, build_time }
    }
}

/// What the program runs on.
pub struct InstanceInfo {
    pub os_release: String,
    pub os_type: String,
}

impl InstanceInfo {
    pub fn new(os_release: Option<String>, os_type: Option<String>) -> (info: InstanceInfo)
        ensures
            info.os_release@ == match os_release {
                Some(text) => text@,
                None => unknown(),
            },
            info.os_type@ == match os_type {
                Some(text) => text@,
                None => unknown(),
            },
            os_release is None ==> info.os_release@ == "unknown"@,
            os_type is None ==> info.os_type@ == "unknown"@,
    {
        InstanceInfo { os_release: or_unknown(os_release), os_type: or_unknown(os_type) }
    }
}

} // verus!
