use mopidy_sound_visualizer::binary32::Binary32;
use mopidy_sound_visualizer::service::{
    capture_config, is_spectrum, main_step, pipeline_description, relay_period_millis, relay_step,
    sse_message, stream_step, BuildInfo, BusMessage, BusPoll, InstanceInfo, MainAction, MainEvent,
    RelayAction, RelayEvent, StreamStep,
};

fn bands(list: &[f32]) -> Vec<Binary32> {
    list.iter().map(|x| Binary32::from_bits(x.to_bits())).collect()
}

fn first(list: &[Binary32]) -> f32 {
    f32::from_bits(list[0].to_bits())
}

#[test]
fn pipeline_is_described_with_the_settings() {
    let expected = "
            udpsrc port=5556 caps=\"audio/x-raw,rate=96000,channels=1,format=S16LE\" !
            queue !
            spectrum name=spec interval=500000 bands=4096 threshold=-100 ! fakesink
            ";
    assert_eq!(pipeline_description(), expected);
}

#[test]
fn only_spectrum_messages_count() {
    assert!(is_spectrum("spectrum"));
    assert!(!is_spectrum("Spectrum"));
    assert!(!is_spectrum("spectrum "));
    assert!(!is_spectrum(""));
}

#[test]
fn magnitudes_are_handed_on() {
    let magnitudes = Some(bands(&[-3.5]));
    let step = stream_step(BusPoll::Message(BusMessage::Element { magnitudes }));
    assert!(matches!(step, StreamStep::Item(list) if first(&list) == -3.5));
}

#[test]
fn other_messages_are_waited_out() {
    let empty = BusMessage::Element { magnitudes: None };
    assert!(matches!(stream_step(BusPoll::Message(empty)), StreamStep::Pending));
    assert!(matches!(stream_step(BusPoll::Message(BusMessage::Other)), StreamStep::Pending));
    assert!(matches!(stream_step(BusPoll::Pending), StreamStep::Pending));
}

#[test]
fn the_stream_finishes_with_its_source() {
    assert!(matches!(stream_step(BusPoll::Closed), StreamStep::Finished));
    assert!(matches!(stream_step(BusPoll::Message(BusMessage::Eos)), StreamStep::Finished));
    assert!(matches!(stream_step(BusPoll::Message(BusMessage::Error)), StreamStep::Finished));
}

#[test]
fn capture_is_configured_like_the_pipeline() {
    let config = capture_config();
    assert_eq!(f32::from_bits(config.db_threshold.to_bits()), -100.0);
    assert_eq!(config.sampling_rate, 96000);
    assert_eq!(relay_period_millis(), 10);
}

#[test]
fn the_relay_sends_levels_of_new_spectra() {
    let latest = Some(bands(&[-36.0; 4096]));
    match relay_step(RelayEvent::Tick { latest }) {
        RelayAction::Send(levels) => {
            assert_eq!(levels.len(), 100);
            assert!(levels.iter().all(|x| f32::from_bits(x.to_bits()) == 64.0));
        }
        _ => panic!("nothing was sent"),
    }
    assert!(matches!(relay_step(RelayEvent::Tick { latest: None }), RelayAction::Wait));
    assert!(matches!(relay_step(RelayEvent::Cancelled), RelayAction::Stop));
}

#[test]
fn the_main_loop_ends_by_interrupt_or_with_the_stream() {
    assert!(matches!(
        main_step(MainEvent::Interrupted),
        MainAction::Stop { stream_finished: false }
    ));
    assert!(matches!(
        main_step(MainEvent::Received(None)),
        MainAction::Stop { stream_finished: true }
    ));
    assert!(matches!(main_step(MainEvent::ReportDue), MainAction::Report));
    let action = main_step(MainEvent::Received(Some(bands(&[-7.0]))));
    assert!(matches!(action, MainAction::Publish(list) if first(&list) == -7.0));
}

#[test]
fn missed_levels_are_not_sent() {
    assert!(sse_message(None, 17).is_none());
    let message = sse_message(Some(bands(&[2.5, 1.0])), 1700000000123).unwrap();
    assert_eq!(message.timestamp, 1700000000123);
    assert_eq!(message.data.len(), 2);
    assert_eq!(first(&message.data), 2.5);
}

#[test]
fn missing_information_is_unknown() {
    let info = BuildInfo::new(None, "1.2.3".to_string(), "today".to_string());
    assert_eq!(info.git_sha, "unknown");
    assert_eq!(info.pkg_version, "1.2.3");
    assert_eq!(info.build_time, "today");
    assert_eq!(BuildInfo::new(Some("abc".to_string()), String::new(), String::new()).git_sha, "abc");
    let info = InstanceInfo::new(None, Some("Linux".to_string()));
    assert_eq!(info.os_release, "unknown");
    assert_eq!(info.os_type, "Linux");
}
