use tunes::instruments::drums::DrumType;
use tunes::key_signature::{KeyMode, KeyRoot, KeySignature};
use tunes::midi::events::{
    absolute_ticks, drum_messages, encode_meta_track, encode_track_messages, export_track, key_signature_event, melodic_channel,
    midi_to_time_signature_denominator, note_messages, sort_by_tick, tick_deltas,
    time_signature_denominator_to_midi, time_signature_event, track_messages, ChannelAllocator,
    ChannelMessage, TrackItem,
    DeltaMessage, MetaEvent, TimedMessage, PITCH_BEND_CENTER,
};
use tunes::midi::{DEFAULT_VELOCITY, PPQ};
use tunes::midi::smf::{decode_midi, encode_midi, ExportTrack, MidiDecodeError};
use tunes::midi::import::{
    import_tracks, scan_timing_changes, ImportedEvent, IncomingEvent, IncomingMessage, TimingChange,
    TrackImporter,
};

fn timed(tick: u32, message: ChannelMessage) -> TimedMessage {
    TimedMessage { tick, message }
}

fn midi(channel: u8, message: IncomingMessage) -> IncomingEvent {
    IncomingEvent::Midi { channel, message }
}

#[test]
fn denominators_to_midi_powers() {
    assert_eq!(time_signature_denominator_to_midi(2), 1);
    assert_eq!(time_signature_denominator_to_midi(4), 2);
    assert_eq!(time_signature_denominator_to_midi(8), 3);
    assert_eq!(time_signature_denominator_to_midi(16), 4);
    assert_eq!(time_signature_denominator_to_midi(32), 5);
    // Anything else is written as a quarter-note meter.
    assert_eq!(time_signature_denominator_to_midi(3), 2);
    assert_eq!(time_signature_denominator_to_midi(64), 2);
    for d in [2u8, 4, 8, 16, 32] {
        assert_eq!(midi_to_time_signature_denominator(time_signature_denominator_to_midi(d)), d);
    }
    assert_eq!(midi_to_time_signature_denominator(0), 1);
    assert_eq!(midi_to_time_signature_denominator(7), 128);
}

#[test]
fn meta_events() {
    assert_eq!(
        time_signature_event(6, 8),
        MetaEvent::TimeSignature {
            numerator: 6,
            denominator_power: 3,
            clocks_per_click: 24,
            thirty_seconds_per_quarter: 8
        }
    );
    assert_eq!(
        key_signature_event(KeySignature::new(KeyRoot::E, KeyMode::Minor)),
        MetaEvent::KeySignature { sharps_flats: 1, minor: true }
    );
    assert_eq!(
        key_signature_event(KeySignature::new(KeyRoot::Bf, KeyMode::Major)),
        MetaEvent::KeySignature { sharps_flats: -2, minor: false }
    );
    assert_eq!(PPQ, 480);
}

#[test]
fn melodic_channels_skip_drums() {
    assert_eq!(melodic_channel(0), 0);
    assert_eq!(melodic_channel(8), 8);
    assert_eq!(melodic_channel(9), 10);
    assert_eq!(melodic_channel(14), 15);
    assert_eq!(melodic_channel(15), 0);
    let all: Vec<u8> = (0..15).map(melodic_channel).collect();
    assert!(!all.contains(&9));
    let mut sorted = all.clone();
    sorted.sort();
    sorted.dedup();
    assert_eq!(sorted.len(), 15);
}

#[test]
fn allocator_gives_drums_channel_nine() {
    let mut a = ChannelAllocator::new();
    assert_eq!(a.allocate(false), 0);
    assert_eq!(a.allocate(true), 9);
    assert_eq!(a.allocate(false), 1);
    assert_eq!(a.allocate(true), 9);
    for _ in 0..7 {
        a.allocate(false);
    }
    assert_eq!(a.allocate(false), 10);
}

#[test]
fn chord_messages_with_and_without_bend() {
    let plain = note_messages(0, 480, 100, &vec![60, 64], None);
    assert_eq!(
        plain,
        vec![
            timed(0, ChannelMessage::NoteOn { note: 60, velocity: 100 }),
            timed(480, ChannelMessage::NoteOff { note: 60 }),
            timed(0, ChannelMessage::NoteOn { note: 64, velocity: 100 }),
            timed(480, ChannelMessage::NoteOff { note: 64 }),
        ]
    );
    let bent = note_messages(10, 20, 90, &vec![67], Some(10000));
    assert_eq!(
        bent,
        vec![
            timed(10, ChannelMessage::PitchBend { bend: 10000 }),
            timed(10, ChannelMessage::NoteOn { note: 67, velocity: 90 }),
            timed(20, ChannelMessage::NoteOff { note: 67 }),
            timed(20, ChannelMessage::PitchBend { bend: PITCH_BEND_CENTER }),
        ]
    );
}

#[test]
fn drum_hits_last_ten_ticks() {
    assert_eq!(
        drum_messages(100, DrumType::Kick),
        vec![
            timed(100, ChannelMessage::NoteOn { note: 36, velocity: DEFAULT_VELOCITY }),
            timed(110, ChannelMessage::NoteOff { note: 36 }),
        ]
    );
    assert_eq!(DEFAULT_VELOCITY, 80);
}

#[test]
fn sorting_is_stable() {
    let msgs = vec![
        timed(480, ChannelMessage::NoteOff { note: 60 }),
        timed(0, ChannelMessage::NoteOn { note: 60, velocity: 1 }),
        timed(480, ChannelMessage::NoteOn { note: 62, velocity: 2 }),
        timed(0, ChannelMessage::ControlChange { controller: 7, value: 3 }),
        timed(240, ChannelMessage::ProgramChange { program: 4 }),
    ];
    let sorted = sort_by_tick(&msgs);
    assert_eq!(
        sorted,
        vec![
            timed(0, ChannelMessage::NoteOn { note: 60, velocity: 1 }),
            timed(0, ChannelMessage::ControlChange { controller: 7, value: 3 }),
            timed(240, ChannelMessage::ProgramChange { program: 4 }),
            timed(480, ChannelMessage::NoteOff { note: 60 }),
            timed(480, ChannelMessage::NoteOn { note: 62, velocity: 2 }),
        ]
    );
}

#[test]
fn deltas_and_absolute_ticks() {
    let ticks = vec![0, 100, 100, 250, 1000];
    let deltas = tick_deltas(&ticks);
    assert_eq!(deltas, vec![0, 100, 0, 150, 750]);
    assert_eq!(absolute_ticks(&deltas), ticks);
    // A tick earlier than the one before gives a zero delta.
    assert_eq!(tick_deltas(&vec![50, 20, 70]), vec![50, 0, 50]);
}

#[test]
fn encoded_track_is_sorted_with_deltas() {
    let mut msgs = note_messages(0, 480, 100, &vec![60], None);
    msgs.extend(drum_messages(240, DrumType::Snare));
    let encoded = encode_track_messages(&msgs);
    assert_eq!(
        encoded,
        vec![
            DeltaMessage { delta: 0, message: ChannelMessage::NoteOn { note: 60, velocity: 100 } },
            DeltaMessage { delta: 240, message: ChannelMessage::NoteOn { note: 38, velocity: 80 } },
            DeltaMessage { delta: 10, message: ChannelMessage::NoteOff { note: 38 } },
            DeltaMessage { delta: 230, message: ChannelMessage::NoteOff { note: 60 } },
        ]
    );
}

#[test]
fn importer_pairs_notes() {
    let mut t = TrackImporter::new();
    t.process(0, IncomingEvent::TrackName { name: b"Lead".to_vec() });
    t.process(0, midi(2, IncomingMessage::PitchBend { bend: 4096 }));
    t.process(10, midi(2, IncomingMessage::NoteOn { note: 60, velocity: 100 }));
    t.process(0, midi(2, IncomingMessage::PitchBend { bend: 0 }));
    t.process(470, midi(2, IncomingMessage::NoteOff { note: 60 }));
    assert_eq!(t.tick(), 480);
    let track = t.finish();
    assert_eq!(track.name, Some(b"Lead".to_vec()));
    assert_eq!(
        track.events,
        vec![ImportedEvent::Note {
            channel: 2,
            note: 60,
            start_tick: 10,
            end_tick: Some(480),
            velocity: 100,
            pitch_bend: 4096,
        }]
    );
}

#[test]
fn velocity_zero_releases_and_program_is_stored() {
    let mut t = TrackImporter::new();
    t.process(0, midi(0, IncomingMessage::ProgramChange { program: 40 }));
    t.process(0, midi(0, IncomingMessage::NoteOn { note: 64, velocity: 90 }));
    t.process(240, midi(0, IncomingMessage::NoteOn { note: 64, velocity: 0 }));
    let track = t.finish();
    assert_eq!(track.program, Some(40));
    assert_eq!(
        track.events,
        vec![ImportedEvent::Note {
            channel: 0,
            note: 64,
            start_tick: 0,
            end_tick: Some(240),
            velocity: 90,
            pitch_bend: 0,
        }]
    );
}

#[test]
fn drum_channel_notes_become_drum_hits() {
    let mut t = TrackImporter::new();
    t.process(100, midi(9, IncomingMessage::NoteOn { note: 36, velocity: 80 }));
    t.process(10, midi(9, IncomingMessage::NoteOff { note: 36 }));
    // A key with no drum is dropped.
    t.process(0, midi(9, IncomingMessage::NoteOn { note: 20, velocity: 80 }));
    t.process(10, midi(9, IncomingMessage::NoteOff { note: 20 }));
    let track = t.finish();
    assert_eq!(
        track.events,
        vec![ImportedEvent::Drum { drum: DrumType::Kick, start_tick: 100 }]
    );
}

#[test]
fn hanging_notes_are_kept_without_end() {
    let mut t = TrackImporter::new();
    t.process(0, midi(3, IncomingMessage::NoteOn { note: 70, velocity: 50 }));
    t.process(5, midi(1, IncomingMessage::NoteOn { note: 72, velocity: 60 }));
    // Releasing a key that is not pressed does nothing.
    t.process(5, midi(1, IncomingMessage::NoteOff { note: 10 }));
    let track = t.finish();
    assert_eq!(
        track.events,
        vec![
            ImportedEvent::Note {
                channel: 1,
                note: 72,
                start_tick: 5,
                end_tick: None,
                velocity: 60,
                pitch_bend: 0,
            },
            ImportedEvent::Note {
                channel: 3,
                note: 70,
                start_tick: 0,
                end_tick: None,
                velocity: 50,
                pitch_bend: 0,
            },
        ]
    );
}

#[test]
fn pressing_again_restarts_the_note() {
    let mut t = TrackImporter::new();
    t.process(0, midi(0, IncomingMessage::NoteOn { note: 60, velocity: 10 }));
    t.process(100, midi(0, IncomingMessage::NoteOn { note: 60, velocity: 20 }));
    t.process(100, midi(0, IncomingMessage::NoteOff { note: 60 }));
    let track = t.finish();
    assert_eq!(
        track.events,
        vec![ImportedEvent::Note {
            channel: 0,
            note: 60,
            start_tick: 100,
            end_tick: Some(200),
            velocity: 20,
            pitch_bend: 0,
        }]
    );
}

#[test]
fn controllers_are_ignored() {
    let mut t = TrackImporter::new();
    t.process(0, midi(0, IncomingMessage::Controller { controller: 7, value: 100 }));
    t.process(0, midi(0, IncomingMessage::Controller { controller: 10, value: 20 }));
    t.process(0, midi(0, IncomingMessage::Controller { controller: 1, value: 5 }));
    t.process(0, midi(0, IncomingMessage::Controller { controller: 11, value: 64 }));
    t.process(0, midi(0, IncomingMessage::Other));
    t.process(0, IncomingEvent::OtherMeta);
    let track = t.finish();
    assert_eq!(track.program, None);
    assert!(track.events.is_empty());
}

#[test]
fn timing_changes_have_absolute_ticks() {
    let events = vec![
        (0, IncomingEvent::Tempo { micros_per_quarter: 500_000 }),
        (0, IncomingEvent::TimeSignature { numerator: 3, denominator_power: 2 }),
        (960, IncomingEvent::OtherMeta),
        (480, IncomingEvent::TimeSignature { numerator: 6, denominator_power: 3 }),
        (0, IncomingEvent::Tempo { micros_per_quarter: 400_000 }),
    ];
    assert_eq!(
        scan_timing_changes(&events),
        vec![
            TimingChange::Tempo { tick: 0, micros_per_quarter: 500_000 },
            TimingChange::Meter { tick: 0, numerator: 3, denominator: 4 },
            TimingChange::Meter { tick: 1440, numerator: 6, denominator: 8 },
            TimingChange::Tempo { tick: 1440, micros_per_quarter: 400_000 },
        ]
    );
}

#[test]
fn track_items_become_messages_in_order() {
    let items = vec![
        TrackItem::Note { start_tick: 0, end_tick: 240, velocity: 64, notes: vec![60], pitch_bend: None },
        TrackItem::Drum { tick: 120, drum: DrumType::Kick },
        TrackItem::Control { tick: 60, controller: 11, value: 100 },
    ];
    assert_eq!(
        track_messages(&items),
        vec![
            timed(0, ChannelMessage::NoteOn { note: 60, velocity: 64 }),
            timed(240, ChannelMessage::NoteOff { note: 60 }),
            timed(120, ChannelMessage::NoteOn { note: 36, velocity: 80 }),
            timed(130, ChannelMessage::NoteOff { note: 36 }),
            timed(60, ChannelMessage::ControlChange { controller: 11, value: 100 }),
        ]
    );
    let exported = export_track(Some(5), Some(100), None, &items);
    assert_eq!(
        exported,
        vec![
            DeltaMessage { delta: 0, message: ChannelMessage::ProgramChange { program: 5 } },
            DeltaMessage { delta: 0, message: ChannelMessage::ControlChange { controller: 7, value: 100 } },
            DeltaMessage { delta: 0, message: ChannelMessage::NoteOn { note: 60, velocity: 64 } },
            DeltaMessage { delta: 60, message: ChannelMessage::ControlChange { controller: 11, value: 100 } },
            DeltaMessage { delta: 60, message: ChannelMessage::NoteOn { note: 36, velocity: 80 } },
            DeltaMessage { delta: 10, message: ChannelMessage::NoteOff { note: 36 } },
            DeltaMessage { delta: 110, message: ChannelMessage::NoteOff { note: 60 } },
        ]
    );
    assert!(export_track(None, None, None, &vec![]).is_empty());
}

#[test]
fn meta_track_deltas() {
    let events = vec![
        (0, MetaEvent::Tempo { micros_per_quarter: 500_000 }),
        (0, time_signature_event(4, 4)),
        (1920, MetaEvent::Tempo { micros_per_quarter: 400_000 }),
        (1000, time_signature_event(3, 4)),
    ];
    let encoded = encode_meta_track(&events);
    assert_eq!(encoded.iter().map(|e| e.0).collect::<Vec<u32>>(), vec![0, 0, 1920, 0]);
    assert_eq!(encoded[2].1, MetaEvent::Tempo { micros_per_quarter: 400_000 });
}

#[test]
fn midi_bytes_round_trip() {
    let items = vec![TrackItem::Note { start_tick: 0, end_tick: 480, velocity: 100, notes: vec![60, 64], pitch_bend: Some(9000) }];
    let messages = export_track(Some(3), None, None, &items);
    let tempo = vec![(0, MetaEvent::Tempo { micros_per_quarter: 500_000 }), (0, time_signature_event(3, 4))];
    let bytes = encode_midi(480, &tempo, &vec![ExportTrack { name: b"Lead".to_vec(), channel: 2, messages }]).unwrap();
    assert_eq!(&bytes[0..14], &[0x4d, 0x54, 0x68, 0x64, 0, 0, 0, 6, 0, 1, 0, 2, 0x01, 0xe0]);
    let parsed = decode_midi(&bytes).unwrap();
    assert_eq!(parsed.ticks_per_quarter, 480);
    assert_eq!(parsed.tracks.len(), 2);
    assert_eq!(parsed.tracks[0][0], (0, IncomingEvent::Tempo { micros_per_quarter: 500_000 }));
    assert_eq!(parsed.tracks[0][1], (0, IncomingEvent::TimeSignature { numerator: 3, denominator_power: 2 }));
    assert_eq!(parsed.tracks[0][2], (0, IncomingEvent::OtherMeta));
    let mut importer = TrackImporter::new();
    for (delta, event) in parsed.tracks.into_iter().nth(1).unwrap() {
        importer.process(delta, event);
    }
    let track = importer.finish();
    assert_eq!(track.name, Some(b"Lead".to_vec()));
    assert_eq!(track.program, Some(3));
    let note = |note| ImportedEvent::Note {
        channel: 2,
        note,
        start_tick: 0,
        end_tick: Some(480),
        velocity: 100,
        pitch_bend: 9000 - 8192,
    };
    assert_eq!(track.events, vec![note(60), note(64)]);
    assert_eq!(decode_midi(&[1, 2, 3]).err(), Some(MidiDecodeError::Malformed));
}

#[test]
fn tracks_without_notes_are_left_out() {
    let tracks = vec![
        vec![(0, IncomingEvent::Tempo { micros_per_quarter: 500_000 }), (0, IncomingEvent::OtherMeta)],
        vec![
            (0, IncomingEvent::TrackName { name: b"Bass".to_vec() }),
            (0, midi(1, IncomingMessage::NoteOn { note: 40, velocity: 90 })),
            (240, midi(1, IncomingMessage::NoteOff { note: 40 })),
        ],
        vec![(10, midi(9, IncomingMessage::NoteOn { note: 38, velocity: 90 }))],
    ];
    let read = import_tracks(tracks);
    assert_eq!(read.len(), 2);
    assert_eq!(read[0].name, Some(b"Bass".to_vec()));
    assert_eq!(
        read[0].events,
        vec![ImportedEvent::Note {
            channel: 1,
            note: 40,
            start_tick: 0,
            end_tick: Some(240),
            velocity: 90,
            pitch_bend: 0,
        }]
    );
    assert_eq!(read[1].events, vec![ImportedEvent::Drum { drum: DrumType::Snare, start_tick: 10 }]);
}

#[test]
fn controls_do_not_change_the_notes() {
    let with_controls = vec![
        (0, midi(0, IncomingMessage::ProgramChange { program: 40 })),
        (10, midi(0, IncomingMessage::Controller { controller: 7, value: 30 })),
        (5, midi(0, IncomingMessage::NoteOn { note: 60, velocity: 90 })),
        (100, midi(0, IncomingMessage::Controller { controller: 10, value: 0 })),
        (20, midi(0, IncomingMessage::NoteOff { note: 60 })),
        (7, midi(0, IncomingMessage::Controller { controller: 11, value: 1 })),
    ];
    let without = vec![
        (15, midi(0, IncomingMessage::NoteOn { note: 60, velocity: 90 })),
        (120, midi(0, IncomingMessage::NoteOff { note: 60 })),
    ];
    let a = import_tracks(vec![with_controls]);
    let b = import_tracks(vec![without]);
    assert_eq!(a[0].events, b[0].events);
    assert_eq!(a[0].name, b[0].name);
    assert_eq!(a[0].program, Some(40));
    assert_eq!(b[0].program, None);
    assert_eq!(
        a[0].events,
        vec![ImportedEvent::Note {
            channel: 0,
            note: 60,
            start_tick: 15,
            end_tick: Some(135),
            velocity: 90,
            pitch_bend: 0,
        }]
    );
}
