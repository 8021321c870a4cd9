use std::collections::HashMap;
use tunes::instruments::drums::DrumType;
use tunes::midi::events::{drum_messages, encode_track_messages, note_messages};
use tunes::midi::{drum_type_to_midi_note, midi_note_to_drum_type};
use tunes::midi::import::{ImportedEvent, IncomingEvent, IncomingMessage, TrackImporter};
use tunes::midi::events::ChannelMessage;
use tunes::sequences::{
    arithmetic, cellular_automaton, collatz, euclidean_pattern, geometric, lsystem, powers_of_two,
    recaman, thue_morse,
};

#[test]
fn powers_and_progressions() {
    assert_eq!(powers_of_two(0), Vec::<u32>::new());
    assert_eq!(powers_of_two(5), vec![1, 2, 4, 8, 16]);
    assert_eq!(powers_of_two(32)[31], 1 << 31);
    assert_eq!(arithmetic(5, 3, 4), vec![5, 8, 11, 14]);
    assert_eq!(arithmetic(7, 0, 3), vec![7, 7, 7]);
    assert_eq!(geometric(3, 2, 5), vec![3, 6, 12, 24, 48]);
    assert_eq!(geometric(1, 10, 4), vec![1, 10, 100, 1000]);
    assert_eq!(geometric(5, 0, 3), vec![5, 0, 0]);
}

#[test]
fn recaman_steps_by_position() {
    let seq = recaman(60);
    for i in 1..seq.len() {
        let prev = seq[i - 1] as i64;
        let cur = seq[i] as i64;
        let i64i = i as i64;
        assert!(cur == prev + i64i || (cur == prev - i64i && cur > 0 && !seq[..i].contains(&seq[i])));
    }
}

#[test]
fn collatz_runs_follow_the_rule() {
    let run = collatz(27, 200);
    assert_eq!(*run.last().unwrap(), 1);
    assert_eq!(run.len(), 112);
    for w in run.windows(2) {
        let expected = if w[0] % 2 == 0 { w[0] / 2 } else { 3 * w[0] + 1 };
        assert_eq!(w[1], expected);
    }
    let short = collatz(27, 10);
    assert_eq!(short.len(), 10);
    assert!(!short.contains(&1));
    assert_eq!(collatz(1, 5), vec![1]);
}

#[test]
fn rule_90_from_centre_stays_mirrored() {
    let rows = cellular_automaton(90, 20, 31, None);
    assert_eq!(rows.len(), 20);
    for row in &rows {
        let mut reversed = row.clone();
        reversed.reverse();
        assert_eq!(row, &reversed);
    }
}

#[test]
fn lsystem_iterations_compose() {
    let mut rules = HashMap::new();
    rules.insert('A', "AB".to_string());
    rules.insert('B', "A".to_string());
    let two = lsystem("A", &rules, 2);
    assert_eq!(lsystem(&two, &rules, 3), lsystem("A", &rules, 5));
    assert_eq!(lsystem("A", &rules, 5), "ABAABABAABAAB");
}

#[test]
fn thue_morse_pairs_and_triples() {
    let seq = thue_morse(64);
    for k in 0..32 {
        assert_ne!(seq[2 * k], seq[2 * k + 1]);
    }
    for w in seq.windows(3) {
        assert!(!(w[0] == w[1] && w[1] == w[2]));
    }
    assert_eq!(seq.iter().filter(|&&x| x == 1).count(), 32);
}

#[test]
fn euclid_pattern_starts_with_a_hit() {
    let p = euclidean_pattern(3, 8);
    assert_eq!(p.len(), 8);
    assert_eq!(p[0], 1);
    assert_eq!(p.iter().filter(|&&x| x == 1).count(), 3);
}

#[test]
fn exported_notes_read_back() {
    let msgs = note_messages(120, 600, 90, &vec![60, 67], None);
    let encoded = encode_track_messages(&msgs);
    let mut importer = TrackImporter::new();
    for m in &encoded {
        let message = match m.message {
            ChannelMessage::NoteOn { note, velocity } => IncomingMessage::NoteOn { note, velocity },
            ChannelMessage::NoteOff { note } => IncomingMessage::NoteOff { note },
            _ => IncomingMessage::Other,
        };
        importer.process(m.delta, IncomingEvent::Midi { channel: 4, message });
    }
    let track = importer.finish();
    let expect = |note| ImportedEvent::Note {
        channel: 4,
        note,
        start_tick: 120,
        end_tick: Some(600),
        velocity: 90,
        pitch_bend: 0,
    };
    assert_eq!(track.events, vec![expect(60), expect(67)]);
}

#[test]
fn exported_drums_read_back() {
    for drum in [DrumType::Kick, DrumType::Kick808, DrumType::Snare, DrumType::Gong, DrumType::HiHatOpen] {
        let encoded = encode_track_messages(&drum_messages(480, drum));
        let mut importer = TrackImporter::new();
        for m in &encoded {
            let message = match m.message {
                ChannelMessage::NoteOn { note, velocity } => IncomingMessage::NoteOn { note, velocity },
                ChannelMessage::NoteOff { note } => IncomingMessage::NoteOff { note },
                _ => IncomingMessage::Other,
            };
            importer.process(m.delta, IncomingEvent::Midi { channel: 9, message });
        }
        let track = importer.finish();
        let expected = midi_note_to_drum_type(drum_type_to_midi_note(drum)).unwrap();
        assert_eq!(track.events, vec![ImportedEvent::Drum { drum: expected, start_tick: 480 }]);
    }
    assert_eq!(midi_note_to_drum_type(drum_type_to_midi_note(DrumType::Kick)), Some(DrumType::Kick));
}

#[test]
fn exported_instant_chord_reads_back() {
    let encoded = encode_track_messages(&note_messages(100, 100, 70, &vec![60, 64], None));
    let mut importer = TrackImporter::new();
    for m in &encoded {
        let message = match m.message {
            ChannelMessage::NoteOn { note, velocity } => IncomingMessage::NoteOn { note, velocity },
            ChannelMessage::NoteOff { note } => IncomingMessage::NoteOff { note },
            _ => IncomingMessage::Other,
        };
        importer.process(m.delta, IncomingEvent::Midi { channel: 0, message });
    }
    let track = importer.finish();
    let expect = |note| ImportedEvent::Note {
        channel: 0,
        note,
        start_tick: 100,
        end_tick: Some(100),
        velocity: 70,
        pitch_bend: 0,
    };
    assert_eq!(track.events, vec![expect(60), expect(64)]);
}
