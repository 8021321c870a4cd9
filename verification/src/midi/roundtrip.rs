//! What the exporter writes, the importer reads back: a chord written as
//! note-on/note-off pairs, sorted, delta-encoded and then read again gives
//! each of its notes with the start, end and velocity it was written with.
use vstd::prelude::*;
use crate::instruments::drums::DrumType;
use crate::midi::convert::{drum_of_gm_note, gm_note_of};
use crate::midi::events::{
    ChannelMessage, DeltaMessage, TimedMessage, chord_messages, encoded_messages, insert_by_tick,
    note_messages_of, sorted_by_tick, tick_delta, ticks_of,
};
use crate::midi::import::{
    ActiveNote, ImportState, ImportedEvent, IncomingEvent, IncomingMessage, import_step, initial_state,
    note_key,
};

verus! {

/// The channel message that a written message is read back as.
pub open spec fn read_back(m: ChannelMessage) -> IncomingMessage {
    match m {
        ChannelMessage::NoteOn { note, velocity } => IncomingMessage::NoteOn { note, velocity },
        ChannelMessage::NoteOff { note } => IncomingMessage::NoteOff { note },
        ChannelMessage::PitchBend { bend } => IncomingMessage::PitchBend { bend: ((bend % 16384) - 8192) as i16 },
        ChannelMessage::ControlChange { controller, value } => IncomingMessage::Controller { controller, value },
        ChannelMessage::ProgramChange { program } => IncomingMessage::ProgramChange { program },
    }
}

/// The state after reading delta-encoded messages on one channel.
pub open spec fn read_messages(s: ImportState, channel: u8, msgs: Seq<DeltaMessage>) -> ImportState
    decreases msgs.len(),
{
    if msgs.len() == 0 {
        s
    } else {
        import_step(
            read_messages(s, channel, msgs.drop_last()),
            msgs.last().delta,
            IncomingEvent::Midi { channel, message: read_back(msgs.last().message) },
        )
    }
}

/// The note-ons of a chord, in chord order.
pub open spec fn chord_ons(start_tick: u32, velocity: u8, notes: Seq<u8>) -> Seq<TimedMessage> {
    Seq::new(
        notes.len(),
        |i: int| TimedMessage { tick: start_tick, message: ChannelMessage::NoteOn { note: notes[i], velocity } },
    )
}

/// The note-offs of a chord, in chord order.
pub open spec fn chord_offs(end_tick: u32, notes: Seq<u8>) -> Seq<TimedMessage> {
    Seq::new(notes.len(), |i: int| TimedMessage { tick: end_tick, message: ChannelMessage::NoteOff { note: notes[i] } })
}

/// Inserting a message after a part it may follow and before a part that is
/// all later puts it between the two.
proof fn lemma_insert_between(a: Seq<TimedMessage>, b: Seq<TimedMessage>, m: TimedMessage)
    requires
        a.len() > 0 ==> a.last().tick <= m.tick,
        forall|k: int| 0 <= k < b.len() ==> b[k].tick > m.tick,
    ensures
        insert_by_tick(a + b, m) == a.push(m) + b,
    decreases b.len(),
{
    if b.len() == 0 {
        assert(a + b =~= a);
        assert(a.push(m) + b =~= a.push(m));
        if a.len() > 0 {
            assert((a + b).last() == a.last());
        }
    } else {
        let bl = b.drop_last();
        assert((a + b).drop_last() =~= a + bl);
        assert((a + b).last() == b.last());
        assert(b.last().tick > m.tick) by {
            assert(b[b.len() - 1].tick > m.tick);
        }
        lemma_insert_between(a, bl, m);
        assert(a.push(m) + b =~= (a.push(m) + bl).push(b.last()));
    }
}

/// A chord whose end comes after its start is sorted into all its note-ons
/// followed by all its note-offs, each part in chord order.
pub proof fn lemma_chord_sorted(start_tick: u32, end_tick: u32, velocity: u8, notes: Seq<u8>)
    requires
        start_tick < end_tick,
    ensures
        sorted_by_tick(chord_messages(start_tick, end_tick, velocity, notes)) == chord_ons(start_tick, velocity, notes)
            + chord_offs(end_tick, notes),
    decreases notes.len(),
{
    let ons = chord_ons(start_tick, velocity, notes);
    let offs = chord_offs(end_tick, notes);
    if notes.len() == 0 {
        assert(ons + offs =~= Seq::<TimedMessage>::empty());
    } else {
        let rest = notes.drop_last();
        let n = notes.last();
        let on = TimedMessage { tick: start_tick, message: ChannelMessage::NoteOn { note: n, velocity } };
        let off = TimedMessage { tick: end_tick, message: ChannelMessage::NoteOff { note: n } };
        lemma_chord_sorted(start_tick, end_tick, velocity, rest);
        let ons0 = chord_ons(start_tick, velocity, rest);
        let offs0 = chord_offs(end_tick, rest);
        let msgs = chord_messages(start_tick, end_tick, velocity, notes);
        let with_on = chord_messages(start_tick, end_tick, velocity, rest).push(on);
        assert(msgs == with_on.push(off));
        assert(msgs.drop_last() =~= with_on);
        assert(with_on.drop_last() =~= chord_messages(start_tick, end_tick, velocity, rest));
        assert(sorted_by_tick(with_on) == insert_by_tick(ons0 + offs0, on));
        assert forall|k: int| 0 <= k < offs0.len() implies offs0[k].tick > on.tick by {}
        if ons0.len() > 0 {
            assert(ons0.last().tick == start_tick);
        }
        lemma_insert_between(ons0, offs0, on);
        let mid = ons0.push(on) + offs0;
        assert(mid.last().tick <= off.tick) by {
            if offs0.len() > 0 {
                assert(mid.last() == offs0.last());
            } else {
                assert(mid.last() == on);
            }
        }
        assert(sorted_by_tick(msgs) == insert_by_tick(mid, off));
        assert(mid.len() > 0);
        assert(insert_by_tick(mid, off) == mid.push(off));
        assert(ons =~= ons0.push(on));
        assert(offs =~= offs0.push(off));
        assert(mid.push(off) =~= ons + offs);
    }
}


/// The written messages of a chord whose end comes after its start: its
/// note-ons, the first at the start and the others at the same tick, then its
/// note-offs, the first after the rest of the length and the others at the
/// same tick.
proof fn lemma_chord_encoding(start_tick: u32, end_tick: u32, velocity: u8, notes: Seq<u8>)
    requires
        start_tick < end_tick,
    ensures
        ({
            let enc = encoded_messages(chord_messages(start_tick, end_tick, velocity, notes));
            let k = notes.len() as int;
            &&& enc.len() == 2 * k
            &&& forall|i: int| 0 <= i < k ==> (#[trigger] enc[i]).message == (ChannelMessage::NoteOn {
                note: notes[i],
                velocity,
            }) && enc[i].delta == if i == 0 { start_tick } else { 0 }
            &&& forall|i: int| k <= i < 2 * k ==> (#[trigger] enc[i]).message == (ChannelMessage::NoteOff {
                note: notes[i - k],
            }) && enc[i].delta == if i == k { (end_tick - start_tick) as u32 } else { 0 }
        }),
{
    lemma_chord_sorted(start_tick, end_tick, velocity, notes);
    let sorted = chord_ons(start_tick, velocity, notes) + chord_offs(end_tick, notes);
    let k = notes.len() as int;
    let ticks = ticks_of(sorted);
    assert forall|i: int| 0 <= i < 2 * k implies #[trigger] ticks[i] == if i < k { start_tick } else { end_tick } by {}
}

/// Among the notes from `lo` to `hi` there is one pressed at `key`.
pub open spec fn pressed(channel: u8, notes: Seq<u8>, lo: int, hi: int, key: int) -> bool {
    exists|i: int| lo <= i < hi && note_key(channel as int, notes[i] as int) == key
}

/// The notes of a chord, as read back.
pub open spec fn chord_notes(channel: u8, notes: Seq<u8>, start_tick: u32, end_tick: u32, velocity: u8) -> Seq<
    ImportedEvent,
> {
    Seq::new(
        notes.len(),
        |i: int| ImportedEvent::Note {
            channel,
            note: notes[i],
            start_tick,
            end_tick: Some(end_tick),
            velocity,
            pitch_bend: 0,
        },
    )
}

/// Distinct keys of one channel are kept apart.
proof fn lemma_note_key_injective(channel: u8, a: u8, b: u8)
    requires
        a < 128,
        b < 128,
        a != b,
    ensures
        note_key(channel as int, a as int) != note_key(channel as int, b as int),
{
}

/// After the first `j` note-ons of the chord: every note read so far is
/// pressed since the start, nothing else is pressed, and nothing is complete.
proof fn lemma_read_ons(channel: u8, notes: Seq<u8>, velocity: u8, start_tick: u32, end_tick: u32, j: int)
    requires
        channel < 16,
        channel != crate::midi::events::DRUM_CHANNEL,
        forall|i: int| 0 <= i < notes.len() ==> #[trigger] notes[i] < 128,
        velocity > 0,
        start_tick < end_tick,
        0 <= j <= notes.len(),
    ensures
        ({
            let enc = encoded_messages(chord_messages(start_tick, end_tick, velocity, notes));
            let st = read_messages(initial_state(), channel, enc.take(j));
            &&& st.tick == if j == 0 { 0 } else { start_tick }
            &&& st.events.len() == 0
            &&& st.bends == initial_state().bends
            &&& st.active.len() == 2048
            &&& forall|key: int| 0 <= key < 2048 ==> #[trigger] st.active[key] == if pressed(channel, notes, 0, j, key) {
                Some(ActiveNote { start_tick, velocity, pitch_bend: 0 })
            } else {
                None
            }
        }),
    decreases j,
{
    lemma_chord_encoding(start_tick, end_tick, velocity, notes);
    let enc = encoded_messages(chord_messages(start_tick, end_tick, velocity, notes));
    let st = read_messages(initial_state(), channel, enc.take(j));
    if j == 0 {
        assert(enc.take(0) =~= Seq::<DeltaMessage>::empty());
        assert forall|key: int| 0 <= key < 2048 implies #[trigger] st.active[key] == if pressed(channel, notes, 0, j, key) {
            Some(ActiveNote { start_tick, velocity, pitch_bend: 0 })
        } else {
            None
        } by {}
    } else {
        lemma_read_ons(channel, notes, velocity, start_tick, end_tick, j - 1);
        let prev = read_messages(initial_state(), channel, enc.take(j - 1));
        assert(enc.take(j).drop_last() =~= enc.take(j - 1));
        assert(enc.take(j).last() == enc[j - 1]);
        let n = notes[j - 1];
        assert(n < 128);
        let k = note_key(channel as int, n as int);
        assert(prev.bends[channel as int] == 0i16);
        assert forall|key: int| 0 <= key < 2048 implies #[trigger] st.active[key] == if pressed(channel, notes, 0, j, key) {
            Some(ActiveNote { start_tick, velocity, pitch_bend: 0 })
        } else {
            None
        } by {
            if key == k {
                assert(pressed(channel, notes, 0, j, key)) by {
                    assert(note_key(channel as int, notes[j - 1] as int) == key);
                }
            } else {
                assert(st.active[key] == prev.active[key]);
                if pressed(channel, notes, 0, j, key) {
                    let i = choose|i: int| 0 <= i < j && note_key(channel as int, notes[i] as int) == key;
                    assert(i != j - 1);
                    assert(pressed(channel, notes, 0, j - 1, key));
                }
                if pressed(channel, notes, 0, j - 1, key) {
                    let i = choose|i: int| 0 <= i < j - 1 && note_key(channel as int, notes[i] as int) == key;
                    assert(pressed(channel, notes, 0, j, key));
                }
            }
        }
    }
}


/// After all the note-ons and the first `m` note-offs of the chord: the first
/// `m` notes are read back complete, in chord order, and the others are still
/// pressed.
proof fn lemma_read_offs(channel: u8, notes: Seq<u8>, velocity: u8, start_tick: u32, end_tick: u32, m: int)
    requires
        channel < 16,
        channel != crate::midi::events::DRUM_CHANNEL,
        forall|i: int| 0 <= i < notes.len() ==> #[trigger] notes[i] < 128,
        notes.no_duplicates(),
        velocity > 0,
        start_tick < end_tick,
        0 <= m <= notes.len(),
    ensures
        ({
            let k = notes.len() as int;
            let enc = encoded_messages(chord_messages(start_tick, end_tick, velocity, notes));
            let st = read_messages(initial_state(), channel, enc.take(k + m));
            &&& st.tick == if m == 0 { if k == 0 { 0 } else { start_tick } } else { end_tick }
            &&& st.events == chord_notes(channel, notes.take(m), start_tick, end_tick, velocity)
            &&& st.active.len() == 2048
            &&& forall|key: int| 0 <= key < 2048 ==> #[trigger] st.active[key] == if pressed(channel, notes, m, k, key) {
                Some(ActiveNote { start_tick, velocity, pitch_bend: 0 })
            } else {
                None
            }
        }),
    decreases m,
{
    let k = notes.len() as int;
    lemma_chord_encoding(start_tick, end_tick, velocity, notes);
    let enc = encoded_messages(chord_messages(start_tick, end_tick, velocity, notes));
    let st = read_messages(initial_state(), channel, enc.take(k + m));
    if m == 0 {
        lemma_read_ons(channel, notes, velocity, start_tick, end_tick, k);
        assert(chord_notes(channel, notes.take(0), start_tick, end_tick, velocity) =~= Seq::<ImportedEvent>::empty());
    } else {
        lemma_read_offs(channel, notes, velocity, start_tick, end_tick, m - 1);
        let prev = read_messages(initial_state(), channel, enc.take(k + m - 1));
        assert(enc.take(k + m).drop_last() =~= enc.take(k + m - 1));
        assert(enc.take(k + m).last() == enc[k + m - 1]);
        let n = notes[m - 1];
        assert(n < 128);
        let key_n = note_key(channel as int, n as int);
        assert(pressed(channel, notes, m - 1, k, key_n)) by {
            assert(note_key(channel as int, notes[m - 1] as int) == key_n);
        }
        let mid = ImportState { tick: st.tick, ..prev };
        assert(prev.active[key_n] == Some(ActiveNote { start_tick, velocity, pitch_bend: 0 }));
        let done = ImportedEvent::Note {
            channel,
            note: n,
            start_tick,
            end_tick: Some(end_tick),
            velocity,
            pitch_bend: 0,
        };
        assert(st.events == prev.events + seq![done]);
        assert(notes.take(m).drop_last() =~= notes.take(m - 1));
        assert(chord_notes(channel, notes.take(m), start_tick, end_tick, velocity) =~= chord_notes(
            channel,
            notes.take(m - 1),
            start_tick,
            end_tick,
            velocity,
        ) + seq![done]);
        assert forall|key: int| 0 <= key < 2048 implies #[trigger] st.active[key] == if pressed(channel, notes, m, k, key) {
            Some(ActiveNote { start_tick, velocity, pitch_bend: 0 })
        } else {
            None
        } by {
            if key == key_n {
                if pressed(channel, notes, m, k, key) {
                    let i = choose|i: int| m <= i < k && note_key(channel as int, notes[i] as int) == key;
                    assert(notes[i] != notes[m - 1]);
                    lemma_note_key_injective(channel, notes[i], notes[m - 1]);
                }
            } else {
                assert(st.active[key] == prev.active[key]);
                if pressed(channel, notes, m - 1, k, key) {
                    let i = choose|i: int| m - 1 <= i < k && note_key(channel as int, notes[i] as int) == key;
                    assert(i != m - 1);
                    assert(pressed(channel, notes, m, k, key));
                }
                if pressed(channel, notes, m, k, key) {
                    let i = choose|i: int| m <= i < k && note_key(channel as int, notes[i] as int) == key;
                    assert(pressed(channel, notes, m - 1, k, key));
                }
            }
        }
    }
}

/// A chord written by the exporter (note-ons at its start, note-offs at its
/// end, sorted and delta-encoded) and read back on a melodic channel gives
/// each of its notes, in chord order, with the start, end and velocity it was
/// written with, and leaves no key pressed.
pub proof fn lemma_exported_chord_reads_back(
    channel: u8,
    notes: Seq<u8>,
    velocity: u8,
    start_tick: u32,
    end_tick: u32,
)
    requires
        channel < 16,
        channel != crate::midi::events::DRUM_CHANNEL,
        forall|i: int| 0 <= i < notes.len() ==> #[trigger] notes[i] < 128,
        notes.no_duplicates(),
        velocity > 0,
        start_tick < end_tick,
    ensures
        ({
            let enc = encoded_messages(note_messages_of(start_tick, end_tick, velocity, notes, None));
            let st = read_messages(initial_state(), channel, enc);
            &&& st.events == chord_notes(channel, notes, start_tick, end_tick, velocity)
            &&& forall|key: int| 0 <= key < 2048 ==> #[trigger] st.active[key] is None
        }),
{
    let k = notes.len() as int;
    lemma_read_offs(channel, notes, velocity, start_tick, end_tick, k);
    lemma_chord_encoding(start_tick, end_tick, velocity, notes);
    let enc = encoded_messages(chord_messages(start_tick, end_tick, velocity, notes));
    assert(enc.take(2 * k) =~= enc);
    assert(notes.take(k) =~= notes);
    let st = read_messages(initial_state(), channel, enc);
    assert forall|key: int| 0 <= key < 2048 implies #[trigger] st.active[key] is None by {
        assert(!pressed(channel, notes, k, k, key));
    }
}


/// A drum hit written by the exporter and read back on the percussion channel
/// gives a drum hit at the same tick, of the drum kind its General MIDI note
/// stands for (the same kind where the kind has a note of its own).
pub proof fn lemma_exported_drum_reads_back(tick: u32, drum: DrumType)
    requires
        tick + crate::midi::events::DRUM_HIT_TICKS <= u32::MAX,
    ensures
        ({
            let msgs = seq![
                TimedMessage {
                    tick,
                    message: ChannelMessage::NoteOn {
                        note: gm_note_of(drum),
                        velocity: crate::midi::convert::DEFAULT_VELOCITY,
                    },
                },
                TimedMessage {
                    tick: (tick + crate::midi::events::DRUM_HIT_TICKS) as u32,
                    message: ChannelMessage::NoteOff { note: gm_note_of(drum) },
                },
            ];
            let st = read_messages(initial_state(), crate::midi::events::DRUM_CHANNEL, encoded_messages(msgs));
            &&& drum_of_gm_note(gm_note_of(drum)) is Some
            &&& st.events == seq![ImportedEvent::Drum { drum: drum_of_gm_note(gm_note_of(drum))->0, start_tick: tick }]
        }),
{
    crate::midi::convert::lemma_drum_note_is_supported(drum);
    let note = gm_note_of(drum);
    let on = TimedMessage {
        tick,
        message: ChannelMessage::NoteOn { note, velocity: crate::midi::convert::DEFAULT_VELOCITY },
    };
    let off = TimedMessage {
        tick: (tick + crate::midi::events::DRUM_HIT_TICKS) as u32,
        message: ChannelMessage::NoteOff { note },
    };
    let msgs = seq![on, off];
    assert(msgs.drop_last() =~= seq![on]);
    assert(seq![on].drop_last() =~= Seq::<TimedMessage>::empty());
    reveal_with_fuel(sorted_by_tick, 3);
    assert(sorted_by_tick(seq![on]) =~= seq![on]);
    assert(insert_by_tick(seq![on], off) =~= msgs);
    assert(sorted_by_tick(msgs) =~= msgs);
    let enc = encoded_messages(msgs);
    assert(enc.len() == 2);
    assert(enc[0].delta == tick);
    assert(enc[1].delta == crate::midi::events::DRUM_HIT_TICKS);
    assert(note < 128) by {
        crate::midi::convert::lemma_note_drum_note(note);
    }
    assert(enc.drop_last() =~= seq![enc[0]]);
    assert(seq![enc[0]].drop_last() =~= Seq::<DeltaMessage>::empty());
    let init = initial_state();
    assert(crate::midi::import::state_wf(init));
    crate::midi::import::lemma_drum_hit(
        init,
        note,
        crate::midi::convert::DEFAULT_VELOCITY,
        tick,
        crate::midi::events::DRUM_HIT_TICKS,
        drum_of_gm_note(note)->0,
    );
    reveal_with_fuel(read_messages, 3);
    assert(init.events.push(ImportedEvent::Drum { drum: drum_of_gm_note(note)->0, start_tick: tick }) =~= seq![
        ImportedEvent::Drum { drum: drum_of_gm_note(note)->0, start_tick: tick },
    ]);
}


/// A chord of no length stays in chord order when sorted: each note-on is
/// followed by its own note-off.
proof fn lemma_instant_chord_sorted(tick: u32, velocity: u8, notes: Seq<u8>)
    ensures
        sorted_by_tick(chord_messages(tick, tick, velocity, notes)) == chord_messages(tick, tick, velocity, notes),
        forall|i: int| 0 <= i < chord_messages(tick, tick, velocity, notes).len() ==> (#[trigger] chord_messages(
            tick,
            tick,
            velocity,
            notes,
        )[i]).tick == tick,
        chord_messages(tick, tick, velocity, notes).len() == 2 * notes.len(),
    decreases notes.len(),
{
    let msgs = chord_messages(tick, tick, velocity, notes);
    if notes.len() > 0 {
        let rest = notes.drop_last();
        lemma_instant_chord_sorted(tick, velocity, rest);
        let x = chord_messages(tick, tick, velocity, rest);
        let on = TimedMessage { tick, message: ChannelMessage::NoteOn { note: notes.last(), velocity } };
        let off = TimedMessage { tick, message: ChannelMessage::NoteOff { note: notes.last() } };
        assert(msgs == x.push(on).push(off));
        assert(msgs.drop_last() =~= x.push(on));
        assert(x.push(on).drop_last() =~= x);
        assert(x.push(on).last() == on);
        assert(msgs.last() == off);
        if x.len() > 0 {
            assert(x.last().tick == tick);
            assert(insert_by_tick(x, on) == x.push(on));
        } else {
            assert(insert_by_tick(x, on) =~= x.push(on));
        }
        assert(sorted_by_tick(x.push(on)) == insert_by_tick(sorted_by_tick(x), on));
        assert(sorted_by_tick(x.push(on)) == x.push(on));
        assert(insert_by_tick(x.push(on), off) == x.push(on).push(off));
        assert(sorted_by_tick(msgs) == insert_by_tick(sorted_by_tick(x.push(on)), off));
        assert forall|i: int| 0 <= i < msgs.len() implies (#[trigger] msgs[i]).tick == tick by {
            if i < x.len() {
                assert(msgs[i] == x[i]);
            }
        }
    }
}

/// The written messages of a chord of no length: each note's note-on then
/// its note-off, all at its tick.
proof fn lemma_instant_encoding(tick: u32, velocity: u8, notes: Seq<u8>)
    ensures
        ({
            let enc = encoded_messages(chord_messages(tick, tick, velocity, notes));
            &&& enc.len() == 2 * notes.len()
            &&& forall|i: int| 0 <= i < enc.len() ==> (#[trigger] enc[i]).delta == if i == 0 { tick } else { 0 }
            &&& forall|i: int| 0 <= i < notes.len() ==> (#[trigger] enc[2 * i]).message == (ChannelMessage::NoteOn {
                note: notes[i],
                velocity,
            }) && enc[2 * i + 1].message == (ChannelMessage::NoteOff { note: notes[i] })
        }),
{
    lemma_instant_chord_sorted(tick, velocity, notes);
    lemma_chord_messages_at(tick, tick, velocity, notes);
    let msgs = chord_messages(tick, tick, velocity, notes);
    let enc = encoded_messages(msgs);
    assert forall|i: int| 0 <= i < enc.len() implies (#[trigger] enc[i]).delta == if i == 0 { tick } else { 0 } by {
        assert(msgs[i].tick == tick);
        if i > 0 {
            assert(msgs[i - 1].tick == tick);
        }
    }
    assert forall|i: int| 0 <= i < notes.len() implies (#[trigger] enc[2 * i]).message == (ChannelMessage::NoteOn {
        note: notes[i],
        velocity,
    }) && enc[2 * i + 1].message == (ChannelMessage::NoteOff { note: notes[i] }) by {
        assert(msgs[2 * i] == (TimedMessage { tick, message: ChannelMessage::NoteOn { note: notes[i], velocity } }));
    }
}

/// After the first `j` notes of a chord of no length: those notes are read
/// back complete, in chord order, and no key is pressed.
proof fn lemma_read_instant(channel: u8, notes: Seq<u8>, velocity: u8, tick: u32, j: int)
    requires
        channel < 16,
        channel != crate::midi::events::DRUM_CHANNEL,
        forall|i: int| 0 <= i < notes.len() ==> #[trigger] notes[i] < 128,
        velocity > 0,
        0 <= j <= notes.len(),
    ensures
        ({
            let enc = encoded_messages(chord_messages(tick, tick, velocity, notes));
            let st = read_messages(initial_state(), channel, enc.take(2 * j));
            &&& st.tick == if j == 0 { 0 } else { tick }
            &&& st.events == chord_notes(channel, notes.take(j), tick, tick, velocity)
            &&& st.bends == initial_state().bends
            &&& st.active == initial_state().active
        }),
    decreases j,
{
    lemma_instant_encoding(tick, velocity, notes);
    let enc = encoded_messages(chord_messages(tick, tick, velocity, notes));
    if j == 0 {
        assert(enc.take(0) =~= Seq::<DeltaMessage>::empty());
        assert(chord_notes(channel, notes.take(0), tick, tick, velocity) =~= Seq::<ImportedEvent>::empty());
    } else {
        lemma_read_instant(channel, notes, velocity, tick, j - 1);
        let prev = read_messages(initial_state(), channel, enc.take(2 * j - 2));
        let pressed_st = read_messages(initial_state(), channel, enc.take(2 * j - 1));
        assert(enc.take(2 * j).drop_last() =~= enc.take(2 * j - 1));
        assert(enc.take(2 * j - 1).drop_last() =~= enc.take(2 * j - 2));
        assert(enc.take(2 * j).last() == enc[2 * j - 1]);
        assert(enc.take(2 * j - 1).last() == enc[2 * j - 2]);
        let n = notes[j - 1];
        assert(n < 128);
        let key_n = note_key(channel as int, n as int);
        assert(enc[2 * (j - 1)].message == (ChannelMessage::NoteOn { note: n, velocity }));
        assert(enc[2 * (j - 1) + 1].message == (ChannelMessage::NoteOff { note: n }));
        assert(pressed_st.active[key_n] == Some(ActiveNote { start_tick: tick, velocity, pitch_bend: 0 }));
        let st = read_messages(initial_state(), channel, enc.take(2 * j));
        let done = ImportedEvent::Note {
            channel,
            note: n,
            start_tick: tick,
            end_tick: Some(tick),
            velocity,
            pitch_bend: 0,
        };
        assert(st.events == prev.events + seq![done]);
        assert(notes.take(j).drop_last() =~= notes.take(j - 1));
        assert(chord_notes(channel, notes.take(j), tick, tick, velocity) =~= chord_notes(
            channel,
            notes.take(j - 1),
            tick,
            tick,
            velocity,
        ) + seq![done]);
        assert(st.active =~= initial_state().active);
    }
}

/// Where the note-on and note-off of each note of a chord stand among its
/// messages.
proof fn lemma_chord_messages_at(start_tick: u32, end_tick: u32, velocity: u8, notes: Seq<u8>)
    ensures
        chord_messages(start_tick, end_tick, velocity, notes).len() == 2 * notes.len(),
        forall|i: int| 0 <= i < notes.len() ==> (#[trigger] chord_messages(start_tick, end_tick, velocity, notes)[2 * i])
            == (TimedMessage { tick: start_tick, message: ChannelMessage::NoteOn { note: notes[i], velocity } })
            && chord_messages(start_tick, end_tick, velocity, notes)[2 * i + 1] == (TimedMessage {
                tick: end_tick,
                message: ChannelMessage::NoteOff { note: notes[i] },
            }),
    decreases notes.len(),
{
    if notes.len() > 0 {
        let rest = notes.drop_last();
        lemma_chord_messages_at(start_tick, end_tick, velocity, rest);
        let msgs = chord_messages(start_tick, end_tick, velocity, notes);
        let x = chord_messages(start_tick, end_tick, velocity, rest);
        assert forall|i: int| 0 <= i < notes.len() implies (#[trigger] msgs[2 * i]) == (TimedMessage {
            tick: start_tick,
            message: ChannelMessage::NoteOn { note: notes[i], velocity },
        }) && msgs[2 * i + 1] == (TimedMessage { tick: end_tick, message: ChannelMessage::NoteOff { note: notes[i] } }) by {
            if i < rest.len() {
                assert(msgs[2 * i] == x[2 * i]);
                assert(msgs[2 * i + 1] == x[2 * i + 1]);
                assert(rest[i] == notes[i]);
            }
        }
    }
}

/// A chord of no length written by the exporter and read back on a melodic
/// channel gives each of its notes, in chord order, starting and ending at its
/// tick, and leaves no key pressed.
pub proof fn lemma_exported_instant_chord_reads_back(channel: u8, notes: Seq<u8>, velocity: u8, tick: u32)
    requires
        channel < 16,
        channel != crate::midi::events::DRUM_CHANNEL,
        forall|i: int| 0 <= i < notes.len() ==> #[trigger] notes[i] < 128,
        velocity > 0,
    ensures
        ({
            let enc = encoded_messages(note_messages_of(tick, tick, velocity, notes, None));
            let st = read_messages(initial_state(), channel, enc);
            &&& st.events == chord_notes(channel, notes, tick, tick, velocity)
            &&& forall|key: int| 0 <= key < 2048 ==> #[trigger] st.active[key] is None
        }),
{
    let k = notes.len() as int;
    lemma_read_instant(channel, notes, velocity, tick, k);
    lemma_instant_chord_sorted(tick, velocity, notes);
    let enc = encoded_messages(chord_messages(tick, tick, velocity, notes));
    assert(enc.take(2 * k) =~= enc);
    assert(notes.take(k) =~= notes);
}

} // verus!
