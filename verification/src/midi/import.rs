//! Reading the events of a MIDI track: absolute ticks from delta times,
//! note-on/note-off pairing per channel and key, drum hits on the percussion
//! channel and pitch bend. Program changes are stored but do not change how
//! notes sound; controller messages are ignored.
use vstd::prelude::*;
use vstd::std_specs::iter::IteratorSpec;
use crate::instruments::drums::DrumType;
use crate::midi::convert::{drum_of_gm_note, midi_note_to_drum_type};
use crate::midi::events::{DRUM_CHANNEL, two_to, midi_to_time_signature_denominator};

verus! {

/// Number of MIDI channels.
pub const CHANNELS: usize = 16;

/// Number of MIDI keys on a channel.
pub const KEYS: usize = 128;

/// A channel message read from a track.
#[derive(Debug, Clone, Copy, PartialEq, Eq, Structural)]
pub enum IncomingMessage {
    NoteOn { note: u8, velocity: u8 },
    NoteOff { note: u8 },
    ProgramChange { program: u8 },
    Controller { controller: u8, value: u8 },
    /// A bend relative to the centre, from -8192 to 8191.
    PitchBend { bend: i16 },
    /// Any other channel message (aftertouch).
    Other,
}

/// An event read from a track.
#[derive(Debug, PartialEq, Eq)]
pub enum IncomingEvent {
    Midi { channel: u8, message: IncomingMessage },
    TrackName { name: Vec<u8> },
    Tempo { micros_per_quarter: u32 },
    TimeSignature { numerator: u8, denominator_power: u8 },
    OtherMeta,
    /// System-exclusive and escape events.
    Other,
}

/// A channel and key within MIDI's ranges.
pub open spec fn valid_message(channel: u8, message: IncomingMessage) -> bool {
    &&& channel < 16
    &&& match message {
        IncomingMessage::NoteOn { note, .. } => note < 128,
        IncomingMessage::NoteOff { note } => note < 128,
        _ => true,
    }
}

/// An event whose channel and key are within MIDI's ranges.
pub open spec fn valid_event(event: IncomingEvent) -> bool {
    match event {
        IncomingEvent::Midi { channel, message } => valid_message(channel, message),
        _ => true,
    }
}

/// A note that has been pressed and not yet released.
#[derive(Debug, Clone, Copy, PartialEq, Eq, Structural)]
pub struct ActiveNote {
    pub start_tick: u32,
    pub velocity: u8,
    /// The channel's pitch bend when the note was pressed.
    pub pitch_bend: i16,
}

/// A note or drum hit read from a track.
#[derive(Debug, Clone, Copy, PartialEq, Eq, Structural)]
pub enum ImportedEvent {
    /// A melodic note; `end_tick` is `None` for a note never released.
    Note { channel: u8, note: u8, start_tick: u32, end_tick: Option<u32>, velocity: u8, pitch_bend: i16 },
    /// A hit on the percussion channel of a key that maps to a drum.
    Drum { drum: DrumType, start_tick: u32 },
}

/// What has been read of a track so far.
pub struct ImportState {
    pub tick: u32,
    pub name: Option<Seq<u8>>,
    /// The last program change of the track.
    pub program: Option<u8>,
    /// Current pitch bend of each channel.
    pub bends: Seq<i16>,
    /// The pressed note of each channel and key, at `note_key`.
    pub active: Seq<Option<ActiveNote>>,
    /// Notes and drum hits read so far, in the order they were completed.
    pub events: Seq<ImportedEvent>,
}

/// Where the pressed note of a channel and key is kept.
pub open spec fn note_key(channel: int, note: int) -> int {
    channel * 128 + note
}

/// The state before any event: tick 0, nothing pressed, no bends or program.
pub open spec fn initial_state() -> ImportState {
    ImportState {
        tick: 0,
        name: None,
        program: None,
        bends: Seq::new(16, |i: int| 0i16),
        active: Seq::new(2048, |i: int| None),
        events: Seq::empty(),
    }
}

/// The event a pressed note becomes when it ends at `end` (or never, for
/// `None`): a drum hit on the percussion channel where its key maps to a drum
/// (none where it does not), else a note.
pub open spec fn completed(channel: u8, note: u8, a: ActiveNote, end: Option<u32>) -> Seq<ImportedEvent> {
    if channel == DRUM_CHANNEL {
        match drum_of_gm_note(note) {
            Some(drum) => seq![ImportedEvent::Drum { drum, start_tick: a.start_tick }],
            None => Seq::empty(),
        }
    } else {
        seq![ImportedEvent::Note {
            channel,
            note,
            start_tick: a.start_tick,
            end_tick: end,
            velocity: a.velocity,
            pitch_bend: a.pitch_bend,
        }]
    }
}

/// Releases the pressed note of a channel and key at the current tick, if one
/// is pressed.
pub open spec fn release(s: ImportState, channel: u8, note: u8) -> ImportState {
    let k = note_key(channel as int, note as int);
    match s.active[k] {
        Some(a) => ImportState {
            active: s.active.update(k, None),
            events: s.events + completed(channel, note, a, Some(s.tick)),
            ..s
        },
        None => s,
    }
}

/// The state after one more channel message at the current tick: a program
/// change is stored as the track's program, a controller changes nothing.
pub open spec fn apply_message(s: ImportState, channel: u8, message: IncomingMessage) -> ImportState {
    match message {
        IncomingMessage::NoteOn { note, velocity } => if velocity == 0 {
            release(s, channel, note)
        } else {
            ImportState {
                active: s.active.update(
                    note_key(channel as int, note as int),
                    Some(ActiveNote { start_tick: s.tick, velocity, pitch_bend: s.bends[channel as int] }),
                ),
                ..s
            }
        },
        IncomingMessage::NoteOff { note } => release(s, channel, note),
        IncomingMessage::ProgramChange { program } => ImportState { program: Some(program), ..s },
        IncomingMessage::Controller { .. } => s,
        IncomingMessage::PitchBend { bend } => ImportState { bends: s.bends.update(channel as int, bend), ..s },
        IncomingMessage::Other => s,
    }
}

/// The state after one more event, `delta` ticks after the one before.
pub open spec fn import_step(s: ImportState, delta: u32, event: IncomingEvent) -> ImportState {
    let s1 = ImportState { tick: (s.tick + delta) as u32, ..s };
    match event {
        IncomingEvent::TrackName { name } => ImportState { name: Some(name@), ..s1 },
        IncomingEvent::Midi { channel, message } => apply_message(s1, channel, message),
        _ => s1,
    }
}

/// The events that the notes still pressed at the end become, in order of
/// channel and then key: `n` is how many keys have been looked at.
pub open spec fn hanging_events(s: ImportState, n: int) -> Seq<ImportedEvent>
    decreases n,
{
    if n <= 0 {
        Seq::empty()
    } else {
        let k = n - 1;
        hanging_events(s, k) + match s.active[k] {
            Some(a) => completed((k / 128) as u8, (k % 128) as u8, a, None),
            None => Seq::empty(),
        }
    }
}

/// Every note read so far ends no earlier than it starts.
pub open spec fn notes_in_order(events: Seq<ImportedEvent>) -> bool {
    forall|i: int| 0 <= i < events.len() ==> match #[trigger] events[i] {
        ImportedEvent::Note { start_tick, end_tick: Some(e), .. } => start_tick <= e,
        _ => true,
    }
}

/// A reachable state: a bend for each of the 16 channels, a slot for each of
/// the 2048 keys, no note pressed later than the current tick, and every note
/// read ending no earlier than it starts.
pub open spec fn state_wf(s: ImportState) -> bool {
    &&& s.bends.len() == 16
    &&& s.active.len() == 2048
    &&& forall|k: int| 0 <= k < 2048 ==> match #[trigger] s.active[k] {
        Some(a) => a.start_tick <= s.tick,
        None => true,
    }
    &&& notes_in_order(s.events)
}

/// Reads the events of one track.
pub struct TrackImporter {
    tick: u32,
    name: Option<Vec<u8>>,
    program: Option<u8>,
    bends: Vec<i16>,
    active: Vec<Option<ActiveNote>>,
    events: Vec<ImportedEvent>,
}

/// What was read of one track: its name, last program change, and its notes
/// and drum hits.
pub struct ImportedTrack {
    pub name: Option<Vec<u8>>,
    pub program: Option<u8>,
    pub events: Vec<ImportedEvent>,
}

/// The view of an optional byte string.
pub open spec fn bytes_view(b: Option<Vec<u8>>) -> Option<Seq<u8>> {
    match b {
        Some(v) => Some(v@),
        None => None,
    }
}

impl View for TrackImporter {
    type V = ImportState;

    closed spec fn view(&self) -> ImportState {
        ImportState {
            tick: self.tick,
            name: bytes_view(self.name),
            program: self.program,
            bends: self.bends@,
            active: self.active@,
            events: self.events@,
        }
    }
}

/// Releasing keeps a state reachable.
proof fn lemma_release_wf(s: ImportState, channel: u8, note: u8)
    requires
        state_wf(s),
        channel < 16,
        note < 128,
    ensures
        state_wf(release(s, channel, note)),
{
    let k = note_key(channel as int, note as int);
    let r = release(s, channel, note);
    match s.active[k] {
        Some(a) => {
            let c = completed(channel, note, a, Some(s.tick));
            assert forall|i: int| 0 <= i < r.events.len() implies match #[trigger] r.events[i] {
                ImportedEvent::Note { start_tick, end_tick: Some(e), .. } => start_tick <= e,
                _ => true,
            } by {
                if i < s.events.len() {
                    assert(r.events[i] == s.events[i]);
                } else {
                    assert(r.events[i] == c[i - s.events.len()]);
                }
            }
            assert forall|j: int| 0 <= j < 2048 implies match #[trigger] r.active[j] {
                Some(b) => b.start_tick <= r.tick,
                None => true,
            } by {
                if j != k {
                    assert(r.active[j] == s.active[j]);
                }
            }
        },
        None => {},
    }
}

/// One more event keeps a state reachable.
pub proof fn lemma_step_wf(s: ImportState, delta: u32, event: IncomingEvent)
    requires
        state_wf(s),
        s.tick + delta <= u32::MAX,
        valid_event(event),
    ensures
        state_wf(import_step(s, delta, event)),
{
    let s1 = ImportState { tick: (s.tick + delta) as u32, ..s };
    assert forall|k: int| 0 <= k < 2048 implies match #[trigger] s1.active[k] {
        Some(a) => a.start_tick <= s1.tick,
        None => true,
    } by {
        assert(s1.active[k] == s.active[k]);
    }
    assert(state_wf(s1));
    match event {
        IncomingEvent::Midi { channel, message } => {
            match message {
                IncomingMessage::NoteOn { note, velocity } => {
                    if velocity == 0 {
                        lemma_release_wf(s1, channel, note);
                    } else {
                        let r = apply_message(s1, channel, message);
                        let kk = note_key(channel as int, note as int);
                        assert forall|j: int| 0 <= j < 2048 implies match #[trigger] r.active[j] {
                            Some(b) => b.start_tick <= r.tick,
                            None => true,
                        } by {
                            if j != kk {
                                assert(r.active[j] == s1.active[j]);
                            }
                        }
                    }
                },
                IncomingMessage::NoteOff { note } => {
                    lemma_release_wf(s1, channel, note);
                },
                _ => {},
            }
        },
        _ => {},
    }
}

impl TrackImporter {
    /// Well-formed: the view is reachable.
    pub closed spec fn wf(&self) -> bool {
        state_wf(self@)
    }

    /// An importer that has read nothing.
    pub fn new() -> (t: Self)
        ensures
            t.wf(),
            t@ == initial_state(),
    {
        let mut bends: Vec<i16> = Vec::new();
        let mut i: usize = 0;
        while i < CHANNELS
            invariant
                i <= CHANNELS,
                bends@ == Seq::new(i as nat, |j: int| 0i16),
            decreases CHANNELS - i,
        {
            bends.push(0);
            proof {
                assert(bends@ =~= Seq::new((i + 1) as nat, |j: int| 0i16));
            }
            i = i + 1;
        }
        let mut active: Vec<Option<ActiveNote>> = Vec::new();
        let mut k: usize = 0;
        while k < CHANNELS * KEYS
            invariant
                k <= CHANNELS * KEYS,
                active@ == Seq::new(k as nat, |j: int| None::<ActiveNote>),
            decreases CHANNELS * KEYS - k,
        {
            active.push(None);
            proof {
                assert(active@ =~= Seq::new((k + 1) as nat, |j: int| None::<ActiveNote>));
            }
            k = k + 1;
        }
        let t = TrackImporter {
            tick: 0,
            name: None,
            program: None,
            bends,
            active,
            events: Vec::new(),
        };
        assert(t@ =~= initial_state());
        t
    }

    /// The absolute tick of the last event read.
    pub fn tick(&self) -> (t: u32)
        ensures
            t == self@.tick,
    {
        self.tick
    }

    /// Releases the pressed note of a channel and key (see `release`).
    fn release_note(&mut self, channel: u8, note: u8)
        requires
            old(self).wf(),
            channel < 16,
            note < 128,
        ensures
            final(self)@ == release(old(self)@, channel, note),
    {
        let k = channel as usize * KEYS + note as usize;
        match self.active[k] {
            Some(a) => {
                self.active.set(k, None);
                if channel == DRUM_CHANNEL {
                    match midi_note_to_drum_type(note) {
                        Some(drum) => {
                            self.events.push(ImportedEvent::Drum { drum, start_tick: a.start_tick });
                        },
                        None => {},
                    }
                } else {
                    self.events.push(
                        ImportedEvent::Note {
                            channel,
                            note,
                            start_tick: a.start_tick,
                            end_tick: Some(self.tick),
                            velocity: a.velocity,
                            pitch_bend: a.pitch_bend,
                        },
                    );
                }
                proof {
                    let s = old(self)@;
                    let c = completed(channel, note, a, Some(s.tick));
                    assert(self@.events =~= s.events + c);
                    assert(self@ =~= release(s, channel, note));
                }
            },
            None => {},
        }
    }

    /// Reads one more event, `delta` ticks after the one before.
    pub fn process(&mut self, delta: u32, event: IncomingEvent)
        requires
            old(self).wf(),
            old(self)@.tick + delta <= u32::MAX,
            valid_event(event),
        ensures
            final(self).wf(),
            final(self)@ == import_step(old(self)@, delta, event),
    {
        proof {
            lemma_step_wf(old(self)@, delta, event);
        }
        self.tick = self.tick + delta;
        proof {
            assert forall|k: int| 0 <= k < 2048 implies match #[trigger] self@.active[k] {
                Some(a) => a.start_tick <= self@.tick,
                None => true,
            } by {
                assert(self@.active[k] == old(self)@.active[k]);
            }
        }
        match event {
            IncomingEvent::TrackName { name } => {
                self.name = Some(name);
            },
            IncomingEvent::Midi { channel, message } => {
                match message {
                    IncomingMessage::NoteOn { note, velocity } => {
                        if velocity == 0 {
                            self.release_note(channel, note);
                        } else {
                            let bend = self.bends[channel as usize];
                            let k = channel as usize * KEYS + note as usize;
                            self.active.set(
                                k,
                                Some(ActiveNote { start_tick: self.tick, velocity, pitch_bend: bend }),
                            );
                        }
                    },
                    IncomingMessage::NoteOff { note } => {
                        self.release_note(channel, note);
                    },
                    IncomingMessage::ProgramChange { program } => {
                        self.program = Some(program);
                    },
                    IncomingMessage::Controller { .. } => {},
                    IncomingMessage::PitchBend { bend } => {
                        self.bends.set(channel as usize, bend);
                    },
                    IncomingMessage::Other => {},
                }
            },
            _ => {},
        }
        proof {
            assert(self@ =~= import_step(old(self)@, delta, event));
        }
    }

    /// The track read: notes still pressed at the end are added after the
    /// others, in order of channel and key, without an end.
    pub fn finish(self) -> (t: ImportedTrack)
        requires
            self.wf(),
        ensures
            bytes_view(t.name) == self@.name,
            t.program == self@.program,
            t.events@ == self@.events + hanging_events(self@, 2048),
            notes_in_order(t.events@),
    {
        let ghost s = self@;
        let TrackImporter { tick, name, program, bends, active, events } = self;
        let mut events = events;
        let mut k: usize = 0;
        while k < CHANNELS * KEYS
            invariant
                k <= CHANNELS * KEYS,
                active@ == s.active,
                state_wf(s),
                events@ == s.events + hanging_events(s, k as int),
                notes_in_order(events@),
            decreases CHANNELS * KEYS - k,
        {
            let ghost before = events@;
            match active[k] {
                Some(a) => {
                    let channel = (k / KEYS) as u8;
                    let note = (k % KEYS) as u8;
                    if channel == DRUM_CHANNEL {
                        match midi_note_to_drum_type(note) {
                            Some(drum) => {
                                events.push(ImportedEvent::Drum { drum, start_tick: a.start_tick });
                            },
                            None => {},
                        }
                    } else {
                        events.push(
                            ImportedEvent::Note {
                                channel,
                                note,
                                start_tick: a.start_tick,
                                end_tick: None,
                                velocity: a.velocity,
                                pitch_bend: a.pitch_bend,
                            },
                        );
                    }
                    proof {
                        let c = completed(channel, note, a, None);
                        assert(events@ =~= before + c);
                        assert(s.events + hanging_events(s, k + 1) =~= s.events + hanging_events(s, k as int) + c);
                        assert forall|i: int| 0 <= i < events@.len() implies match #[trigger] events@[i] {
                            ImportedEvent::Note { start_tick, end_tick: Some(e), .. } => start_tick <= e,
                            _ => true,
                        } by {
                            if i < before.len() {
                                assert(events@[i] == before[i]);
                            }
                        }
                    }
                },
                None => {
                    proof {
                        assert(s.events + hanging_events(s, k + 1) =~= s.events + hanging_events(s, k as int));
                    }
                },
            }
            k = k + 1;
        }
        ImportedTrack { name, program, events }
    }
}

/// A tempo or meter change found while scanning a track.
#[derive(Debug, Clone, Copy, PartialEq, Eq, Structural)]
pub enum TimingChange {
    Tempo { tick: u32, micros_per_quarter: u32 },
    Meter { tick: u32, numerator: u8, denominator: u8 },
}

/// Every time signature of the events writes its denominator as a power of
/// two that fits a byte.
pub open spec fn meters_fit(events: Seq<(u32, IncomingEvent)>) -> bool {
    forall|i: int| 0 <= i < events.len() ==> match (#[trigger] events[i]).1 {
        IncomingEvent::TimeSignature { denominator_power, .. } => denominator_power < 8,
        _ => true,
    }
}

/// The deltas of a track's events.
pub open spec fn deltas_of(events: Seq<(u32, IncomingEvent)>) -> Seq<u32> {
    Seq::new(events.len(), |i: int| events[i].0)
}

/// The tempo and meter changes among the first `n` events, with their
/// absolute ticks.
pub open spec fn timing_changes(events: Seq<(u32, IncomingEvent)>, n: int) -> Seq<TimingChange>
    decreases n,
{
    if n <= 0 {
        Seq::empty()
    } else {
        let tick = crate::midi::events::tick_sum(deltas_of(events), n) as u32;
        timing_changes(events, n - 1) + match events[n - 1].1 {
            IncomingEvent::Tempo { micros_per_quarter } => seq![TimingChange::Tempo { tick, micros_per_quarter }],
            IncomingEvent::TimeSignature { numerator, denominator_power } => seq![
                TimingChange::Meter { tick, numerator, denominator: two_to(denominator_power as nat) as u8 },
            ],
            _ => Seq::empty(),
        }
    }
}

/// The tempo and meter changes of a track's events (delta time, event), in
/// order, with their absolute ticks and the meter's denominator itself.
pub fn scan_timing_changes(events: &Vec<(u32, IncomingEvent)>) -> (r: Vec<TimingChange>)
    requires
        crate::midi::events::tick_sum(deltas_of(events@), events@.len() as int) <= u32::MAX,
        meters_fit(events@),
    ensures
        r@ == timing_changes(events@, events@.len() as int),
{
    let mut r: Vec<TimingChange> = Vec::new();
    let mut tick: u32 = 0;
    let mut i: usize = 0;
    while i < events.len()
        invariant
            i <= events.len(),
            tick == crate::midi::events::tick_sum(deltas_of(events@), i as int),
            crate::midi::events::tick_sum(deltas_of(events@), events@.len() as int) <= u32::MAX,
            meters_fit(events@),
            r@ == timing_changes(events@, i as int),
        decreases events.len() - i,
    {
        proof {
            crate::midi::events::lemma_tick_sum_monotone(deltas_of(events@), i + 1, events@.len() as int);
        }
        let delta = events[i].0;
        tick = tick + delta;
        let ghost before = r@;
        match &events[i].1 {
            IncomingEvent::Tempo { micros_per_quarter } => {
                r.push(TimingChange::Tempo { tick, micros_per_quarter: *micros_per_quarter });
            },
            IncomingEvent::TimeSignature { numerator, denominator_power } => {
                let denominator = midi_to_time_signature_denominator(*denominator_power);
                r.push(TimingChange::Meter { tick, numerator: *numerator, denominator });
            },
            _ => {},
        }
        proof {
            assert(r@ =~= timing_changes(events@, i + 1));
        }
        i = i + 1;
    }
    r
}


/// Pressing a key of a melodic channel and releasing it later reads back as
/// one note from the press to the release, with the velocity of the press and
/// the bend of the channel at the press; the key is free again afterwards.
pub proof fn lemma_note_on_then_off(
    s: ImportState,
    channel: u8,
    note: u8,
    velocity: u8,
    press_delta: u32,
    release_delta: u32,
)
    requires
        state_wf(s),
        channel < 16,
        channel != DRUM_CHANNEL,
        note < 128,
        velocity > 0,
        s.tick + press_delta + release_delta <= u32::MAX,
    ensures
        ({
            let pressed = import_step(
                s,
                press_delta,
                IncomingEvent::Midi { channel, message: IncomingMessage::NoteOn { note, velocity } },
            );
            let released = import_step(
                pressed,
                release_delta,
                IncomingEvent::Midi { channel, message: IncomingMessage::NoteOff { note } },
            );
            &&& released.events == s.events.push(
                ImportedEvent::Note {
                    channel,
                    note,
                    start_tick: (s.tick + press_delta) as u32,
                    end_tick: Some((s.tick + press_delta + release_delta) as u32),
                    velocity,
                    pitch_bend: s.bends[channel as int],
                },
            )
            &&& released.active[note_key(channel as int, note as int)] is None
            &&& released.tick == s.tick + press_delta + release_delta
        }),
{
    let pressed = import_step(
        s,
        press_delta,
        IncomingEvent::Midi { channel, message: IncomingMessage::NoteOn { note, velocity } },
    );
    let k = note_key(channel as int, note as int);
    assert(pressed.active[k] == Some(
        ActiveNote { start_tick: (s.tick + press_delta) as u32, velocity, pitch_bend: s.bends[channel as int] },
    ));
    let released = import_step(
        pressed,
        release_delta,
        IncomingEvent::Midi { channel, message: IncomingMessage::NoteOff { note } },
    );
    assert(released.events =~= s.events.push(
        ImportedEvent::Note {
            channel,
            note,
            start_tick: (s.tick + press_delta) as u32,
            end_tick: Some((s.tick + press_delta + release_delta) as u32),
            velocity,
            pitch_bend: s.bends[channel as int],
        },
    ));
}

/// A hit on the percussion channel of a key that maps to a drum reads back as
/// that drum at the press, whichever way the key is released.
pub proof fn lemma_drum_hit(s: ImportState, note: u8, velocity: u8, press_delta: u32, release_delta: u32, drum: DrumType)
    requires
        state_wf(s),
        note < 128,
        velocity > 0,
        drum_of_gm_note(note) == Some(drum),
        s.tick + press_delta + release_delta <= u32::MAX,
    ensures
        ({
            let pressed = import_step(
                s,
                press_delta,
                IncomingEvent::Midi { channel: DRUM_CHANNEL, message: IncomingMessage::NoteOn { note, velocity } },
            );
            let off = import_step(
                pressed,
                release_delta,
                IncomingEvent::Midi { channel: DRUM_CHANNEL, message: IncomingMessage::NoteOff { note } },
            );
            let zero = import_step(
                pressed,
                release_delta,
                IncomingEvent::Midi { channel: DRUM_CHANNEL, message: IncomingMessage::NoteOn { note, velocity: 0 } },
            );
            let hit = ImportedEvent::Drum { drum, start_tick: (s.tick + press_delta) as u32 };
            &&& off.events == s.events.push(hit)
            &&& zero.events == s.events.push(hit)
        }),
{
    let pressed = import_step(
        s,
        press_delta,
        IncomingEvent::Midi { channel: DRUM_CHANNEL, message: IncomingMessage::NoteOn { note, velocity } },
    );
    let k = note_key(DRUM_CHANNEL as int, note as int);
    assert(pressed.active[k] is Some);
    let hit = ImportedEvent::Drum { drum, start_tick: (s.tick + press_delta) as u32 };
    assert(pressed.events + seq![hit] =~= s.events.push(hit));
}


/// The state after reading a whole track from the start.
pub open spec fn read_track(events: Seq<(u32, IncomingEvent)>) -> ImportState
    decreases events.len(),
{
    if events.len() == 0 {
        initial_state()
    } else {
        import_step(read_track(events.drop_last()), events.last().0, events.last().1)
    }
}

/// A track that can be read: its ticks fit in 32 bits and its channels and
/// keys are within MIDI's ranges.
pub open spec fn track_readable(events: Seq<(u32, IncomingEvent)>) -> bool {
    &&& crate::midi::events::tick_sum(deltas_of(events), events.len() as int) <= u32::MAX
    &&& forall|i: int| 0 <= i < events.len() ==> valid_event(#[trigger] events[i].1)
}

/// The notes and drum hits of a state once the notes still pressed are added.
pub open spec fn finished_events(s: ImportState) -> Seq<ImportedEvent> {
    s.events + hanging_events(s, 2048)
}

/// The states of the tracks read that hold a note or a drum hit, in track
/// order.
pub open spec fn kept_tracks(tracks: Seq<Seq<(u32, IncomingEvent)>>) -> Seq<ImportState>
    decreases tracks.len(),
{
    if tracks.len() == 0 {
        Seq::empty()
    } else {
        let s = read_track(tracks.last());
        kept_tracks(tracks.drop_last()) + if finished_events(s).len() > 0 {
            seq![s]
        } else {
            Seq::<ImportState>::empty()
        }
    }
}

/// A track read agrees with a state: its name and program, and its notes and
/// drum hits once the notes still pressed are added.
pub open spec fn track_matches(t: ImportedTrack, s: ImportState) -> bool {
    &&& bytes_view(t.name) == s.name
    &&& t.program == s.program
    &&& t.events@ == finished_events(s)
}

/// The tracks of a file as vectors' contents.
pub open spec fn tracks_seq(tracks: Seq<Vec<(u32, IncomingEvent)>>) -> Seq<Seq<(u32, IncomingEvent)>> {
    Seq::new(tracks.len(), |t: int| tracks[t]@)
}

/// Reading a track from the start up to event `i` keeps the state reachable
/// and the tick at the sum of the deltas.
proof fn lemma_read_track_prefix(events: Seq<(u32, IncomingEvent)>, i: int)
    requires
        track_readable(events),
        0 <= i <= events.len(),
    ensures
        state_wf(read_track(events.take(i))),
        read_track(events.take(i)).tick == crate::midi::events::tick_sum(deltas_of(events), i),
    decreases i,
{
    if i == 0 {
        assert(events.take(0) =~= Seq::<(u32, IncomingEvent)>::empty());
        assert forall|k: int| 0 <= k < 2048 implies match #[trigger] initial_state().active[k] {
            Some(a) => a.start_tick <= initial_state().tick,
            None => true,
        } by {}
    } else {
        lemma_read_track_prefix(events, i - 1);
        assert(events.take(i).drop_last() =~= events.take(i - 1));
        assert(events.take(i).last() == events[i - 1]);
        crate::midi::events::lemma_tick_sum_monotone(deltas_of(events), i, events.len() as int);
        assert(deltas_of(events)[i - 1] == events[i - 1].0);
        lemma_step_wf(read_track(events.take(i - 1)), events[i - 1].0, events[i - 1].1);
    }
}

/// The ticks of all the events of a track.
pub open spec fn track_ticks(events: Seq<(u32, IncomingEvent)>) -> int {
    crate::midi::events::tick_sum(deltas_of(events), events.len() as int)
}

/// A controller or program-change message.
pub open spec fn is_control(event: IncomingEvent) -> bool {
    ||| event matches IncomingEvent::Midi { message: IncomingMessage::Controller { .. }, .. }
    ||| event matches IncomingEvent::Midi { message: IncomingMessage::ProgramChange { .. }, .. }
}

/// The ticks of the controller and program-change messages that end a track.
pub open spec fn trailing_control_ticks(events: Seq<(u32, IncomingEvent)>) -> int
    decreases events.len(),
{
    if events.len() > 0 && is_control(events.last().1) {
        events.last().0 + trailing_control_ticks(events.drop_last())
    } else {
        0
    }
}

/// A track with its controller and program-change messages taken out, every
/// other event keeping its absolute tick: the delta of a message taken out
/// passes to the next event kept.
pub open spec fn without_controls(events: Seq<(u32, IncomingEvent)>) -> Seq<(u32, IncomingEvent)>
    decreases events.len(),
{
    if events.len() == 0 {
        Seq::empty()
    } else {
        let rest = events.drop_last();
        if is_control(events.last().1) {
            without_controls(rest)
        } else {
            without_controls(rest).push(((events.last().0 + trailing_control_ticks(rest)) as u32, events.last().1))
        }
    }
}

/// Two states that play the same: the same name, bends, pressed notes, and
/// notes and drum hits read.
pub open spec fn same_playback(a: ImportState, b: ImportState) -> bool {
    &&& a.name == b.name
    &&& a.bends == b.bends
    &&& a.active == b.active
    &&& a.events == b.events
}

proof fn lemma_tick_sum_prefix(a: Seq<u32>, b: Seq<u32>, n: int)
    requires
        0 <= n <= a.len(),
        n <= b.len(),
        forall|i: int| 0 <= i < n ==> a[i] == b[i],
    ensures
        crate::midi::events::tick_sum(a, n) == crate::midi::events::tick_sum(b, n),
    decreases n,
{
    if n > 0 {
        lemma_tick_sum_prefix(a, b, n - 1);
    }
}

/// A track without its last event is readable, and its ticks are those of
/// the track less the last delta.
proof fn lemma_readable_drop_last(events: Seq<(u32, IncomingEvent)>)
    requires
        track_readable(events),
        events.len() > 0,
    ensures
        track_readable(events.drop_last()),
        track_ticks(events) == track_ticks(events.drop_last()) + events.last().0,
        track_ticks(events.drop_last()) >= 0,
{
    let rest = events.drop_last();
    let n = rest.len() as int;
    lemma_tick_sum_prefix(deltas_of(rest), deltas_of(events), n);
    crate::midi::events::lemma_tick_sum_monotone(deltas_of(rest), 0, n);
    assert(deltas_of(events)[n] == events.last().0);
    assert forall|i: int| 0 <= i < rest.len() implies valid_event(#[trigger] rest[i].1) by {
        assert(rest[i] == events[i]);
    }
}

/// The ticks of a track with one more event.
proof fn lemma_track_ticks_push(rest: Seq<(u32, IncomingEvent)>, e: (u32, IncomingEvent))
    ensures
        track_ticks(rest.push(e)) == track_ticks(rest) + e.0,
{
    let n = rest.len() as int;
    lemma_tick_sum_prefix(deltas_of(rest), deltas_of(rest.push(e)), n);
    assert(deltas_of(rest.push(e))[n] == e.0);
}

/// The state of a whole readable track has the tick of all its events.
proof fn lemma_read_track_tick(events: Seq<(u32, IncomingEvent)>)
    requires
        track_readable(events),
    ensures
        state_wf(read_track(events)),
        read_track(events).tick == track_ticks(events),
{
    lemma_read_track_prefix(events, events.len() as int);
    assert(events.take(events.len() as int) =~= events);
}

/// One more event read from two states that play the same, at the same tick,
/// gives two states that play the same, at the same tick.
proof fn lemma_step_same_playback(a: ImportState, b: ImportState, da: u32, db: u32, event: IncomingEvent)
    requires
        same_playback(a, b),
        a.tick + da == b.tick + db,
        a.tick + da <= u32::MAX,
    ensures
        same_playback(import_step(a, da, event), import_step(b, db, event)),
        import_step(a, da, event).tick == import_step(b, db, event).tick,
{
}

/// A controller or program-change message changes nothing that plays.
proof fn lemma_control_step(s: ImportState, delta: u32, event: IncomingEvent)
    requires
        is_control(event),
    ensures
        same_playback(import_step(s, delta, event), s),
{
}

/// The notes still pressed at the end depend only on which are pressed.
proof fn lemma_hanging_same(a: ImportState, b: ImportState, n: int)
    requires
        a.active == b.active,
    ensures
        hanging_events(a, n) == hanging_events(b, n),
    decreases n,
{
    if n > 0 {
        lemma_hanging_same(a, b, n - 1);
    }
}

proof fn lemma_without_controls_reads(events: Seq<(u32, IncomingEvent)>)
    requires
        track_readable(events),
    ensures
        track_readable(without_controls(events)),
        track_ticks(without_controls(events)) + trailing_control_ticks(events) == track_ticks(events),
        same_playback(read_track(without_controls(events)), read_track(events)),
        trailing_control_ticks(events) >= 0,
    decreases events.len(),
{
    if events.len() == 0 {
        assert(without_controls(events) =~= events);
    } else {
        let rest = events.drop_last();
        let d = events.last().0;
        let ev = events.last().1;
        lemma_readable_drop_last(events);
        lemma_without_controls_reads(rest);
        let sr = without_controls(rest);
        lemma_read_track_tick(rest);
        lemma_read_track_tick(sr);
        lemma_readable_drop_last(events);
        crate::midi::events::lemma_tick_sum_monotone(deltas_of(sr), 0, sr.len() as int);
        assert(read_track(events) == import_step(read_track(rest), d, ev));
        if is_control(ev) {
            lemma_control_step(read_track(rest), d, ev);
        } else {
            assert(0 <= d + trailing_control_ticks(rest) <= track_ticks(events));
            let nd = (d + trailing_control_ticks(rest)) as u32;
            let x = (nd, ev);
            let out = sr.push(x);
            assert(without_controls(events) == out);
            lemma_track_ticks_push(sr, x);
            assert forall|i: int| 0 <= i < out.len() implies valid_event(#[trigger] out[i].1) by {
                if i < sr.len() {
                    assert(out[i] == sr[i]);
                } else {
                    assert(events[events.len() - 1] == events.last());
                }
            }
            assert(out.drop_last() =~= sr);
            assert(read_track(out) == import_step(read_track(sr), nd, ev));
            lemma_step_same_playback(read_track(sr), read_track(rest), nd, d, ev);
        }
    }
}

/// Controller and program-change messages do not change what a track plays:
/// with all of them taken out, every other event keeping its absolute tick,
/// a track reads back with the same name and the same notes and drum hits;
/// only the stored program can differ.
pub proof fn lemma_controls_do_not_change_playback(events: Seq<(u32, IncomingEvent)>)
    requires
        track_readable(events),
    ensures
        track_readable(without_controls(events)),
        read_track(without_controls(events)).name == read_track(events).name,
        finished_events(read_track(without_controls(events))) == finished_events(read_track(events)),
{
    lemma_without_controls_reads(events);
    lemma_hanging_same(read_track(without_controls(events)), read_track(events), 2048);
}

/// Reads one track with a fresh importer.
fn read_one_track(track: Vec<(u32, IncomingEvent)>) -> (t: ImportedTrack)
    requires
        track_readable(track@),
    ensures
        track_matches(t, read_track(track@)),
{
    broadcast use vstd::std_specs::vec::axiom_spec_into_iter;
    let ghost total = track@;
    let mut importer = TrackImporter::new();
    proof {
        assert(total.take(0) =~= Seq::<(u32, IncomingEvent)>::empty());
    }
    for entry in it: track.into_iter()
        invariant
            it.seq() == total,
            track_readable(total),
            importer.wf(),
            importer@ == read_track(total.take(it.index())),
    {
        let (delta, event) = entry;
        let ghost k = it.index();
        proof {
            assert(total[k] == entry);
            lemma_read_track_prefix(total, k);
            lemma_read_track_prefix(total, k + 1);
            assert(total.take(k + 1).drop_last() =~= total.take(k));
            assert(deltas_of(total)[k] == delta);
            assert(valid_event(total[k].1));
        }
        importer.process(delta, event);
    }
    proof {
        assert(total.take(total.len() as int) =~= total);
    }
    importer.finish()
}

/// The tracks of a file read, leaving out those without a note or drum hit.
pub fn import_tracks(tracks: Vec<Vec<(u32, IncomingEvent)>>) -> (r: Vec<ImportedTrack>)
    requires
        forall|t: int| 0 <= t < tracks@.len() ==> track_readable(#[trigger] tracks@[t]@),
    ensures
        r@.len() == kept_tracks(tracks_seq(tracks@)).len(),
        forall|i: int| 0 <= i < r@.len() ==> track_matches(#[trigger] r@[i], kept_tracks(tracks_seq(tracks@))[i]),
{
    broadcast use vstd::std_specs::vec::axiom_spec_into_iter;
    let ghost total = tracks@;
    let mut out: Vec<ImportedTrack> = Vec::new();
    proof {
        assert(tracks_seq(total.take(0)) =~= Seq::<Seq<(u32, IncomingEvent)>>::empty());
    }
    for track in it: tracks.into_iter()
        invariant
            it.seq() == total,
            forall|t: int| 0 <= t < total.len() ==> track_readable(#[trigger] total[t]@),
            out@.len() == kept_tracks(tracks_seq(total.take(it.index()))).len(),
            forall|i: int| 0 <= i < out@.len() ==> track_matches(
                #[trigger] out@[i],
                kept_tracks(tracks_seq(total.take(it.index())))[i],
            ),
    {
        let ghost k = it.index();
        proof {
            assert(total[k] == track);
        }
        let ghost track_view = track@;
        let read = read_one_track(track);
        let ghost old_out = out@;
        proof {
            assert(tracks_seq(total.take(k + 1)).drop_last() =~= tracks_seq(total.take(k)));
            assert(tracks_seq(total.take(k + 1)).last() == track_view);
        }
        if read.events.len() > 0 {
            out.push(read);
            proof {
                assert forall|i: int| 0 <= i < out@.len() implies track_matches(
                    #[trigger] out@[i],
                    kept_tracks(tracks_seq(total.take(k + 1)))[i],
                ) by {
                    if i < old_out.len() {
                        assert(out@[i] == old_out[i]);
                    }
                }
            }
        } else {
            proof {
                assert(kept_tracks(tracks_seq(total.take(k + 1))) =~= kept_tracks(tracks_seq(total.take(k))));
            }
        }
    }
    proof {
        assert(total.take(total.len() as int) =~= total);
        assert(tracks_seq(total) =~= tracks_seq(total.take(total.len() as int)));
    }
    out
}

} // verus!
