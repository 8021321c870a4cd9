//! The channel and meta events of exported MIDI tracks: how notes and drum
//! hits become note-on/note-off pairs, how channels are handed out, and how
//! absolute ticks become the delta times of a Standard MIDI File.
use vstd::prelude::*;
use crate::instruments::drums::DrumType;
use crate::key_signature::{KeySignature, is_minor_mode, sharps_flats};
use crate::midi::convert::{DEFAULT_VELOCITY, drum_type_to_midi_note, gm_note_of};

verus! {

/// The pitch-bend value that means "no bend".
pub const PITCH_BEND_CENTER: u16 = 8192;

/// The channel that General MIDI reserves for percussion (channel 10, counted from 0).
pub const DRUM_CHANNEL: u8 = 9;

/// Ticks between an exported drum hit's note-on and its note-off.
pub const DRUM_HIT_TICKS: u32 = 10;

/// A channel message of an exported track.
#[derive(Debug, Clone, Copy, PartialEq, Eq, Structural)]
pub enum ChannelMessage {
    NoteOn { note: u8, velocity: u8 },
    NoteOff { note: u8 },
    PitchBend { bend: u16 },
    ControlChange { controller: u8, value: u8 },
    ProgramChange { program: u8 },
}

/// A channel message at an absolute tick.
#[derive(Debug, Clone, Copy, PartialEq, Eq, Structural)]
pub struct TimedMessage {
    pub tick: u32,
    pub message: ChannelMessage,
}

/// A meta event of the tempo track.
#[derive(Debug, Clone, Copy, PartialEq, Eq, Structural)]
pub enum MetaEvent {
    /// Microseconds per quarter note.
    Tempo { micros_per_quarter: u32 },
    /// A meter, its denominator written as a power of two.
    TimeSignature { numerator: u8, denominator_power: u8, clocks_per_click: u8, thirty_seconds_per_quarter: u8 },
    /// A key: sharps (positive) or flats (negative), and whether it is minor.
    KeySignature { sharps_flats: i8, minor: bool },
}

/// The power of two that a MIDI time signature writes for a denominator;
/// a denominator that is no power of two from 2 to 32 is written as 4.
pub open spec fn denominator_power(denominator: u8) -> u8 {
    if denominator == 2 {
        1
    } else if denominator == 4 {
        2
    } else if denominator == 8 {
        3
    } else if denominator == 16 {
        4
    } else if denominator == 32 {
        5
    } else {
        2
    }
}

/// Two to the power `p`.
pub open spec fn two_to(p: nat) -> nat
    decreases p,
{
    if p == 0 {
        1
    } else {
        2 * two_to((p - 1) as nat)
    }
}

/// The MIDI power of two for a time-signature denominator.
pub fn time_signature_denominator_to_midi(denominator: u8) -> (p: u8)
    ensures
        p == denominator_power(denominator),
{
    match denominator {
        2 => 1,
        4 => 2,
        8 => 3,
        16 => 4,
        32 => 5,
        _ => 2,
    }
}

/// The denominator that a MIDI time signature's power of two stands for.
pub fn midi_to_time_signature_denominator(power: u8) -> (d: u8)
    requires
        power < 8,
    ensures
        d == two_to(power as nat),
{
    proof {
        reveal_with_fuel(two_to, 8);
    }
    match power {
        0 => 1,
        1 => 2,
        2 => 4,
        3 => 8,
        4 => 16,
        5 => 32,
        6 => 64,
        _ => 128,
    }
}

/// A meter written to a file and read back keeps its denominator, for the
/// denominators a MIDI time signature can hold (2 to 32); any other is read
/// back as 4.
pub proof fn lemma_denominator_reads_back(denominator: u8)
    ensures
        (denominator == 2 || denominator == 4 || denominator == 8 || denominator == 16 || denominator == 32)
            ==> two_to(denominator_power(denominator) as nat) == denominator,
        !(denominator == 2 || denominator == 4 || denominator == 8 || denominator == 16 || denominator == 32)
            ==> two_to(denominator_power(denominator) as nat) == 4,
        denominator_power(denominator) < 8,
{
    reveal_with_fuel(two_to, 6);
}

/// The time-signature meta event of a meter: the denominator as a power of two,
/// 24 MIDI clocks per metronome click and 8 thirty-second notes per quarter.
pub fn time_signature_event(numerator: u8, denominator: u8) -> (e: MetaEvent)
    ensures
        e == (MetaEvent::TimeSignature {
            numerator,
            denominator_power: denominator_power(denominator),
            clocks_per_click: 24,
            thirty_seconds_per_quarter: 8,
        }),
{
    MetaEvent::TimeSignature {
        numerator,
        denominator_power: time_signature_denominator_to_midi(denominator),
        clocks_per_click: 24,
        thirty_seconds_per_quarter: 8,
    }
}

/// The key-signature meta event of a key.
pub fn key_signature_event(key: KeySignature) -> (e: MetaEvent)
    ensures
        e == (MetaEvent::KeySignature {
            sharps_flats: sharps_flats(key) as i8,
            minor: is_minor_mode(key.mode),
        }),
{
    MetaEvent::KeySignature { sharps_flats: key.to_midi_sharps_flats(), minor: key.is_minor() }
}

/// The melodic channels in the order they are handed out: 0 to 15 without the
/// drum channel 9.
pub open spec fn melodic_channel_at(i: int) -> u8 {
    if i < 9 {
        i as u8
    } else {
        (i + 1) as u8
    }
}

/// The channel of the `index`-th melodic track: the fifteen melodic channels
/// in turn, starting again after the last.
pub fn melodic_channel(index: usize) -> (ch: u8)
    ensures
        ch == melodic_channel_at((index % 15) as int),
        ch < 16,
        ch != DRUM_CHANNEL,
{
    let i = index % 15;
    if i < 9 {
        i as u8
    } else {
        (i + 1) as u8
    }
}

/// Hands out channels to the tracks of an export in order: tracks that start
/// with a drum hit share the drum channel, every other track takes the next
/// melodic channel.
pub struct ChannelAllocator {
    next_melodic: usize,
}

impl ChannelAllocator {
    /// How many melodic tracks have been given a channel.
    pub closed spec fn melodic_count(&self) -> nat {
        self.next_melodic as nat
    }

    /// An allocator that has handed out nothing yet.
    pub fn new() -> (a: Self)
        ensures
            a.melodic_count() == 0,
    {
        ChannelAllocator { next_melodic: 0 }
    }

    /// How many melodic tracks have been given a channel.
    pub fn melodic_tracks(&self) -> (n: usize)
        ensures
            n == self.melodic_count(),
    {
        self.next_melodic
    }

    /// The channel of the next track.
    pub fn allocate(&mut self, is_drum_track: bool) -> (ch: u8)
        requires
            old(self).melodic_count() < usize::MAX,
        ensures
            is_drum_track ==> ch == DRUM_CHANNEL && final(self).melodic_count() == old(self).melodic_count(),
            !is_drum_track ==> ch == melodic_channel_at((old(self).melodic_count() % 15) as int)
                && final(self).melodic_count() == old(self).melodic_count() + 1,
    {
        if is_drum_track {
            DRUM_CHANNEL
        } else {
            let ch = melodic_channel(self.next_melodic);
            self.next_melodic = self.next_melodic + 1;
            ch
        }
    }
}

/// No two of the first fifteen melodic tracks share a channel, and none of
/// them is given the drum channel.
pub proof fn lemma_melodic_channels_distinct(i: int, j: int)
    requires
        0 <= i < 15,
        0 <= j < 15,
        i != j,
    ensures
        melodic_channel_at(i) != melodic_channel_at(j),
        melodic_channel_at(i) != DRUM_CHANNEL,
        melodic_channel_at(i) < 16,
{
}

/// The note-on and note-off of each note of a chord, in chord order.
pub open spec fn chord_messages(start_tick: u32, end_tick: u32, velocity: u8, notes: Seq<u8>) -> Seq<TimedMessage>
    decreases notes.len(),
{
    if notes.len() == 0 {
        Seq::empty()
    } else {
        chord_messages(start_tick, end_tick, velocity, notes.drop_last())
            .push(TimedMessage { tick: start_tick, message: ChannelMessage::NoteOn { note: notes.last(), velocity } })
            .push(TimedMessage { tick: end_tick, message: ChannelMessage::NoteOff { note: notes.last() } })
    }
}

/// The messages of one exported note: a pitch bend at its start when it is
/// bent, a note-on and note-off for each pitch of the chord, and a bend back
/// to the centre at its end when it was bent.
pub open spec fn note_messages_of(
    start_tick: u32,
    end_tick: u32,
    velocity: u8,
    notes: Seq<u8>,
    pitch_bend: Option<u16>,
) -> Seq<TimedMessage> {
    match pitch_bend {
        Some(value) => seq![TimedMessage { tick: start_tick, message: ChannelMessage::PitchBend { bend: value } }]
            + chord_messages(start_tick, end_tick, velocity, notes)
            + seq![TimedMessage { tick: end_tick, message: ChannelMessage::PitchBend { bend: PITCH_BEND_CENTER } }],
        None => chord_messages(start_tick, end_tick, velocity, notes),
    }
}

/// The messages of one exported note (see `note_messages_of`).
pub fn note_messages(
    start_tick: u32,
    end_tick: u32,
    velocity: u8,
    notes: &Vec<u8>,
    pitch_bend: Option<u16>,
) -> (r: Vec<TimedMessage>)
    ensures
        r@ == note_messages_of(start_tick, end_tick, velocity, notes@, pitch_bend),
{
    let mut r: Vec<TimedMessage> = Vec::new();
    if let Some(value) = pitch_bend {
        r.push(TimedMessage { tick: start_tick, message: ChannelMessage::PitchBend { bend: value } });
    }
    let ghost prefix = r@;
    let mut i: usize = 0;
    while i < notes.len()
        invariant
            i <= notes.len(),
            prefix == (match pitch_bend {
                Some(value) => seq![TimedMessage { tick: start_tick, message: ChannelMessage::PitchBend { bend: value } }],
                None => Seq::<TimedMessage>::empty(),
            }),
            r@ == prefix + chord_messages(start_tick, end_tick, velocity, notes@.take(i as int)),
        decreases notes.len() - i,
    {
        let note = notes[i];
        proof {
            assert(notes@.take(i + 1).drop_last() =~= notes@.take(i as int));
        }
        r.push(TimedMessage { tick: start_tick, message: ChannelMessage::NoteOn { note, velocity } });
        r.push(TimedMessage { tick: end_tick, message: ChannelMessage::NoteOff { note } });
        i = i + 1;
    }
    assert(notes@.take(notes@.len() as int) =~= notes@);
    if pitch_bend.is_some() {
        r.push(TimedMessage { tick: end_tick, message: ChannelMessage::PitchBend { bend: PITCH_BEND_CENTER } });
    }
    r
}

/// The messages of one exported drum hit: its General MIDI note at the default
/// velocity, released ten ticks later.
pub fn drum_messages(tick: u32, drum: DrumType) -> (r: Vec<TimedMessage>)
    requires
        tick + DRUM_HIT_TICKS <= u32::MAX,
    ensures
        r@ == seq![
            TimedMessage { tick, message: ChannelMessage::NoteOn { note: gm_note_of(drum), velocity: DEFAULT_VELOCITY } },
            TimedMessage { tick: (tick + DRUM_HIT_TICKS) as u32, message: ChannelMessage::NoteOff { note: gm_note_of(drum) } },
        ],
{
    let note = drum_type_to_midi_note(drum);
    let mut r: Vec<TimedMessage> = Vec::new();
    r.push(TimedMessage { tick, message: ChannelMessage::NoteOn { note, velocity: DEFAULT_VELOCITY } });
    r.push(TimedMessage { tick: tick + DRUM_HIT_TICKS, message: ChannelMessage::NoteOff { note } });
    r
}


/// `msgs` inserted after every message whose tick is not later than its own,
/// the message left where it stands when all of them are later: one step of
/// a stable sort by tick.
pub open spec fn insert_by_tick(sorted: Seq<TimedMessage>, msg: TimedMessage) -> Seq<TimedMessage>
    decreases sorted.len(),
{
    if sorted.len() == 0 {
        seq![msg]
    } else if sorted.last().tick <= msg.tick {
        sorted.push(msg)
    } else {
        insert_by_tick(sorted.drop_last(), msg).push(sorted.last())
    }
}

/// The messages stably sorted by tick: messages at the same tick keep their
/// order.
pub open spec fn sorted_by_tick(msgs: Seq<TimedMessage>) -> Seq<TimedMessage>
    decreases msgs.len(),
{
    if msgs.len() == 0 {
        Seq::empty()
    } else {
        insert_by_tick(sorted_by_tick(msgs.drop_last()), msgs.last())
    }
}

/// Ticks never go down along the messages.
pub open spec fn ticks_ascending(msgs: Seq<TimedMessage>) -> bool {
    forall|i: int, j: int| 0 <= i <= j < msgs.len() ==> msgs[i].tick <= msgs[j].tick
}

/// Inserting at the first position from which every message is later gives
/// the same sequence as `insert_by_tick`.
proof fn lemma_insert_at(sorted: Seq<TimedMessage>, msg: TimedMessage, j: int)
    requires
        0 <= j <= sorted.len(),
        j > 0 ==> sorted[j - 1].tick <= msg.tick,
        forall|k: int| j <= k < sorted.len() ==> sorted[k].tick > msg.tick,
    ensures
        insert_by_tick(sorted, msg) == sorted.insert(j, msg),
    decreases sorted.len(),
{
    if sorted.len() == j {
        assert(sorted.insert(j, msg) =~= sorted.push(msg));
    } else {
        lemma_insert_at(sorted.drop_last(), msg, j);
        assert(sorted.insert(j, msg) =~= sorted.drop_last().insert(j, msg).push(sorted.last()));
    }
}

/// Inserting into ascending messages keeps them ascending and adds exactly
/// the one message.
pub proof fn lemma_insert_by_tick(sorted: Seq<TimedMessage>, msg: TimedMessage)
    requires
        ticks_ascending(sorted),
    ensures
        ticks_ascending(insert_by_tick(sorted, msg)),
        insert_by_tick(sorted, msg).to_multiset() == sorted.to_multiset().insert(msg),
        insert_by_tick(sorted, msg).len() == sorted.len() + 1,
    decreases sorted.len(),
{
    broadcast use vstd::seq_lib::group_to_multiset_ensures;
    if sorted.len() == 0 {
        assert(seq![msg] =~= Seq::<TimedMessage>::empty().push(msg));
    } else if sorted.last().tick <= msg.tick {
    } else {
        let rest = sorted.drop_last();
        lemma_insert_by_tick(rest, msg);
        let ins = insert_by_tick(rest, msg);
        assert(sorted =~= rest.push(sorted.last()));
        assert forall|i: int, j: int| 0 <= i <= j < ins.len() + 1 implies #[trigger] ins.push(sorted.last())[i].tick
            <= #[trigger] ins.push(sorted.last())[j].tick by {
            if j == ins.len() && i < ins.len() {
                let x = ins[i];
                assert(ins.to_multiset().count(x) > 0);
                assert(rest.to_multiset().insert(msg).count(x) > 0);
                if x != msg {
                    assert(rest.to_multiset().count(x) > 0);
                    assert(rest.contains(x));
                    let k = choose|k: int| 0 <= k < rest.len() && rest[k] == x;
                    assert(sorted[k] == x);
                }
            }
        }
    }
}

/// Sorting gives ascending ticks and the same messages.
pub proof fn lemma_sorted_by_tick(msgs: Seq<TimedMessage>)
    ensures
        ticks_ascending(sorted_by_tick(msgs)),
        sorted_by_tick(msgs).to_multiset() == msgs.to_multiset(),
        sorted_by_tick(msgs).len() == msgs.len(),
    decreases msgs.len(),
{
    broadcast use vstd::seq_lib::group_to_multiset_ensures;
    if msgs.len() > 0 {
        lemma_sorted_by_tick(msgs.drop_last());
        lemma_insert_by_tick(sorted_by_tick(msgs.drop_last()), msgs.last());
        assert(msgs =~= msgs.drop_last().push(msgs.last()));
    }
}

/// The messages stably sorted by tick (see `sorted_by_tick`).
pub fn sort_by_tick(msgs: &Vec<TimedMessage>) -> (r: Vec<TimedMessage>)
    ensures
        r@ == sorted_by_tick(msgs@),
        ticks_ascending(r@),
        r@.to_multiset() == msgs@.to_multiset(),
{
    let mut out: Vec<TimedMessage> = Vec::new();
    let mut i: usize = 0;
    while i < msgs.len()
        invariant
            i <= msgs.len(),
            out@ == sorted_by_tick(msgs@.take(i as int)),
        decreases msgs.len() - i,
    {
        let msg = msgs[i];
        proof {
            lemma_sorted_by_tick(msgs@.take(i as int));
        }
        let mut j: usize = out.len();
        while j > 0 && out[j - 1].tick > msg.tick
            invariant
                j <= out.len(),
                forall|k: int| j <= k < out.len() ==> out@[k].tick > msg.tick,
            decreases j,
        {
            j = j - 1;
        }
        proof {
            lemma_insert_at(out@, msg, j as int);
            assert(msgs@.take(i + 1).drop_last() =~= msgs@.take(i as int));
        }
        out.insert(j, msg);
        i = i + 1;
    }
    proof {
        assert(msgs@.take(msgs@.len() as int) =~= msgs@);
        lemma_sorted_by_tick(msgs@);
    }
    out
}

/// The time from the previous tick to tick `i` (from tick 0 for the first),
/// or 0 where the ticks go down.
pub open spec fn tick_delta(ticks: Seq<u32>, i: int) -> u32 {
    if i == 0 {
        ticks[0]
    } else if ticks[i] >= ticks[i - 1] {
        (ticks[i] - ticks[i - 1]) as u32
    } else {
        0
    }
}

/// The sum of the first `n` deltas: the absolute tick they lead to.
pub open spec fn tick_sum(deltas: Seq<u32>, n: int) -> int
    decreases n,
{
    if n <= 0 {
        0
    } else {
        tick_sum(deltas, n - 1) + deltas[n - 1]
    }
}

/// The delta time of each tick from the one before it (see `tick_delta`).
pub fn tick_deltas(ticks: &Vec<u32>) -> (r: Vec<u32>)
    ensures
        r@.len() == ticks@.len(),
        forall|i: int| 0 <= i < ticks@.len() ==> r@[i] == tick_delta(ticks@, i),
{
    let mut r: Vec<u32> = Vec::new();
    let mut last: u32 = 0;
    let mut i: usize = 0;
    while i < ticks.len()
        invariant
            i <= ticks.len(),
            r@.len() == i,
            i > 0 ==> last == ticks@[i - 1],
            i == 0 ==> last == 0,
            forall|k: int| 0 <= k < i ==> r@[k] == tick_delta(ticks@, k),
        decreases ticks.len() - i,
    {
        let t = ticks[i];
        r.push(t.saturating_sub(last));
        last = t;
        i = i + 1;
    }
    r
}

/// The absolute tick reached after each delta.
pub fn absolute_ticks(deltas: &Vec<u32>) -> (r: Vec<u32>)
    requires
        tick_sum(deltas@, deltas@.len() as int) <= u32::MAX,
    ensures
        r@.len() == deltas@.len(),
        forall|i: int| 0 <= i < deltas@.len() ==> r@[i] == tick_sum(deltas@, i + 1),
{
    let mut r: Vec<u32> = Vec::new();
    let mut total: u32 = 0;
    let mut i: usize = 0;
    while i < deltas.len()
        invariant
            i <= deltas.len(),
            r@.len() == i,
            total == tick_sum(deltas@, i as int),
            tick_sum(deltas@, deltas@.len() as int) <= u32::MAX,
            forall|k: int| 0 <= k < i ==> r@[k] == tick_sum(deltas@, k + 1),
        decreases deltas.len() - i,
    {
        proof {
            lemma_tick_sum_monotone(deltas@, i + 1, deltas@.len() as int);
        }
        total = total + deltas[i];
        r.push(total);
        i = i + 1;
    }
    r
}

/// Sums of more deltas are never smaller.
pub proof fn lemma_tick_sum_monotone(deltas: Seq<u32>, m: int, n: int)
    requires
        0 <= m <= n,
    ensures
        tick_sum(deltas, m) <= tick_sum(deltas, n),
    decreases n - m,
{
    if m < n {
        lemma_tick_sum_monotone(deltas, m, n - 1);
    }
}

/// Delta times of ascending ticks add up again to the ticks: reading back the
/// delta times of an exported track gives the absolute tick of every event.
pub proof fn lemma_deltas_add_up(ticks: Seq<u32>, deltas: Seq<u32>)
    requires
        forall|i: int, j: int| 0 <= i <= j < ticks.len() ==> ticks[i] <= ticks[j],
        deltas.len() == ticks.len(),
        forall|i: int| 0 <= i < ticks.len() ==> deltas[i] == tick_delta(ticks, i),
    ensures
        forall|i: int| 0 <= i < ticks.len() ==> tick_sum(deltas, i + 1) == ticks[i],
{
    assert forall|i: int| 0 <= i < ticks.len() implies tick_sum(deltas, i + 1) == ticks[i] by {
        lemma_deltas_prefix(ticks, deltas, i);
    }
}

proof fn lemma_deltas_prefix(ticks: Seq<u32>, deltas: Seq<u32>, i: int)
    requires
        forall|a: int, b: int| 0 <= a <= b < ticks.len() ==> ticks[a] <= ticks[b],
        deltas.len() == ticks.len(),
        forall|k: int| 0 <= k < ticks.len() ==> deltas[k] == tick_delta(ticks, k),
        0 <= i < ticks.len(),
    ensures
        tick_sum(deltas, i + 1) == ticks[i],
    decreases i,
{
    assert(tick_sum(deltas, i + 1) == tick_sum(deltas, i) + deltas[i]);
    if i > 0 {
        lemma_deltas_prefix(ticks, deltas, i - 1);
        assert(ticks[i - 1] <= ticks[i]);
    } else {
        assert(tick_sum(deltas, 0) == 0);
    }
}

/// A channel message with the delta time since the message before it.
#[derive(Debug, Clone, Copy, PartialEq, Eq, Structural)]
pub struct DeltaMessage {
    pub delta: u32,
    pub message: ChannelMessage,
}

/// The ticks of a sequence of messages.
pub open spec fn ticks_of(msgs: Seq<TimedMessage>) -> Seq<u32> {
    Seq::new(msgs.len(), |i: int| msgs[i].tick)
}

/// The messages stably sorted by tick, each with its delta time from the one
/// before.
pub open spec fn encoded_messages(msgs: Seq<TimedMessage>) -> Seq<DeltaMessage> {
    let sorted = sorted_by_tick(msgs);
    Seq::new(
        sorted.len(),
        |i: int| DeltaMessage { delta: tick_delta(ticks_of(sorted), i), message: sorted[i].message },
    )
}

/// The messages of a track ready to be written: stably sorted by tick, each
/// with its delta time from the one before.
pub fn encode_track_messages(msgs: &Vec<TimedMessage>) -> (r: Vec<DeltaMessage>)
    ensures
        r@ == encoded_messages(msgs@),
        r@.len() == msgs@.len(),
        forall|i: int| 0 <= i < r@.len() ==> (#[trigger] r@[i]).message == sorted_by_tick(msgs@)[i].message
            && r@[i].delta == tick_delta(ticks_of(sorted_by_tick(msgs@)), i),
        forall|i: int| 0 <= i < r@.len() ==> tick_sum(Seq::new(r@.len(), |k: int| r@[k].delta), i + 1)
            == sorted_by_tick(msgs@)[i].tick,
{
    let sorted = sort_by_tick(msgs);
    proof {
        lemma_sorted_by_tick(msgs@);
    }
    let ghost sticks = ticks_of(sorted@);
    let mut r: Vec<DeltaMessage> = Vec::new();
    let mut last: u32 = 0;
    let mut i: usize = 0;
    while i < sorted.len()
        invariant
            i <= sorted.len(),
            sticks == ticks_of(sorted@),
            r@.len() == i,
            i > 0 ==> last == sorted@[i - 1].tick,
            i == 0 ==> last == 0,
            forall|k: int| 0 <= k < i ==> (#[trigger] r@[k]).message == sorted@[k].message
                && r@[k].delta == tick_delta(sticks, k),
        decreases sorted.len() - i,
    {
        let m = sorted[i];
        r.push(DeltaMessage { delta: m.tick.saturating_sub(last), message: m.message });
        last = m.tick;
        i = i + 1;
    }
    proof {
        let deltas = Seq::new(r@.len(), |k: int| r@[k].delta);
        assert forall|a: int, b: int| 0 <= a <= b < sticks.len() implies sticks[a] <= sticks[b] by {
            assert(sorted@[a].tick <= sorted@[b].tick);
        }
        lemma_deltas_add_up(sticks, deltas);
        assert(r@ =~= encoded_messages(msgs@));
    }
    r
}


/// One event of a track to export.
pub enum TrackItem {
    /// A note of one or more pitches, with the pitch bend it is played at
    /// (`None` when it is not bent).
    Note { start_tick: u32, end_tick: u32, velocity: u8, notes: Vec<u8>, pitch_bend: Option<u16> },
    /// A drum hit.
    Drum { tick: u32, drum: DrumType },
    /// A controller value (modulation automation).
    Control { tick: u32, controller: u8, value: u8 },
}

/// The messages of one event of a track.
pub open spec fn item_messages(item: TrackItem) -> Seq<TimedMessage> {
    match item {
        TrackItem::Note { start_tick, end_tick, velocity, notes, pitch_bend } => note_messages_of(
            start_tick,
            end_tick,
            velocity,
            notes@,
            pitch_bend,
        ),
        TrackItem::Drum { tick, drum } => seq![
            TimedMessage { tick, message: ChannelMessage::NoteOn { note: gm_note_of(drum), velocity: DEFAULT_VELOCITY } },
            TimedMessage { tick: (tick + DRUM_HIT_TICKS) as u32, message: ChannelMessage::NoteOff { note: gm_note_of(drum) } },
        ],
        TrackItem::Control { tick, controller, value } => seq![
            TimedMessage { tick, message: ChannelMessage::ControlChange { controller, value } },
        ],
    }
}

/// The messages of a track's events, event after event.
pub open spec fn items_messages(items: Seq<TrackItem>) -> Seq<TimedMessage>
    decreases items.len(),
{
    if items.len() == 0 {
        Seq::empty()
    } else {
        items_messages(items.drop_last()) + item_messages(items.last())
    }
}

/// Every drum hit of the events leaves room for its release.
pub open spec fn drum_hits_fit(items: Seq<TrackItem>) -> bool {
    forall|i: int| 0 <= i < items.len() ==> match #[trigger] items[i] {
        TrackItem::Drum { tick, .. } => tick + DRUM_HIT_TICKS <= u32::MAX,
        _ => true,
    }
}

/// The messages of a track's events, event after event (see `item_messages`).
pub fn track_messages(items: &Vec<TrackItem>) -> (r: Vec<TimedMessage>)
    requires
        drum_hits_fit(items@),
    ensures
        r@ == items_messages(items@),
{
    let mut r: Vec<TimedMessage> = Vec::new();
    let mut i: usize = 0;
    while i < items.len()
        invariant
            i <= items@.len(),
            drum_hits_fit(items@),
            r@ == items_messages(items@.take(i as int)),
        decreases items@.len() - i,
    {
        let ghost before = r@;
        let mut part = match &items[i] {
            TrackItem::Note { start_tick, end_tick, velocity, notes, pitch_bend } => note_messages(
                *start_tick,
                *end_tick,
                *velocity,
                notes,
                *pitch_bend,
            ),
            TrackItem::Drum { tick, drum } => drum_messages(*tick, *drum),
            TrackItem::Control { tick, controller, value } => {
                let mut v: Vec<TimedMessage> = Vec::new();
                v.push(
                    TimedMessage {
                        tick: *tick,
                        message: ChannelMessage::ControlChange { controller: *controller, value: *value },
                    },
                );
                v
            },
        };
        assert(part@ == item_messages(items@[i as int]));
        r.append(&mut part);
        proof {
            assert(items@.take(i + 1).drop_last() =~= items@.take(i as int));
            assert(items@.take(i + 1).last() == items@[i as int]);
        }
        i = i + 1;
    }
    assert(items@.take(items@.len() as int) =~= items@);
    r
}

/// The set-up messages a track starts with, all at delta 0: its program, its
/// volume (controller 7) and its pan (controller 10), each where it has one.
pub open spec fn setup_messages(program: Option<u8>, volume: Option<u8>, pan: Option<u8>) -> Seq<DeltaMessage> {
    (match program {
        Some(p) => seq![DeltaMessage { delta: 0, message: ChannelMessage::ProgramChange { program: p } }],
        None => Seq::empty(),
    }) + (match volume {
        Some(v) => seq![DeltaMessage { delta: 0, message: ChannelMessage::ControlChange { controller: 7, value: v } }],
        None => Seq::empty(),
    }) + (match pan {
        Some(p) => seq![DeltaMessage { delta: 0, message: ChannelMessage::ControlChange { controller: 10, value: p } }],
        None => Seq::empty(),
    })
}

/// The channel messages of an exported track: its set-up messages, then its
/// events' messages stably sorted by tick with their delta times.
pub fn export_track(program: Option<u8>, volume: Option<u8>, pan: Option<u8>, items: &Vec<TrackItem>) -> (r: Vec<
    DeltaMessage,
>)
    requires
        drum_hits_fit(items@),
    ensures
        r@ == setup_messages(program, volume, pan) + encoded_messages(items_messages(items@)),
{
    let mut r: Vec<DeltaMessage> = Vec::new();
    if let Some(p) = program {
        r.push(DeltaMessage { delta: 0, message: ChannelMessage::ProgramChange { program: p } });
    }
    if let Some(v) = volume {
        r.push(DeltaMessage { delta: 0, message: ChannelMessage::ControlChange { controller: 7, value: v } });
    }
    if let Some(p) = pan {
        r.push(DeltaMessage { delta: 0, message: ChannelMessage::ControlChange { controller: 10, value: p } });
    }
    assert(r@ =~= setup_messages(program, volume, pan));
    let msgs = track_messages(items);
    let mut encoded = encode_track_messages(&msgs);
    r.append(&mut encoded);
    r
}


/// The meta events of the tempo track, in the order given (by time), each
/// with its delta time from the one before (0 where ticks go down).
pub fn encode_meta_track(events: &Vec<(u32, MetaEvent)>) -> (r: Vec<(u32, MetaEvent)>)
    ensures
        r@.len() == events@.len(),
        forall|i: int| 0 <= i < r@.len() ==> (#[trigger] r@[i]).1 == events@[i].1 && r@[i].0 == tick_delta(
            Seq::new(events@.len(), |k: int| events@[k].0),
            i,
        ),
{
    let ghost ticks = Seq::new(events@.len(), |k: int| events@[k].0);
    let mut r: Vec<(u32, MetaEvent)> = Vec::new();
    let mut last: u32 = 0;
    let mut i: usize = 0;
    while i < events.len()
        invariant
            i <= events@.len(),
            ticks == Seq::new(events@.len(), |k: int| events@[k].0),
            r@.len() == i,
            i > 0 ==> last == events@[i - 1].0,
            i == 0 ==> last == 0,
            forall|k: int| 0 <= k < i ==> (#[trigger] r@[k]).1 == events@[k].1 && r@[k].0 == tick_delta(ticks, k),
        decreases events@.len() - i,
    {
        let (tick, event) = events[i];
        r.push((tick.saturating_sub(last), event));
        last = tick;
        i = i + 1;
    }
    r
}

} // verus!
