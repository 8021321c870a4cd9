//! Standard MIDI Files as bytes, through the `midly` codec: reading a file's
//! timing and the events of its tracks, and writing tracks of events.
use vstd::prelude::*;
use midly::num::{u14, u15, u24, u28, u4, u7};
use midly::{Format, Header, MetaMessage, MidiMessage, PitchBend, Smf, Timing, TrackEvent, TrackEventKind};
use crate::midi::events::{ChannelMessage, DeltaMessage, MetaEvent};
use crate::midi::import::{IncomingEvent, IncomingMessage, valid_message};

verus! {

/// `midly::Smf`: a parsed file, its header and its tracks of events.
#[verifier::external_type_specification]
#[verifier::external_body]
pub struct ExSmf<'a>(Smf<'a>);

/// `midly::TrackEvent`: one event of a track, with its delta time.
#[verifier::external_type_specification]
#[verifier::external_body]
pub struct ExTrackEvent<'a>(TrackEvent<'a>);

/// `midly::Error`: why bytes could not be parsed.
#[verifier::external_type_specification]
#[verifier::external_body]
pub struct ExMidlyError(midly::Error);

/// An incoming event as a value, the track name as its bytes.
pub enum EventView {
    Midi { channel: u8, message: IncomingMessage },
    TrackName { name: Seq<u8> },
    Tempo { micros_per_quarter: u32 },
    TimeSignature { numerator: u8, denominator_power: u8 },
    OtherMeta,
    Other,
}

/// The value of an incoming event.
pub open spec fn event_view(e: IncomingEvent) -> EventView {
    match e {
        IncomingEvent::Midi { channel, message } => EventView::Midi { channel, message },
        IncomingEvent::TrackName { name } => EventView::TrackName { name: name@ },
        IncomingEvent::Tempo { micros_per_quarter } => EventView::Tempo { micros_per_quarter },
        IncomingEvent::TimeSignature { numerator, denominator_power } => EventView::TimeSignature {
            numerator,
            denominator_power,
        },
        IncomingEvent::OtherMeta => EventView::OtherMeta,
        IncomingEvent::Other => EventView::Other,
    }
}

/// The events (delta time, event) of each track of a parsed file, as `midly`
/// holds them.
pub uninterp spec fn smf_events(smf: Smf) -> Seq<Seq<(u32, EventView)>>;

/// The ticks per quarter note of a parsed file's header, `None` where it is
/// timed in SMPTE timecode.
pub uninterp spec fn smf_ticks_per_quarter(smf: Smf) -> Option<u16>;

/// What `midly` reads from a file's bytes: its timing and the events of its
/// tracks, `None` where the bytes are not a Standard MIDI File it accepts.
pub uninterp spec fn midi_file_of(bytes: Seq<u8>) -> Option<(Option<u16>, Seq<Seq<(u32, EventView)>>)>;

/// `midly::Smf::parse`: the file the bytes hold, whose timing and events are
/// what `midi_file_of` names for these bytes, or an error exactly where that
/// is `None`.
#[verifier::external_body]
fn parse_smf(bytes: &[u8]) -> (r: Result<Smf<'_>, midly::Error>)
    ensures
        match r {
            Ok(smf) => midi_file_of(bytes@) == Some((smf_ticks_per_quarter(smf), smf_events(smf))),
            Err(_) => midi_file_of(bytes@) is None,
        },
{
    Smf::parse(bytes)
}

/// The `header.timing` of a parsed file: its ticks per quarter note when
/// metrical (`Timing::Metrical`), `None` for SMPTE timecode.
#[verifier::external_body]
fn ticks_per_quarter(smf: &Smf) -> (r: Option<u16>)
    ensures
        r == smf_ticks_per_quarter(*smf),
{
    match smf.header.timing {
        Timing::Metrical(ticks) => Some(ticks.as_int()),
        Timing::Timecode(_, _) => None,
    }
}

/// The number of tracks of a parsed file (`tracks.len()`).
#[verifier::external_body]
fn track_count(smf: &Smf) -> (n: usize)
    ensures
        n == smf_events(*smf).len(),
{
    smf.tracks.len()
}

/// The number of events of track `t` of a parsed file.
#[verifier::external_body]
fn track_len(smf: &Smf, t: usize) -> (n: usize)
    requires
        t < smf_events(*smf).len(),
    ensures
        n == smf_events(*smf)[t as int].len(),
{
    smf.tracks[t].len()
}

/// The delta time of event `i` of track `t` (`delta.as_int()`).
#[verifier::external_body]
fn event_delta(smf: &Smf, t: usize, i: usize) -> (d: u32)
    requires
        t < smf_events(*smf).len(),
        i < smf_events(*smf)[t as int].len(),
    ensures
        d == smf_events(*smf)[t as int][i as int].0,
{
    smf.tracks[t][i].delta.as_int()
}

/// The channel and message of event `i` of track `t` when it is a channel
/// event, `None` otherwise; `midly` holds channels in 4 bits and keys in 7,
/// and gives a pitch bend relative to its centre.
#[verifier::external_body]
fn channel_message(smf: &Smf, t: usize, i: usize) -> (m: Option<(u8, IncomingMessage)>)
    requires
        t < smf_events(*smf).len(),
        i < smf_events(*smf)[t as int].len(),
    ensures
        match m {
            Some((channel, message)) => smf_events(*smf)[t as int][i as int].1 == (EventView::Midi {
                channel,
                message,
            }) && valid_message(channel, message),
            None => !(smf_events(*smf)[t as int][i as int].1 is Midi),
        },
{
    match &smf.tracks[t][i].kind {
        TrackEventKind::Midi { channel, message } => Some((channel.as_int(), match *message {
            MidiMessage::NoteOn { key, vel } => IncomingMessage::NoteOn { note: key.as_int(), velocity: vel.as_int() },
            MidiMessage::NoteOff { key, .. } => IncomingMessage::NoteOff { note: key.as_int() },
            MidiMessage::ProgramChange { program } => IncomingMessage::ProgramChange { program: program.as_int() },
            MidiMessage::Controller { controller, value } => IncomingMessage::Controller { controller: controller.as_int(), value: value.as_int() },
            MidiMessage::PitchBend { bend } => IncomingMessage::PitchBend { bend: bend.as_int() },
            _ => IncomingMessage::Other,
        })),
        _ => None,
    }
}

/// Event `i` of track `t` when it is not a channel event: the track name,
/// tempo and time signature meta events, any other meta event, or a system
/// exclusive or escape event.
#[verifier::external_body]
fn other_event(smf: &Smf, t: usize, i: usize) -> (e: IncomingEvent)
    requires
        t < smf_events(*smf).len(),
        i < smf_events(*smf)[t as int].len(),
        !(smf_events(*smf)[t as int][i as int].1 is Midi),
    ensures
        event_view(e) == smf_events(*smf)[t as int][i as int].1,
{
    match &smf.tracks[t][i].kind {
        TrackEventKind::Meta(MetaMessage::TrackName(name)) => IncomingEvent::TrackName { name: name.to_vec() },
        TrackEventKind::Meta(MetaMessage::Tempo(tempo)) => IncomingEvent::Tempo { micros_per_quarter: tempo.as_int() },
        TrackEventKind::Meta(MetaMessage::TimeSignature(n, d, _, _)) => IncomingEvent::TimeSignature { numerator: *n, denominator_power: *d },
        TrackEventKind::Meta(_) => IncomingEvent::OtherMeta,
        _ => IncomingEvent::Other,
    }
}

/// Why a file could not be read.
#[derive(Debug, Clone, Copy, PartialEq, Eq, Structural)]
pub enum MidiDecodeError {
    /// The bytes are not a Standard MIDI File.
    Malformed,
    /// The file is timed in SMPTE timecode, which is not supported.
    TimecodeTiming,
}

/// A file read: its ticks per quarter note and the events of its tracks.
pub struct ParsedMidi {
    pub ticks_per_quarter: u16,
    pub tracks: Vec<Vec<(u32, IncomingEvent)>>,
}

/// The events of one track as values.
pub open spec fn track_view(track: Seq<(u32, IncomingEvent)>) -> Seq<(u32, EventView)> {
    Seq::new(track.len(), |i: int| (track[i].0, event_view(track[i].1)))
}

/// The events of the tracks as values.
pub open spec fn tracks_view(tracks: Seq<Vec<(u32, IncomingEvent)>>) -> Seq<Seq<(u32, EventView)>> {
    Seq::new(tracks.len(), |t: int| track_view(tracks[t]@))
}

/// Every event of the tracks is within MIDI's ranges.
pub open spec fn tracks_valid(tracks: Seq<Vec<(u32, IncomingEvent)>>) -> bool {
    forall|t: int, i: int|
        0 <= t < tracks.len() && 0 <= i < tracks[t]@.len() ==> crate::midi::import::valid_event(
            #[trigger] tracks[t]@[i].1,
        )
}

/// Reads a Standard MIDI File: its ticks per quarter note and every event of
/// every track, as `midly` parses them; refused where the bytes are not a
/// file or the file is timed in SMPTE timecode.
pub fn decode_midi(bytes: &[u8]) -> (r: Result<ParsedMidi, MidiDecodeError>)
    ensures
        midi_file_of(bytes@) is None ==> r matches Err(MidiDecodeError::Malformed),
        midi_file_of(bytes@) matches Some((None, _)) ==> r matches Err(MidiDecodeError::TimecodeTiming),
        midi_file_of(bytes@) matches Some((Some(ppq), events)) ==> r matches Ok(p) && p.ticks_per_quarter == ppq
            && tracks_view(p.tracks@) == events && tracks_valid(p.tracks@),
{
    let smf = match parse_smf(bytes) {
        Ok(smf) => smf,
        Err(_) => return Err(MidiDecodeError::Malformed),
    };
    let ppq = match ticks_per_quarter(&smf) {
        Some(ppq) => ppq,
        None => return Err(MidiDecodeError::TimecodeTiming),
    };
    let ghost events = smf_events(smf);
    let count = track_count(&smf);
    let mut tracks: Vec<Vec<(u32, IncomingEvent)>> = Vec::new();
    let mut t: usize = 0;
    while t < count
        invariant
            count == events.len(),
            events == smf_events(smf),
            t <= count,
            tracks@.len() == t,
            forall|k: int| 0 <= k < t ==> #[trigger] track_view(tracks@[k]@) == events[k],
            tracks_valid(tracks@),
        decreases count - t,
    {
        let len = track_len(&smf, t);
        let mut track: Vec<(u32, IncomingEvent)> = Vec::new();
        let mut i: usize = 0;
        while i < len
            invariant
                count == events.len(),
                events == smf_events(smf),
                t < count,
                len == events[t as int].len(),
                i <= len,
                track@.len() == i,
                forall|k: int| 0 <= k < i ==> (#[trigger] track@[k]).0 == events[t as int][k].0 && event_view(
                    track@[k].1,
                ) == events[t as int][k].1,
                forall|k: int| 0 <= k < i ==> crate::midi::import::valid_event(#[trigger] track@[k].1),
            decreases len - i,
        {
            let delta = event_delta(&smf, t, i);
            let event = match channel_message(&smf, t, i) {
                Some((channel, message)) => IncomingEvent::Midi { channel, message },
                None => other_event(&smf, t, i),
            };
            track.push((delta, event));
            i = i + 1;
        }
        assert(track_view(track@) =~= events[t as int]);
        let ghost before = tracks@;
        tracks.push(track);
        proof {
            assert forall|k: int| 0 <= k < t + 1 implies #[trigger] track_view(tracks@[k]@) == events[k] by {
                if k < t {
                    assert(tracks@[k] == before[k]);
                }
            }
            assert forall|a: int, b: int|
                0 <= a < tracks@.len() && 0 <= b < tracks@[a]@.len() implies crate::midi::import::valid_event(
                #[trigger] tracks@[a]@[b].1,
            ) by {
                if a < t {
                    assert(tracks@[a] == before[a]);
                }
            }
        }
        t = t + 1;
    }
    assert(tracks_view(tracks@) =~= events);
    Ok(ParsedMidi { ticks_per_quarter: ppq, tracks })
}


/// The layout of a Standard MIDI File's tracks.
#[derive(Debug, Clone, Copy, PartialEq, Eq, Structural)]
pub enum SmfFormat {
    /// One track (format 0).
    SingleTrack,
    /// Tracks played together (format 1).
    Parallel,
    /// Tracks played one after another (format 2).
    Sequential,
}

/// The format number written for a layout.
pub open spec fn format_code(format: SmfFormat) -> u8 {
    match format {
        SmfFormat::SingleTrack => 0,
        SmfFormat::Parallel => 1,
        SmfFormat::Sequential => 2,
    }
}

/// A channel event for `midly` (`TrackEventKind::Midi`): the message in its
/// MIDI form, a note-off with release velocity 0, on the channel (kept to 4
/// bits), after the delta time (kept to 28 bits).
#[verifier::external_body]
fn channel_track_event(delta: u32, channel: u8, message: ChannelMessage) -> TrackEvent<'static> {
    let message = match message {
        ChannelMessage::NoteOn { note, velocity } => MidiMessage::NoteOn { key: u7::new(note), vel: u7::new(velocity) },
        ChannelMessage::NoteOff { note } => MidiMessage::NoteOff { key: u7::new(note), vel: u7::new(0) },
        ChannelMessage::PitchBend { bend } => MidiMessage::PitchBend { bend: PitchBend(u14::new(bend)) },
        ChannelMessage::ControlChange { controller, value } => MidiMessage::Controller { controller: u7::new(controller), value: u7::new(value) },
        ChannelMessage::ProgramChange { program } => MidiMessage::ProgramChange { program: u7::new(program) },
    };
    TrackEvent { delta: u28::new(delta), kind: TrackEventKind::Midi { channel: u4::new(channel), message } }
}

/// A meta event for `midly` (`TrackEventKind::Meta`): tempo, time signature
/// or key signature, after the delta time.
#[verifier::external_body]
fn meta_track_event(delta: u32, event: MetaEvent) -> TrackEvent<'static> {
    let meta = match event {
        MetaEvent::Tempo { micros_per_quarter } => MetaMessage::Tempo(u24::new(micros_per_quarter)),
        MetaEvent::TimeSignature { numerator, denominator_power, clocks_per_click, thirty_seconds_per_quarter } => MetaMessage::TimeSignature(numerator, denominator_power, clocks_per_click, thirty_seconds_per_quarter),
        MetaEvent::KeySignature { sharps_flats, minor } => MetaMessage::KeySignature(sharps_flats, minor),
    };
    TrackEvent { delta: u28::new(delta), kind: TrackEventKind::Meta(meta) }
}

/// A track-name meta event for `midly`, after the delta time.
#[verifier::external_body]
fn name_track_event(delta: u32, name: &[u8]) -> TrackEvent<'_> {
    TrackEvent { delta: u28::new(delta), kind: TrackEventKind::Meta(MetaMessage::TrackName(name)) }
}

/// The end-of-track meta event for `midly`, after the delta time.
#[verifier::external_body]
fn end_of_track_event(delta: u32) -> TrackEvent<'static> {
    TrackEvent { delta: u28::new(delta), kind: TrackEventKind::Meta(MetaMessage::EndOfTrack) }
}

/// An event of a track to write: a channel message, a meta event of the
/// tempo track, the track's name or its end, each after its delta time.
pub enum SmfEvent<'a> {
    Channel { delta: u32, channel: u8, message: ChannelMessage },
    Meta { delta: u32, event: MetaEvent },
    TrackName { delta: u32, name: &'a [u8] },
    EndOfTrack { delta: u32 },
}

/// An event of a track to write as a value, the track name as its bytes.
pub enum SmfEventView {
    Channel { delta: u32, channel: u8, message: ChannelMessage },
    Meta { delta: u32, event: MetaEvent },
    TrackName { delta: u32, name: Seq<u8> },
    EndOfTrack { delta: u32 },
}

/// The value of an event to write.
pub open spec fn smf_event_view(e: SmfEvent) -> SmfEventView {
    match e {
        SmfEvent::Channel { delta, channel, message } => SmfEventView::Channel { delta, channel, message },
        SmfEvent::Meta { delta, event } => SmfEventView::Meta { delta, event },
        SmfEvent::TrackName { delta, name } => SmfEventView::TrackName { delta, name: name@ },
        SmfEvent::EndOfTrack { delta } => SmfEventView::EndOfTrack { delta },
    }
}

/// The events of a track to write as values.
pub open spec fn smf_track_view(track: Seq<SmfEvent>) -> Seq<SmfEventView> {
    Seq::new(track.len(), |i: int| smf_event_view(track[i]))
}

/// The events of the tracks to write as values.
pub open spec fn smf_tracks_view(tracks: Seq<Vec<SmfEvent>>) -> Seq<Seq<SmfEventView>> {
    Seq::new(tracks.len(), |t: int| smf_track_view(tracks[t]@))
}

/// The most bytes that `midly` writes for an event: a delta time of at most
/// four bytes; then a channel event's status byte and at most two data bytes,
/// or a meta event's `0xFF`, its type, the length of its data as a
/// variable-length number and the data (at most four bytes for tempo, time
/// and key signatures, none for the end of a track, the name for a track
/// name, whose length takes at most four bytes).
pub open spec fn event_bytes_bound(e: SmfEventView) -> nat {
    match e {
        SmfEventView::Channel { .. } => 7,
        SmfEventView::Meta { .. } => 11,
        SmfEventView::TrackName { name, .. } => 10 + name.len(),
        SmfEventView::EndOfTrack { .. } => 7,
    }
}

/// The most bytes that `midly` writes for the events of a track.
pub open spec fn track_bytes_bound(events: Seq<SmfEventView>) -> nat
    decreases events.len(),
{
    if events.len() == 0 {
        0
    } else {
        track_bytes_bound(events.drop_last()) + event_bytes_bound(events.last())
    }
}

/// A track that `midly` can write: each track name's length fits the 28 bits
/// of a variable-length number, and the track's bytes fit the 32 bits of a
/// chunk length.
pub open spec fn track_writable(events: Seq<SmfEventView>) -> bool {
    &&& forall|i: int|
        0 <= i < events.len() ==> (#[trigger] events[i] matches SmfEventView::TrackName { name, .. } ==> name.len()
            < 0x1000_0000)
    &&& track_bytes_bound(events) <= 0xffff_ffff
}

/// What `midly::write_std` writes for a header of this format and ticks per
/// quarter note and these tracks, `None` where it refuses to write them.
pub uninterp spec fn smf_bytes(format: SmfFormat, ticks_per_quarter: u16, tracks: Seq<Seq<SmfEventView>>) -> Option<
    Seq<u8>,
>;

/// The `midly` form of an event to write.
fn track_event<'a>(e: &SmfEvent<'a>) -> TrackEvent<'a> {
    match e {
        SmfEvent::Channel { delta, channel, message } => channel_track_event(*delta, *channel, *message),
        SmfEvent::Meta { delta, event } => meta_track_event(*delta, *event),
        SmfEvent::TrackName { delta, name } => name_track_event(*delta, *name),
        SmfEvent::EndOfTrack { delta } => end_of_track_event(*delta),
    }
}

/// `midly::write_std` into memory, with a metrical header of the format and
/// ticks per quarter note (kept to 15 bits), and the tracks' events in their
/// `midly` form: the bytes that `smf_bytes` names, `None` exactly where that
/// is `None`. `midly` refuses more tracks than 16 bits count, a track name
/// longer than 28 bits count and a track whose bytes 32 bits cannot count,
/// and nothing else: so it writes where there are at most 65535 tracks and
/// each is `track_writable`. The bytes start with the header chunk `MThd`,
/// its length 6, the format number, the track count and the ticks per quarter
/// note, each as a big-endian 16-bit number. What follows (the track chunks)
/// is not stated here.
#[verifier::external_body]
fn write_smf(format: SmfFormat, ticks_per_quarter: u16, tracks: &Vec<Vec<SmfEvent>>) -> (r: Option<Vec<u8>>)
    ensures
        match r {
            Some(bytes) => smf_bytes(format, ticks_per_quarter, smf_tracks_view(tracks@)) == Some(bytes@),
            None => smf_bytes(format, ticks_per_quarter, smf_tracks_view(tracks@)) is None,
        },
        tracks@.len() > 0xffff ==> r is None,
        tracks@.len() <= 0xffff && (forall|t: int|
            0 <= t < tracks@.len() ==> track_writable(#[trigger] smf_tracks_view(tracks@)[t])) ==> r is Some,
        r matches Some(bytes) ==> {
            &&& bytes@.len() >= 14
            &&& bytes@.subrange(0, 8) == seq![0x4du8, 0x54u8, 0x68u8, 0x64u8, 0u8, 0u8, 0u8, 6u8]
            &&& bytes@[8] == 0 && bytes@[9] == format_code(format)
            &&& bytes@[10] * 256 + bytes@[11] == tracks@.len()
            &&& bytes@[12] * 256 + bytes@[13] == ticks_per_quarter % 0x8000
        },
{
    let format = match format {
        SmfFormat::SingleTrack => Format::SingleTrack,
        SmfFormat::Parallel => Format::Parallel,
        SmfFormat::Sequential => Format::Sequential,
    };
    let header = Header::new(format, Timing::Metrical(u15::new(ticks_per_quarter)));
    let tracks: Vec<Vec<TrackEvent>> = tracks.iter().map(|t| t.iter().map(track_event).collect()).collect();
    let mut out = Vec::new();
    midly::write_std(&header, tracks.iter(), &mut out).ok().map(|_| out)
}

/// A track to write: its name, its channel, and its channel messages with
/// delta times.
pub struct ExportTrack {
    pub name: Vec<u8>,
    pub channel: u8,
    pub messages: Vec<DeltaMessage>,
}

/// The meta events of the tempo track, each after its delta time.
pub open spec fn meta_events(tempo_track: Seq<(u32, MetaEvent)>) -> Seq<SmfEventView> {
    Seq::new(tempo_track.len(), |i: int| SmfEventView::Meta { delta: tempo_track[i].0, event: tempo_track[i].1 })
}

/// The channel messages of a track on its channel, each after its delta time.
pub open spec fn channel_events(channel: u8, messages: Seq<DeltaMessage>) -> Seq<SmfEventView> {
    Seq::new(
        messages.len(),
        |k: int| SmfEventView::Channel { delta: messages[k].delta, channel, message: messages[k].message },
    )
}

/// The events of an exported track: its name, its messages and its end.
pub open spec fn export_track_events(track: ExportTrack) -> Seq<SmfEventView> {
    (seq![SmfEventView::TrackName { delta: 0, name: track.name@ }] + channel_events(
        track.channel,
        track.messages@,
    )).push(SmfEventView::EndOfTrack { delta: 0 })
}

/// The tracks of an exported file: the tempo track with its meta events and
/// its end, then each exported track.
pub open spec fn export_tracks(tempo_track: Seq<(u32, MetaEvent)>, tracks: Seq<ExportTrack>) -> Seq<
    Seq<SmfEventView>,
> {
    seq![meta_events(tempo_track).push(SmfEventView::EndOfTrack { delta: 0 })] + Seq::new(
        tracks.len(),
        |t: int| export_track_events(tracks[t]),
    )
}

/// The tracks fit what `midly` writes: with the tempo track at most 65535 of
/// them, each name's length under 2^28, and each track's bytes, at most 7 per
/// channel message and 11 per meta event, 10 and the name's length for the
/// name and 7 for the end, countable in 32 bits.
pub open spec fn export_writable(tempo_track: Seq<(u32, MetaEvent)>, tracks: Seq<ExportTrack>) -> bool {
    &&& tracks.len() + 1 <= 0xffff
    &&& 11 * tempo_track.len() + 7 <= 0xffff_ffff
    &&& forall|t: int|
        0 <= t < tracks.len() ==> (#[trigger] tracks[t]).name@.len() < 0x1000_0000 && 17 + tracks[t].name@.len() + 7
            * tracks[t].messages@.len() <= 0xffff_ffff
}

proof fn lemma_track_bytes_push(events: Seq<SmfEventView>, e: SmfEventView)
    ensures
        track_bytes_bound(events.push(e)) == track_bytes_bound(events) + event_bytes_bound(e),
{
    assert(events.push(e).drop_last() =~= events);
}

proof fn lemma_meta_bytes(tempo_track: Seq<(u32, MetaEvent)>)
    ensures
        track_bytes_bound(meta_events(tempo_track)) == 11 * tempo_track.len(),
    decreases tempo_track.len(),
{
    if tempo_track.len() > 0 {
        let rest = tempo_track.drop_last();
        lemma_meta_bytes(rest);
        assert(meta_events(tempo_track).drop_last() =~= meta_events(rest));
    }
}

proof fn lemma_channel_bytes(name: Seq<u8>, channel: u8, messages: Seq<DeltaMessage>)
    ensures
        track_bytes_bound(seq![SmfEventView::TrackName { delta: 0, name }] + channel_events(channel, messages)) == 10
            + name.len() + 7 * messages.len(),
    decreases messages.len(),
{
    let s = seq![SmfEventView::TrackName { delta: 0, name }] + channel_events(channel, messages);
    if messages.len() == 0 {
        assert(s.drop_last() =~= Seq::<SmfEventView>::empty());
        assert(s.last() == SmfEventView::TrackName { delta: 0, name });
        assert(track_bytes_bound(s.drop_last()) == 0);
    } else {
        let rest = messages.drop_last();
        lemma_channel_bytes(name, channel, rest);
        assert(s.drop_last() =~= seq![SmfEventView::TrackName { delta: 0, name }] + channel_events(channel, rest));
        assert(s.last() == channel_events(channel, messages)[messages.len() - 1]);
    }
}

proof fn lemma_export_writable(tempo_track: Seq<(u32, MetaEvent)>, tracks: Seq<ExportTrack>)
    requires
        export_writable(tempo_track, tracks),
    ensures
        forall|t: int|
            0 <= t < export_tracks(tempo_track, tracks).len() ==> track_writable(
                #[trigger] export_tracks(tempo_track, tracks)[t],
            ),
{
    let all = export_tracks(tempo_track, tracks);
    assert forall|t: int| 0 <= t < all.len() implies track_writable(#[trigger] all[t]) by {
        if t == 0 {
            lemma_meta_bytes(tempo_track);
            lemma_track_bytes_push(meta_events(tempo_track), SmfEventView::EndOfTrack { delta: 0 });
            assert(all[0] == meta_events(tempo_track).push(SmfEventView::EndOfTrack { delta: 0 }));
        } else {
            let track = tracks[t - 1];
            let body = seq![SmfEventView::TrackName { delta: 0, name: track.name@ }] + channel_events(
                track.channel,
                track.messages@,
            );
            assert(all[t] == export_track_events(track));
            lemma_channel_bytes(track.name@, track.channel, track.messages@);
            lemma_track_bytes_push(body, SmfEventView::EndOfTrack { delta: 0 });
            assert forall|i: int| 0 <= i < all[t].len() implies (#[trigger] all[t][i] matches SmfEventView::TrackName {
                name,
                ..
            } ==> name.len() < 0x1000_0000) by {
                if i > 0 && i < all[t].len() - 1 {
                    assert(all[t][i] == channel_events(track.channel, track.messages@)[i - 1]);
                }
            }
        }
    }
}

/// The bytes of a Standard MIDI File of tracks played together (format 1):
/// first the tempo track with the meta events, then each track with its name,
/// its messages and an end-of-track event, as `midly` writes them. `None`
/// where `midly` refuses to write it: always so with 65535 tracks or more,
/// never where the tracks are `export_writable`. The header states the
/// format, one track more than given (the tempo track) and the ticks per
/// quarter note (kept to 15 bits).
pub fn encode_midi(ticks_per_quarter: u16, tempo_track: &Vec<(u32, MetaEvent)>, tracks: &Vec<ExportTrack>) -> (r:
    Option<Vec<u8>>)
    ensures
        match r {
            Some(bytes) => smf_bytes(SmfFormat::Parallel, ticks_per_quarter, export_tracks(tempo_track@, tracks@))
                == Some(bytes@),
            None => smf_bytes(SmfFormat::Parallel, ticks_per_quarter, export_tracks(tempo_track@, tracks@)) is None,
        },
        tracks@.len() + 1 > 0xffff ==> r is None,
        export_writable(tempo_track@, tracks@) ==> r is Some,
        r matches Some(bytes) ==> {
            &&& bytes@.len() >= 14
            &&& bytes@.subrange(0, 8) == seq![0x4du8, 0x54u8, 0x68u8, 0x64u8, 0u8, 0u8, 0u8, 6u8]
            &&& bytes@[8] == 0 && bytes@[9] == 1
            &&& bytes@[10] * 256 + bytes@[11] == tracks@.len() + 1
            &&& bytes@[12] * 256 + bytes@[13] == ticks_per_quarter % 0x8000
        },
{
    let mut all: Vec<Vec<SmfEvent>> = Vec::new();
    let mut meta: Vec<SmfEvent> = Vec::new();
    let mut i: usize = 0;
    while i < tempo_track.len()
        invariant
            i <= tempo_track@.len(),
            meta@.len() == i,
            smf_track_view(meta@) == meta_events(tempo_track@.take(i as int)),
        decreases tempo_track@.len() - i,
    {
        let (delta, event) = tempo_track[i];
        let ghost before = meta@;
        meta.push(SmfEvent::Meta { delta, event });
        i = i + 1;
        assert forall|j: int| 0 <= j < meta@.len() implies #[trigger] smf_track_view(meta@)[j] == meta_events(
            tempo_track@.take(i as int),
        )[j] by {
            if j < before.len() {
                assert(meta@[j] == before[j]);
                assert(smf_track_view(before)[j] == meta_events(tempo_track@.take(i - 1))[j]);
            }
        }
        assert(smf_track_view(meta@) =~= meta_events(tempo_track@.take(i as int)));
    }
    meta.push(SmfEvent::EndOfTrack { delta: 0 });
    assert(tempo_track@.take(i as int) =~= tempo_track@);
    assert(smf_track_view(meta@) =~= meta_events(tempo_track@).push(SmfEventView::EndOfTrack { delta: 0 }));
    all.push(meta);
    let mut t: usize = 0;
    while t < tracks.len()
        invariant
            t <= tracks@.len(),
            all@.len() == t + 1,
            smf_tracks_view(all@) == export_tracks(tempo_track@, tracks@.take(t as int)),
        decreases tracks@.len() - t,
    {
        let track = &tracks[t];
        let mut events: Vec<SmfEvent> = Vec::new();
        events.push(SmfEvent::TrackName { delta: 0, name: track.name.as_slice() });
        let mut k: usize = 0;
        while k < track.messages.len()
            invariant
                k <= track.messages@.len(),
                events@.len() == k + 1,
                smf_track_view(events@) == seq![SmfEventView::TrackName { delta: 0, name: track.name@ }]
                    + channel_events(track.channel, track.messages@.take(k as int)),
            decreases track.messages@.len() - k,
        {
            let m = track.messages[k];
            let ghost before = events@;
            events.push(SmfEvent::Channel { delta: m.delta, channel: track.channel, message: m.message });
            k = k + 1;
            assert forall|j: int| 0 <= j < events@.len() implies #[trigger] smf_track_view(events@)[j] == (seq![
                SmfEventView::TrackName { delta: 0, name: track.name@ },
            ] + channel_events(track.channel, track.messages@.take(k as int)))[j] by {
                if j < before.len() {
                    assert(events@[j] == before[j]);
                    assert(smf_track_view(before)[j] == (seq![SmfEventView::TrackName { delta: 0, name: track.name@ }]
                        + channel_events(track.channel, track.messages@.take(k - 1)))[j]);
                }
            }
            assert(smf_track_view(events@) =~= seq![SmfEventView::TrackName { delta: 0, name: track.name@ }]
                + channel_events(track.channel, track.messages@.take(k as int)));
        }
        events.push(SmfEvent::EndOfTrack { delta: 0 });
        assert(track.messages@.take(k as int) =~= track.messages@);
        assert(smf_track_view(events@) =~= export_track_events(*track));
        let ghost before = all@;
        all.push(events);
        t = t + 1;
        assert(smf_tracks_view(all@) =~= export_tracks(tempo_track@, tracks@.take(t as int))) by {
            assert(smf_tracks_view(before) == export_tracks(tempo_track@, tracks@.take(t - 1)));
            assert(export_tracks(tempo_track@, tracks@.take(t as int)).len() == all@.len());
            assert forall|j: int| 0 <= j < all@.len() implies #[trigger] smf_tracks_view(all@)[j]
                == export_tracks(tempo_track@, tracks@.take(t as int))[j] by {
                if j < before.len() {
                    assert(all@[j] == before[j]);
                    assert(smf_tracks_view(before)[j] == export_tracks(tempo_track@, tracks@.take(t - 1))[j]);
                    if j > 0 {
                        assert(tracks@.take(t as int)[j - 1] == tracks@.take(t - 1)[j - 1]);
                    }
                } else {
                    assert(tracks@.take(t as int)[j - 1] == *track);
                }
            }
        }
    }
    assert(tracks@.take(t as int) =~= tracks@);
    proof {
        if export_writable(tempo_track@, tracks@) {
            lemma_export_writable(tempo_track@, tracks@);
        }
    }
    write_smf(SmfFormat::Parallel, ticks_per_quarter, &all)
}

} // verus!
