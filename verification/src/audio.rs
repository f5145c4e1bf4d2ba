//! Which track of a stream to decode, and what to do with each packet of it.
use vstd::prelude::*;

verus! {

/// The sample rate of a track that does not say its own.
pub const DEFAULT_SAMPLE_RATE: u32 = 44_100;

/// What a stream says of one of its tracks.
#[derive(Clone, Copy, PartialEq, Eq, Structural, Debug)]
pub struct TrackInfo {
    pub id: u32,
    /// Whether the track has a codec.
    pub has_codec: bool,
    pub sample_rate: Option<u32>,
}

/// The track to decode.
#[derive(Clone, Copy, PartialEq, Eq, Structural, Debug)]
pub struct SelectedTrack {
    pub index: usize,
    pub id: u32,
    pub sample_rate: u32,
}

/// Why there is nothing to decode.
#[derive(Clone, Copy, PartialEq, Eq, Structural, Debug)]
pub enum SelectError {
    NoAudioTrack,
}

/// The sample rate of a track, or the default where it says none.
pub open spec fn rate_of(track: TrackInfo) -> u32 {
    match track.sample_rate {
        Some(rate) => rate,
        None => DEFAULT_SAMPLE_RATE,
    }
}

/// Whether `selected` is the first track that has a codec.
pub open spec fn selects(tracks: Seq<TrackInfo>, selected: SelectedTrack) -> bool {
    &&& selected.index < tracks.len()
    &&& tracks[selected.index as int].has_codec
    &&& forall|i: int| 0 <= i < selected.index ==> !(#[trigger] tracks[i]).has_codec
    &&& selected.id == tracks[selected.index as int].id
    &&& selected.sample_rate == rate_of(tracks[selected.index as int])
}

/// Whether no track has a codec.
pub open spec fn selects_none(tracks: Seq<TrackInfo>) -> bool {
    forall|i: int| 0 <= i < tracks.len() ==> !(#[trigger] tracks[i]).has_codec
}

/// Selects the first track that has a codec.
pub fn select_track(tracks: &Vec<TrackInfo>) -> (result: Result<SelectedTrack, SelectError>)
    ensures
        match result {
            Ok(selected) => selects(tracks@, selected),
            Err(SelectError::NoAudioTrack) => selects_none(tracks@),
        },
{
    let mut index: usize = 0;
    while index < tracks.len()
        invariant
            index <= tracks@.len(),
            forall|i: int| 0 <= i < index ==> !(#[trigger] tracks@[i]).has_codec,
        decreases tracks@.len() - index,
    {
        let track: TrackInfo = tracks[index];
        if track.has_codec {
            let sample_rate: u32 = match track.sample_rate {
                Some(rate) => rate,
                None => DEFAULT_SAMPLE_RATE,
            };
            return Ok(SelectedTrack { index, id: track.id, sample_rate });
        }
        index = index + 1;
    }
    Err(SelectError::NoAudioTrack)
}

/// Tracks settle the selection: there is at most one, and none exactly where no
/// track has a codec.
pub proof fn lemma_selection_has_one_outcome(
    tracks: Seq<TrackInfo>,
    one: SelectedTrack,
    other: SelectedTrack,
)
    requires
        selects(tracks, one),
    ensures
        !selects_none(tracks),
        selects(tracks, other) ==> other == one,
{
    assert(tracks[one.index as int].has_codec);
    if selects(tracks, other) {
        assert(tracks[other.index as int].has_codec);
    }
}

// The decoding loop.
/// What came of asking a stream for its next packet.
#[derive(Clone, Copy, PartialEq, Eq, Structural, Debug)]
pub enum Fetched {
    Packet { track_id: u32 },
    /// The stream ended, whether or not it had said how long it would be.
    StreamEnd,
    Failure,
}

/// What to do after asking for a packet.
#[derive(Clone, Copy, PartialEq, Eq, Structural, Debug)]
pub enum AfterFetch {
    Decode,
    FetchNext,
    Finish,
    Fail,
}

/// What came of decoding a packet.
#[derive(Clone, Copy, PartialEq, Eq, Structural, Debug)]
pub enum Decoded {
    Frames,
    /// The packet is damaged; the ones behind it may not be.
    Damaged,
    Failure,
}

/// What to do after decoding a packet.
#[derive(Clone, Copy, PartialEq, Eq, Structural, Debug)]
pub enum AfterDecode {
    MixAndFetchNext,
    ReportAndFetchNext,
    Fail,
}

/// What to do after asking for a packet of a track: only packets of that track
/// are decoded, and the end of the stream is the end of the work.
pub open spec fn after_fetch_spec(track_id: u32, fetched: Fetched) -> AfterFetch {
    match fetched {
        Fetched::Packet { track_id: id } => if id == track_id {
            AfterFetch::Decode
        } else {
            AfterFetch::FetchNext
        },
        Fetched::StreamEnd => AfterFetch::Finish,
        Fetched::Failure => AfterFetch::Fail,
    }
}

/// What to do after decoding a packet: damage is reported and passed over.
pub open spec fn after_decode_spec(decoded: Decoded) -> AfterDecode {
    match decoded {
        Decoded::Frames => AfterDecode::MixAndFetchNext,
        Decoded::Damaged => AfterDecode::ReportAndFetchNext,
        Decoded::Failure => AfterDecode::Fail,
    }
}

/// What to do after asking for a packet of a track.
pub fn after_fetch(track_id: u32, fetched: Fetched) -> (action: AfterFetch)
    ensures
        action == after_fetch_spec(track_id, fetched),
{
    match fetched {
        Fetched::Packet { track_id: id } => if id != track_id {
            AfterFetch::FetchNext
        } else {
            AfterFetch::Decode
        },
        Fetched::StreamEnd => AfterFetch::Finish,
        Fetched::Failure => AfterFetch::Fail,
    }
}

/// What to do after decoding a packet.
pub fn after_decode(decoded: Decoded) -> (action: AfterDecode)
    ensures
        action == after_decode_spec(decoded),
{
    match decoded {
        Decoded::Frames => AfterDecode::MixAndFetchNext,
        Decoded::Damaged => AfterDecode::ReportAndFetchNext,
        Decoded::Failure => AfterDecode::Fail,
    }
}

/// What a selection is: the first track with a codec, under its own number and at
/// its own rate, or at 44100 where it says none.
pub proof fn lemma_selection_is_the_first_track_with_a_codec(
    tracks: Seq<TrackInfo>,
    selected: SelectedTrack,
)
    ensures
        selects(tracks, selected) <==> {
            &&& 0 <= selected.index < tracks.len()
            &&& tracks[selected.index as int].has_codec
            &&& forall|i: int| 0 <= i < selected.index ==> !(#[trigger] tracks[i]).has_codec
            &&& selected.id == tracks[selected.index as int].id
            &&& tracks[selected.index as int].sample_rate is None ==> selected.sample_rate == 44_100
            &&& tracks[selected.index as int].sample_rate matches Some(rate)
                ==> selected.sample_rate == rate
        },
        selects_none(tracks) <==> forall|i: int|
            0 <= i < tracks.len() ==> !(#[trigger] tracks[i]).has_codec,
{
}

/// Tracks behind the selected one do not matter.
pub proof fn lemma_later_tracks_do_not_matter(
    tracks: Seq<TrackInfo>,
    more: Seq<TrackInfo>,
    selected: SelectedTrack,
)
    requires
        selects(tracks, selected),
    ensures
        selects(tracks + more, selected),
{
    assert((tracks + more)[selected.index as int] == tracks[selected.index as int]);
    assert forall|i: int| 0 <= i < selected.index implies !(#[trigger] (tracks
        + more)[i]).has_codec by {
        assert((tracks + more)[i] == tracks[i]);
    }
}

/// What follows on each outcome of fetching and of decoding, whatever the numbers
/// of the tracks.
pub proof fn lemma_what_follows_each_outcome(track_id: u32, id: u32)
    ensures
        after_fetch_spec(track_id, Fetched::Packet { track_id }) == AfterFetch::Decode,
        id != track_id ==> after_fetch_spec(track_id, Fetched::Packet { track_id: id })
            == AfterFetch::FetchNext,
        after_fetch_spec(track_id, Fetched::StreamEnd) == AfterFetch::Finish,
        after_fetch_spec(track_id, Fetched::Failure) == AfterFetch::Fail,
        after_decode_spec(Decoded::Frames) == AfterDecode::MixAndFetchNext,
        after_decode_spec(Decoded::Damaged) == AfterDecode::ReportAndFetchNext,
        after_decode_spec(Decoded::Failure) == AfterDecode::Fail,
{
}

} // verus!
