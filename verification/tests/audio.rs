use game_rs::audio::{
    after_decode, after_fetch, select_track, AfterDecode, AfterFetch, Decoded, Fetched,
    SelectError, SelectedTrack, TrackInfo,
};

fn track(id: u32, has_codec: bool, sample_rate: Option<u32>) -> TrackInfo {
    TrackInfo { id, has_codec, sample_rate }
}

#[test]
fn the_first_track_with_a_codec_is_selected() {
    let tracks = vec![
        track(4, false, Some(8_000)),
        track(7, true, Some(48_000)),
        track(9, true, Some(96_000)),
    ];
    assert_eq!(
        select_track(&tracks),
        Ok(SelectedTrack { index: 1, id: 7, sample_rate: 48_000 })
    );
}

#[test]
fn a_track_without_a_rate_has_the_default() {
    assert_eq!(
        select_track(&vec![track(1, true, None)]),
        Ok(SelectedTrack { index: 0, id: 1, sample_rate: 44_100 })
    );
}

#[test]
fn without_a_codec_there_is_no_track() {
    assert_eq!(select_track(&vec![]), Err(SelectError::NoAudioTrack));
    assert_eq!(select_track(&vec![track(1, false, None)]), Err(SelectError::NoAudioTrack));
}

#[test]
fn packets_of_other_tracks_are_passed_over() {
    assert_eq!(after_fetch(3, Fetched::Packet { track_id: 3 }), AfterFetch::Decode);
    assert_eq!(after_fetch(3, Fetched::Packet { track_id: 4 }), AfterFetch::FetchNext);
    assert_eq!(after_fetch(3, Fetched::Failure), AfterFetch::Fail);
}

#[test]
fn a_stream_that_breaks_off_is_finished() {
    assert_eq!(after_fetch(3, Fetched::StreamEnd), AfterFetch::Finish);
}

#[test]
fn damaged_packets_are_passed_over() {
    assert_eq!(after_decode(Decoded::Frames), AfterDecode::MixAndFetchNext);
    assert_eq!(after_decode(Decoded::Damaged), AfterDecode::ReportAndFetchNext);
    assert_eq!(after_decode(Decoded::Failure), AfterDecode::Fail);
}
