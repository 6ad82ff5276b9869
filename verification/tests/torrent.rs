use bencode::decode::DecodeError;
use bencode::metainfo::fmt_torrent_details;
use bencode::metainfo::torrent_details;
use bencode::metainfo::MetainfoError;

#[test]
fn test_torrent_file_parse() {
    let file_contents =
        Vec::from("d11:tracker-url18:http://example.com4:infod6:lengthi1000eee");
    let details = fmt_torrent_details(file_contents.as_slice()).expect("well-formed metainfo");
    let expected = "Tracker URL: http://example.com\nLength: 1000\n";
    assert_eq!(details, expected);
}

#[test]
fn test_torrent_details_fields() {
    let contents = b"d11:tracker-url18:http://example.com4:infod6:lengthi1000eee";
    let (url, length) = torrent_details(contents).expect("well-formed metainfo");
    assert_eq!(url, "http://example.com");
    assert_eq!(length, 1000);
}

#[test]
fn test_missing_tracker_url() {
    let contents = b"d4:infod6:lengthi1000eee";
    assert_eq!(
        torrent_details(contents),
        Err(MetainfoError::MissingTrackerUrl)
    );
    assert_eq!(
        fmt_torrent_details(contents),
        Err(MetainfoError::MissingTrackerUrl)
    );
}

#[test]
fn test_missing_length() {
    let no_info = b"d11:tracker-url18:http://example.come";
    assert_eq!(torrent_details(no_info), Err(MetainfoError::MissingLength));

    let empty_info = b"d11:tracker-url18:http://example.com4:infodee";
    assert_eq!(
        torrent_details(empty_info),
        Err(MetainfoError::MissingLength)
    );

    let info_not_dict = b"d11:tracker-url18:http://example.com4:infoi3ee";
    assert_eq!(
        torrent_details(info_not_dict),
        Err(MetainfoError::MissingLength)
    );

    let length_not_int = b"d11:tracker-url18:http://example.com4:infod6:length1:xee";
    assert_eq!(
        torrent_details(length_not_int),
        Err(MetainfoError::MissingLength)
    );
}

#[test]
fn test_tracker_url_of_wrong_shape() {
    // A tracker URL that is not a byte string counts as missing.
    let contents = b"d11:tracker-urli5e4:infod6:lengthi1000eee";
    assert_eq!(
        torrent_details(contents),
        Err(MetainfoError::MissingTrackerUrl)
    );
}

#[test]
fn test_tracker_url_not_text() {
    let mut contents = Vec::from("d11:tracker-url2:");
    contents.push(0xff);
    contents.push(0xfe);
    contents.extend_from_slice(b"4:infod6:lengthi1000eee");
    assert_eq!(
        torrent_details(contents.as_slice()),
        Err(MetainfoError::TrackerUrlNotText)
    );
}

#[test]
fn test_metainfo_not_a_dictionary() {
    assert_eq!(
        torrent_details(b"l5:helloe"),
        Err(MetainfoError::Decode(DecodeError::MalformedInput))
    );
    assert_eq!(
        torrent_details(b"d11:tracker-url"),
        Err(MetainfoError::Decode(DecodeError::MalformedInput))
    );
}

#[test]
fn test_negative_length_rendering() {
    let contents = b"d11:tracker-url1:x4:infod6:lengthi-5eee";
    let details = fmt_torrent_details(contents).expect("well-formed metainfo");
    assert_eq!(details, "Tracker URL: x\nLength: -5\n");
}
