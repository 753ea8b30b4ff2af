use bittorrent::bencode::{DecodeError, Field};
use bittorrent::torrent::TorrentFile;
use bittorrent::tracker::{announce_url, build_request, compact_peers, generate_peer_id,
    peer_id_from, request_query, response_from_bytes, Peers, Response};

fn minimal_torrent() -> Vec<u8> {
    let mut t = b"d8:announce31:http://tracker.example/announce4:info".to_vec();
    t.extend_from_slice(b"d6:lengthi1024e4:name1:a12:piece lengthi16384e6:pieces20:");
    t.extend_from_slice(&[0u8; 20]);
    t.extend_from_slice(b"ee");
    t
}

#[test]
fn query_string_is_exact() {
    let t = TorrentFile::from_bytes(&minimal_torrent()).unwrap();
    let peer_id: Vec<u8> = (0u8..20).collect();
    let req = build_request(peer_id.clone(), &t);
    let q = String::from_utf8(request_query(&req)).unwrap();
    let hash = t.info_hash();
    let mut expected = String::from("info_hash=");
    for b in &hash {
        expected.push_str(&format!("%{:02X}", b));
    }
    expected.push_str("&peer_id=");
    for b in &peer_id {
        expected.push_str(&format!("%{:02X}", b));
    }
    expected.push_str("&uploaded=0&downloaded=0&left=1024&event=started&port=6888");
    assert_eq!(q, expected);
}

#[test]
fn announce_url_carries_left_and_event() {
    let t = TorrentFile::from_bytes(&minimal_torrent()).unwrap();
    let req = build_request(b"-MS0000-000000000001".to_vec(), &t);
    let url = String::from_utf8(announce_url(&t, &req)).unwrap();
    assert!(url.starts_with("http://tracker.example/announce?info_hash=%07%F6%CB"));
    assert!(url.contains("left=1024"));
    assert!(url.contains("event=started"));
    assert!(url.contains("uploaded=0"));
    assert!(url.contains("port=6888"));
}

#[test]
fn peer_id_format() {
    let id = peer_id_from(42);
    assert_eq!(id, b"-MS0000-000000000042".to_vec());
    let id2 = peer_id_from(u64::MAX);
    // the low twelve digits of 18446744073709551615, zero-padded
    assert_eq!(id2, b"-MS0000-073709551615".to_vec());
}

#[test]
fn generated_peer_id_has_the_identifier_shape() {
    let id = generate_peer_id();
    assert_eq!(id.len(), 20);
    assert_eq!(&id[..8], b"-MS0000-");
    assert!(id[8..].iter().all(|b| (b'0'..=b'9').contains(b)));
}

#[test]
fn failure_response_decodes_to_failure_variant() {
    let r = response_from_bytes(b"d14:failure reason7:bad reqe").unwrap();
    match r {
        Response::Failure(f) => assert_eq!(f.reason, b"bad req".to_vec()),
        Response::Success(_) => panic!("expected the failure variant"),
    }
}

#[test]
fn compact_peer_list_of_six_bytes_is_one_peer() {
    let body = b"d8:intervali1800e5:peers6:\x01\x02\x03\x04\x1a\xe1e";
    let r = response_from_bytes(body).unwrap();
    match r {
        Response::Success(s) => {
            assert_eq!(s.interval, 1800);
            match s.peers {
                Peers::Compact(ps) => {
                    assert_eq!(ps.len(), 1);
                    assert_eq!(ps[0].ip, [1, 2, 3, 4]);
                    assert_eq!(ps[0].port, 0x1ae1);
                },
                Peers::Classic(_) => panic!("expected the compact encoding"),
            }
        },
        Response::Failure(_) => panic!("expected the success variant"),
    }
}

#[test]
fn compact_peer_list_length_not_multiple_of_six_fails() {
    let body = b"d8:intervali1800e5:peers7:\x01\x02\x03\x04\x1a\xe1\x00e";
    assert_eq!(response_from_bytes(body).unwrap_err(), DecodeError::InvalidPeers);
    assert_eq!(compact_peers(&[0u8; 5]).unwrap_err(), DecodeError::InvalidPeers);
}

#[test]
fn compact_peers_unpacks_each_group() {
    let ps = compact_peers(&[10, 0, 0, 1, 0x00, 0x50, 192, 168, 1, 2, 0x1f, 0x90]).unwrap();
    assert_eq!(ps.len(), 2);
    assert_eq!(ps[0].ip, [10, 0, 0, 1]);
    assert_eq!(ps[0].port, 80);
    assert_eq!(ps[1].ip, [192, 168, 1, 2]);
    assert_eq!(ps[1].port, 8080);
}

#[test]
fn classic_peer_list_decodes() {
    let body = b"d8:intervali900e12:min intervali60e5:peersld2:ip9:10.0.0.107:peer id20:aaaaaaaaaaaaaaaaaaaa4:porti6881eeee";
    let r = response_from_bytes(body).unwrap();
    match r {
        Response::Success(s) => {
            assert_eq!(s.interval, 900);
            assert_eq!(s.min_interval, Some(60));
            match s.peers {
                Peers::Classic(ps) => {
                    assert_eq!(ps.len(), 1);
                    assert_eq!(ps[0].ip, b"10.0.0.10".to_vec());
                    assert_eq!(ps[0].peer_id, b"aaaaaaaaaaaaaaaaaaaa".to_vec());
                    assert_eq!(ps[0].port, 6881);
                },
                Peers::Compact(_) => panic!("expected the classic encoding"),
            }
        },
        Response::Failure(_) => panic!("expected the success variant"),
    }
}

#[test]
fn success_with_counts_and_tracker_id() {
    let body = b"d8:completei5e10:incompletei3e8:intervali1800e5:peers0:10:tracker id3:xyze";
    let r = response_from_bytes(body).unwrap();
    match r {
        Response::Success(s) => {
            assert_eq!(s.complete, Some(5));
            assert_eq!(s.incomplete, Some(3));
            assert_eq!(s.tracker_id, Some(b"xyz".to_vec()));
            match s.peers {
                Peers::Compact(ps) => assert_eq!(ps.len(), 0),
                Peers::Classic(_) => panic!("expected the compact encoding"),
            }
        },
        Response::Failure(_) => panic!("expected the success variant"),
    }
}

#[test]
fn response_without_interval_fails() {
    assert_eq!(response_from_bytes(b"d5:peers0:e").unwrap_err(), DecodeError::Shape(Field::Interval));
}
