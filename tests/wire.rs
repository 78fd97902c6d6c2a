use peer::answers::{Answer, AnswerError, ExpectData, ExpectList, ExpectOk, ExpectPeers};
use peer::codec::{data_format, dataf, getfilef, getpiecesf, havef, interestedf, lookf, seedf};
use peer::meta::{
    get_buffer_size, get_file_hash, get_file_key, parse_port, parse_tracker_arg, TrackerArg, set_config_path, set_peer_port,
    set_tracker_address, set_tracker_port, ConfigError, ConfigOverrides, MetaFile, PeerConfig, TrackerConfig,
};
use peer::parser::{parse_data, parse_have_from_have, parse_request, Request};
use peer::selector::get_wanted_piece_from_peer;
use peer::store::{add_leeched_file_to_db, add_seed_file_to_db, lookup_buffermap, set_buffermap, SwarmState};
use peer::wire::{
    chunk_span, getpieces_next, have_reply, interested_reply, pieces_per_request, record_have_reply, serving_continues, should_send,
    round_reply, unreserve, update_message, updatef, Next, RoundReply, TaskQueue, MAX_RETRY,
};

fn me() -> PeerConfig {
    PeerConfig { address: "0.0.0.0".to_string(), port: 54321 }
}

#[test]
fn test_peer_config_new() {
    let o = ConfigOverrides::new();
    let peer_config =
        PeerConfig::new(&o, Some("0.0.0.0".to_string()), Some("54321".to_string())).unwrap();
    assert_eq!(peer_config.address, "0.0.0.0");
    assert_eq!(peer_config.port, 54321);
}

#[test]
fn overrides_take_precedence() {
    let mut o = ConfigOverrides::new();
    assert_eq!(o.config_file(), "config.ini");
    set_config_path(&mut o, "other.ini".to_string());
    assert_eq!(o.config_file(), "other.ini");
    set_peer_port(&mut o, 7000);
    set_tracker_port(&mut o, 8000);
    set_tracker_address(&mut o, "tracker.example".to_string());
    let p = PeerConfig::new(&o, Some("1.2.3.4".to_string()), Some("54321".to_string())).unwrap();
    assert_eq!(p.port, 7000);
    let t = TrackerConfig::new(&o, Some("ignored".to_string()), None).unwrap();
    assert_eq!(t.address, "tracker.example");
    assert_eq!(t.port, 8000);
}

#[test]
fn config_errors() {
    let o = ConfigOverrides::new();
    assert_eq!(PeerConfig::new(&o, None, Some("1".to_string())).unwrap_err(), ConfigError::Missing);
    assert_eq!(PeerConfig::new(&o, Some("a".to_string()), None).unwrap_err(), ConfigError::Missing);
    assert_eq!(
        PeerConfig::new(&o, Some("a".to_string()), Some("65536".to_string())).unwrap_err(),
        ConfigError::BadPort
    );
    assert_eq!(TrackerConfig::new(&o, None, Some("1".to_string())).unwrap_err(), ConfigError::Missing);
    assert_eq!(parse_port("65535"), Some(65535));
    assert_eq!(parse_port("6x"), None);
    assert_eq!(parse_port(""), None);
}

#[test]
fn test_check_answer_with_list_trait() {
    let answer = "list [file_a.dat 2097152 1024 8905e92afeb80fc7722ec89eb0bf0966]\r\n";
    let expect_list = ExpectList;

    let result = expect_list.check_answer(answer);

    assert!(result.is_ok());
    assert_eq!(result.unwrap(), "Correct tracker answer");
}

#[test]
fn test_check_answer_with_list_trait_additional_elements() {
    let answer = "list [file_a.dat 2097152 1024 8905e92afeb80fc7722ec89eb0bf0966 file_b.dat 2097152 1024 8905e92afeb80fc7722ec89eb0bf0966 file_c.dat 2097152 1024 8905e92afeb80fc7722ec89eb0bf0966 file_d.dat 2097152 1024 8905e92afeb80fc7722ec89eb0bf0966]\r\n";
    let expect_list = ExpectList;

    let result = expect_list.check_answer(answer);

    assert!(result.is_ok());
    assert_eq!(result.unwrap(), "Correct tracker answer");
}

#[test]
fn list_parse_keeps_one_file_per_hash() {
    let answer = "list [file_a.dat 2097152 1024 8905e92afeb80fc7722ec89eb0bf0966 file_b.dat 10 5 8905e92afeb80fc7722ec89eb0bf0966]\r\n";
    match ExpectList.retrieve_data(answer) {
        Answer::List(files) => {
            assert_eq!(files.len(), 1);
            assert_eq!(files[0].file_name, "file_a.dat");
            assert_eq!(files[0].length, 2097152);
            assert_eq!(files[0].piece_size, 1024);
            assert_eq!(files[0].hash, "8905e92afeb80fc7722ec89eb0bf0966");
        }
        _ => panic!("not a list"),
    }
    assert_eq!(ExpectList.check_answer("list [a 1 2]\n"), Err(AnswerError::BadAnswer));
    assert_eq!(ExpectList.check_answer("list []\n").unwrap(), "Correct tracker answer");
}

#[test]
fn ok_answers() {
    assert_eq!(ExpectOk.check_answer("ok\r\nmore").unwrap(), "Correct tracker answer");
    assert_eq!(ExpectOk.check_answer("nope\n"), Err(AnswerError::BadAnswer));
    assert_eq!(ExpectOk.check_answer(""), Err(AnswerError::BadAnswer));
}

#[test]
fn peers_answer_skips_the_local_peer() {
    let key = "8905e92afeb80fc7722ec89eb0bf0966";
    let answer = format!("peers {} [1.1.1.1:1234 0.0.0.0:54321 2.2.2.2:80]\n", key);
    assert!(ExpectPeers.check_answer(&answer).is_ok());
    match ExpectPeers.retrieve_data(&answer, &me()) {
        Answer::Peers(ps) => {
            assert_eq!(ps.len(), 2);
            assert_eq!(ps[0].config.address, "1.1.1.1");
            assert_eq!(ps[0].config.port, 1234);
            assert_eq!(ps[1].config.address, "2.2.2.2");
            assert_eq!(ps[0].hash, key);
            assert_eq!(ps[1].length_tcp, 0);
        }
        _ => panic!("not peers"),
    }
    assert_eq!(ExpectPeers.check_answer("peers x [a:b]"), Err(AnswerError::BadAnswer));
}

#[test]
fn data_answers() {
    assert_eq!(ExpectData.check_answer(""), Err(AnswerError::InvalidInput));
    assert_eq!(ExpectData.check_answer("have k 01\n"), Err(AnswerError::InvalidInput));
    assert_eq!(ExpectData.check_answer("data k [x:AA==]\n"), Err(AnswerError::Malformed));
    let line = "data k [3:SGk= 4:]\n";
    assert!(ExpectData.check_answer(line).is_ok());
    match ExpectData.retrieve_data(line) {
        Answer::Data(d) => {
            assert_eq!(d, vec![(3usize, b"Hi".to_vec()), (4usize, Vec::new())]);
        }
        _ => panic!("not data"),
    }
}

#[test]
fn buffermap_round_trip() {
    assert_eq!(havef("abc".to_string(), vec![0, 0, 1, 0]), "have abc 0010\n");
    let h = parse_have_from_have("have abc 0010".to_string()).unwrap();
    assert_eq!(h.key, "abc");
    assert_eq!(h.buffermap, vec![0, 0, 1, 0]);
    match parse_request(&havef("k9".to_string(), vec![1, 1, 0])) {
        Request::Have(h) => {
            assert_eq!(h.key, "k9");
            assert_eq!(h.buffermap, vec![1, 1, 0]);
        }
        _ => panic!("not have"),
    }
    assert!(parse_have_from_have(String::new()).is_none());
    assert!(parse_have_from_have("have abc 0120".to_string()).is_none());
}

#[test]
fn getpieces_round_trip() {
    let line = getpiecesf(" k1 ".to_string(), vec![7, 0, 12]);
    assert_eq!(line, "getpieces k1 [7 0 12]\n");
    match parse_request(&line) {
        Request::Getpieces(g) => {
            assert_eq!(g.key, "k1");
            assert_eq!(g.pieces, vec![7, 0, 12]);
        }
        _ => panic!("not getpieces"),
    }
    match parse_request("getpieces k []") {
        Request::Getpieces(g) => assert!(g.pieces.is_empty()),
        _ => panic!("not getpieces"),
    }
}

#[test]
fn data_round_trip() {
    let chunks = vec![(2usize, b"Hello".to_vec()), (9usize, vec![0u8, 255, 7])];
    let line = data_format(&"abc".to_string(), &chunks);
    assert_eq!(line, "data abc [2:SGVsbG8= 9:AP8H]\n");
    match parse_request(&line) {
        Request::Data(d) => {
            assert_eq!(d.key, "abc");
            assert_eq!(d.pieces, chunks);
        }
        _ => panic!("not data"),
    }
    let d = parse_data(&line).unwrap();
    assert_eq!(d.pieces, chunks);
    let checked = ExpectData.check_answer(&line).unwrap();
    match ExpectData.retrieve_data(&checked) {
        Answer::Data(d) => assert_eq!(d, chunks),
        _ => panic!("not data"),
    }
}

#[test]
fn test_data_request() {
    let req = "data av12 [3:110011]";
    match parse_request(req) {
        Request::Data(d) => {
            assert_eq!(d.key, "av12");
            assert_eq!(d.pieces.len(), 1);
            assert_eq!(d.pieces[0].0, 3);
        }
        Request::Empty => {}
        _ => panic!("not data"),
    }
}

#[test]
fn interested_and_unknown_requests() {
    assert_eq!(interestedf("abc".to_string()), "interested abc\n");
    match parse_request("interested abc\n") {
        Request::Interested(i) => assert_eq!(i.key, "abc"),
        _ => panic!("not interested"),
    }
    assert!(matches!(parse_request("hello there"), Request::Empty));
    assert!(matches!(parse_request(""), Request::Empty));
}

#[test]
fn tracker_formats() {
    assert_eq!(getfilef("k".to_string()), "getfile k\n");
    assert_eq!(dataf(&"k".to_string(), vec!["1:AA==".to_string(), "2:".to_string()]), "data k [1:AA== 2:]\n");
    assert_eq!(lookf("a.txt".to_string(), "<\"10\"".to_string()), "look [filename=\"a.txt\" filesize<\"10\"]\n");
    assert_eq!(lookf(String::new(), ">5".to_string()), "look [filesize>5]\n");
    assert_eq!(lookf(String::new(), String::new()), "look []\n");
    let seeded = vec![
        MetaFile { file_name: "file1.txt".to_string(), length: 100, piece_size: 10, hash: "abc123".to_string() },
        MetaFile { file_name: "file2.txt".to_string(), length: 200, piece_size: 20, hash: "def456".to_string() },
    ];
    assert_eq!(
        seedf(seeded.clone(), "8000".to_string(), vec!["file3".to_string()]),
        "announce listen 8000 seed [file1.txt 100 10 abc123 file2.txt 200 20 def456] leech [file3]\r\n"
    );
    assert_eq!(update_message(&seeded, &Vec::new()), "update seed [abc123 def456] leech []\n");
}

#[test]
fn file_records() {
    let m = MetaFile::new("hello.txt".to_string(), &b"Hello, world!".to_vec());
    assert_eq!(m.hash, "6cd3556deb0da54bca060b4c39479839");
    assert_eq!(m.length, 13);
    assert_eq!(m.piece_size, 1024);
    assert_eq!(get_file_key(&Vec::new()), "d41d8cd98f00b204e9800998ecf8427e");
    assert_eq!(get_file_hash(&m), m.hash);
    let f = MetaFile { file_name: "f".to_string(), length: 20, piece_size: 10, hash: "h".to_string() };
    assert_eq!(get_buffer_size(&f), 3);
}

fn files_db() -> SwarmState {
    let mut db = SwarmState::new(me());
    let f = MetaFile { file_name: "f".to_string(), length: 30, piece_size: 10, hash: "f".to_string() };
    add_leeched_file_to_db(&mut db, f).unwrap();
    set_buffermap(&mut db, "f".to_string(), "1.1.1.1:1".to_string(), vec![1, 1, 0, 1]).unwrap();
    set_buffermap(&mut db, "f".to_string(), "2.2.2.2:2".to_string(), vec![1, 0, 1, 1]).unwrap();
    set_buffermap(&mut db, "f".to_string(), "3.3.3.3:3".to_string(), vec![1, 1, 1, 1]).unwrap();
    db
}

#[test]
fn selector_rarest_first() {
    let mut db = files_db();
    let r = get_wanted_piece_from_peer(&mut db, &"3.3.3.3:3".to_string(), &"f".to_string(), 2);
    let mut sorted = r.clone();
    sorted.sort();
    assert_eq!(sorted, vec![1, 2]);
    assert_eq!(r, vec![1, 2]);
    assert_eq!(lookup_buffermap(&db, "f", "0.0.0.0:54321").unwrap(), vec![0, 1, 1, 0]);
}

#[test]
fn selector_takes_what_remains() {
    let mut db = files_db();
    let r = get_wanted_piece_from_peer(&mut db, &"3.3.3.3:3".to_string(), &"f".to_string(), 10);
    assert_eq!(r, vec![1, 2, 0, 3]);
    assert_eq!(lookup_buffermap(&db, "f", "0.0.0.0:54321").unwrap(), vec![1, 1, 1, 1]);
    let again = get_wanted_piece_from_peer(&mut db, &"3.3.3.3:3".to_string(), &"f".to_string(), 10);
    assert!(again.is_empty());
}

#[test]
fn selector_refuses_self_and_unknown() {
    let mut db = files_db();
    assert!(get_wanted_piece_from_peer(&mut db, &"0.0.0.0:54321".to_string(), &"f".to_string(), 2).is_empty());
    assert!(get_wanted_piece_from_peer(&mut db, &"9.9.9.9:9".to_string(), &"f".to_string(), 2).is_empty());
    assert_eq!(lookup_buffermap(&db, "f", "0.0.0.0:54321").unwrap(), vec![0, 0, 0, 0]);
}

#[test]
fn unreserve_gives_back_missing_pieces() {
    let mut db = files_db();
    let r = get_wanted_piece_from_peer(&mut db, &"3.3.3.3:3".to_string(), &"f".to_string(), 3);
    assert_eq!(r, vec![1, 2, 0]);
    unreserve(&mut db, &"f".to_string(), &r, &vec![2]);
    assert_eq!(lookup_buffermap(&db, "f", "0.0.0.0:54321").unwrap(), vec![0, 0, 1, 0]);
}

#[test]
fn have_and_interested_replies() {
    let mut db = files_db();
    assert_eq!(have_reply(&db, "f".to_string(), 2), "have f 0000\n");
    assert_eq!(have_reply(&db, "g".to_string(), 2), "have g 00\n");
    assert_eq!(interested_reply(&db, "f".to_string()).unwrap(), "have f 0000\n");
    assert!(interested_reply(&db, "g".to_string()).is_none());
    let p = PeerConfig { address: "4.4.4.4".to_string(), port: 4 };
    record_have_reply(&mut db, p.clone(), "f".to_string(), "have f 1010\n").unwrap();
    assert_eq!(lookup_buffermap(&db, "f", "4.4.4.4:4").unwrap(), vec![1, 0, 1, 0]);
    assert!(record_have_reply(&mut db, p, "f".to_string(), "have f 10\n").is_err());
    assert_eq!(pieces_per_request(&db, "f", 95), 9);
    assert_eq!(pieces_per_request(&db, "unknown", 4096), 4);
}

#[test]
fn update_lists_seeded_and_leeched() {
    let mut db = SwarmState::new(me());
    let a = MetaFile { file_name: "a".to_string(), length: 5, piece_size: 10, hash: "ha".to_string() };
    let b = MetaFile { file_name: "b".to_string(), length: 5, piece_size: 10, hash: "hb".to_string() };
    add_seed_file_to_db(&mut db, a).unwrap();
    add_leeched_file_to_db(&mut db, b).unwrap();
    assert_eq!(updatef(&db), "update seed [ha] leech [hb]\n");
}

#[test]
fn serving_rounds() {
    assert!(should_send(0, 3));
    assert!(!should_send(1, 3));
    assert!(!should_send(0, 0));
    assert!(matches!(getpieces_next("", 0), Next::Again(1)));
    assert!(matches!(getpieces_next("", MAX_RETRY), Next::Stop));
    match getpieces_next("interested k\n", 5) {
        Next::Request(Request::Interested(i)) => assert_eq!(i.key, "k"),
        _ => panic!("not a request"),
    }
    assert!(matches!(getpieces_next("interested k\n", MAX_RETRY), Next::Request(_)));
    assert!(matches!(getpieces_next("interested k\n", MAX_RETRY + 1), Next::Stop));
    assert!(matches!(getpieces_next("", MAX_RETRY + 1), Next::Stop));
    assert!(serving_continues(MAX_RETRY));
    assert!(!serving_continues(MAX_RETRY + 1));
}

#[test]
fn test_get_chunk() {
    let content = b"Hello, world!";
    let (start, n) = chunk_span(content.len() as u64, 5, 0).unwrap();
    assert_eq!(&content[start as usize..start as usize + n], b"Hello");
    let (start, n) = chunk_span(content.len() as u64, 5, 2).unwrap();
    assert_eq!(&content[start as usize..start as usize + n], b"ld!");
    assert_eq!(chunk_span(13, 5, 3), Some((15, 0)));
    assert_eq!(chunk_span(13, usize::MAX, usize::MAX), None);
}

#[test]
fn test_threads_empty() {
    let mut q: TaskQueue<u32> = TaskQueue::new();
    assert_eq!(q.len(), 0);
    q.add_task(1);
    q.add_task(2);
    assert_eq!(q.len(), 2);
}

#[test]
fn task_queue_drains_in_order() {
    let mut q: TaskQueue<&str> = TaskQueue::new();
    q.add_task("first");
    q.add_task("second");
    assert_eq!(q.next_task(), Some("first"));
    assert_eq!(q.next_task(), Some("second"));
    assert_eq!(q.len(), 0);
    assert_eq!(q.next_task(), None);
}

#[test]
fn seeded_file_is_announced_whole() {
    let mut db = SwarmState::new(me());
    let a = MetaFile { file_name: "a".to_string(), length: 25, piece_size: 10, hash: "ha".to_string() };
    add_seed_file_to_db(&mut db, a).unwrap();
    assert_eq!(lookup_buffermap(&db, "ha", "0.0.0.0:54321").unwrap(), vec![1, 1, 1]);
    assert_eq!(peer::wire::announce_message(&db, 8000), "announce listen 8000 seed [a 25 10 ha] leech []\r\n");
}

#[test]
fn tracker_arguments() {
    assert_eq!(parse_tracker_arg("10.0.0.1:9000"), TrackerArg::AddressPort("10.0.0.1".to_string(), 9000));
    assert_eq!(parse_tracker_arg("tracker.example:80"), TrackerArg::AddressPort("tracker.example".to_string(), 80));
    assert_eq!(parse_tracker_arg("9000"), TrackerArg::Port(9000));
    assert_eq!(parse_tracker_arg("tracker-1.example"), TrackerArg::Address("tracker-1.example".to_string()));
    assert_eq!(parse_tracker_arg("99999"), TrackerArg::Invalid);
    assert_eq!(parse_tracker_arg("host:port"), TrackerArg::Invalid);
    assert_eq!(parse_tracker_arg("bad host"), TrackerArg::Invalid);
    assert_eq!(parse_tracker_arg(""), TrackerArg::Invalid);
}

#[test]
fn have_rounds_skip_the_local_peer() {
    let db = files_db();
    let rounds = peer::wire::have_rounds(&db);
    assert_eq!(rounds.len(), 1);
    assert_eq!(rounds[0].key, "f");
    assert_eq!(rounds[0].message, "have f 0000\n");
    let mut addrs: Vec<String> = rounds[0].peers.iter().map(|p| p.address.clone()).collect();
    addrs.sort();
    assert_eq!(addrs, vec!["1.1.1.1".to_string(), "2.2.2.2".to_string(), "3.3.3.3".to_string()]);
}

#[test]
fn getpieces_key_is_trimmed_as_str_trim_does() {
    assert_eq!(getpiecesf("\0a".to_string(), vec![]), "getpieces \0a []\n");
    assert_eq!(getpiecesf("\u{a0}k\u{3000}".to_string(), vec![1]), "getpieces k [1]\n");
    assert_eq!(getpiecesf("\t k \n".to_string(), vec![1, 1]), "getpieces k [1 1]\n");
}

#[test]
fn round_replies() {
    assert!(matches!(round_reply(""), RoundReply::Nothing));
    assert!(matches!(round_reply("have k 01\n"), RoundReply::Nothing));
    assert!(matches!(round_reply("data k [x:AA==]\n"), RoundReply::Abort));
    match round_reply("data k [3:SGk=]\n") {
        RoundReply::Pieces(v) => assert_eq!(v, vec![(3usize, b"Hi".to_vec())]),
        _ => panic!("not pieces"),
    }
}

#[test]
fn file_key_has_32_hex_digits() {
    let m = MetaFile::new("x".to_string(), &vec![1u8, 2, 3]);
    assert_eq!(m.hash.len(), 32);
    assert!(m.hash.chars().all(|c| c.is_ascii_hexdigit() && !c.is_ascii_uppercase()));
}
