use mktorrent_rs::options::{read_port, split_commas, split_host_port, CliOptions};

fn options() -> CliOptions {
    CliOptions {
        input: "in".to_string(),
        output: "out.torrent".to_string(),
        piece_size: None,
        no_bep3: false,
        no_bep52: false,
        no_padding: false,
        announce: vec!["http://t/announce".to_string()],
        node: vec![],
        private: false,
        webseed: vec![],
        verbose: 0,
        threads: 1,
        stop_after_dirwalk: false,
        stop_after_hash: false,
    }
}

#[test]
fn good_options_pass() {
    assert_eq!(options().check(), Ok(()));
    let mut o = options();
    o.piece_size = Some(16384);
    o.threads = 8;
    assert_eq!(o.check(), Ok(()));
    o.piece_size = Some(2097152);
    assert_eq!(o.check(), Ok(()));
    let mut o = options();
    o.no_padding = true;
    o.no_bep52 = true;
    assert_eq!(o.check(), Ok(()));
    let mut o = options();
    o.announce = vec![];
    o.node = vec!["h:1".to_string()];
    assert_eq!(o.check(), Ok(()));
}

#[test]
fn each_fault_has_its_message() {
    let mut o = options();
    o.no_bep3 = true;
    o.no_bep52 = true;
    assert_eq!(o.check(), Err("At least one bep3/bep52".to_string()));

    let mut o = options();
    o.announce = vec![];
    assert_eq!(
        o.check(),
        Err("Please specify tracker/node URL using --announce/--node".to_string())
    );

    let mut o = options();
    o.piece_size = Some(16383);
    assert_eq!(o.check(), Err("Piece size too small".to_string()));
    o.piece_size = Some(0);
    assert_eq!(o.check(), Err("Piece size too small".to_string()));
    o.piece_size = Some(2097153);
    assert_eq!(o.check(), Err("Piece size too large".to_string()));
    o.piece_size = Some(16384 * 3);
    assert_eq!(o.check(), Err("Piece size is not a power of 2".to_string()));

    let mut o = options();
    o.threads = 0;
    assert_eq!(o.check(), Err("are you kidding me running with 0 thread?".to_string()));

    for (no_bep3, no_bep52, threads) in [(false, false, 1), (false, true, 2), (true, true, 1)] {
        let mut o = options();
        o.no_padding = true;
        o.no_bep3 = no_bep3;
        o.no_bep52 = no_bep52;
        o.threads = threads;
        let want = if no_bep3 && no_bep52 {
            "At least one bep3/bep52"
        } else {
            "no_padding is incompatible with bep52 and threads."
        };
        assert_eq!(o.check(), Err(want.to_string()));
    }
}

#[test]
fn first_fault_wins() {
    let mut o = options();
    o.no_bep3 = true;
    o.no_bep52 = true;
    o.announce = vec![];
    o.piece_size = Some(1);
    o.threads = 0;
    assert_eq!(o.check(), Err("At least one bep3/bep52".to_string()));
    o.no_bep3 = false;
    assert_eq!(
        o.check(),
        Err("Please specify tracker/node URL using --announce/--node".to_string())
    );
    o.node = vec!["x".to_string()];
    assert_eq!(o.check(), Err("Piece size too small".to_string()));
    o.piece_size = None;
    assert_eq!(o.check(), Err("are you kidding me running with 0 thread?".to_string()));
}

#[test]
fn ports() {
    assert_eq!(read_port("0"), Some(0));
    assert_eq!(read_port("6881"), Some(6881));
    assert_eq!(read_port("65535"), Some(65535));
    assert_eq!(read_port("65536"), None);
    assert_eq!(read_port("99999999999999999999"), None);
    assert_eq!(read_port("+80"), Some(80));
    assert_eq!(read_port("00080"), Some(80));
    assert_eq!(read_port("0000000000000000000000065535"), Some(65535));
    assert_eq!(read_port(""), None);
    assert_eq!(read_port("+"), None);
    assert_eq!(read_port("-1"), None);
    assert_eq!(read_port("++1"), None);
    assert_eq!(read_port("8o"), None);
    assert_eq!(read_port(" 80"), None);
    assert_eq!(read_port("80 "), None);
    assert_eq!(read_port("\u{661}"), None);
    for s in ["0", "65535", "65536", "+80", "", "+", "-1", "12a", "007"] {
        assert_eq!(read_port(s), s.parse::<u16>().ok(), "{:?}", s);
    }
}

#[test]
fn host_and_port() {
    assert_eq!(split_host_port("dht.example:6881"), Some(("dht.example".to_string(), 6881)));
    assert_eq!(split_host_port("[::1]:6881"), Some(("::1".to_string(), 6881)));
    assert_eq!(split_host_port("[2001:db8::1]:80"), Some(("2001:db8::1".to_string(), 80)));
    assert_eq!(split_host_port("a:b:443"), Some(("a:b".to_string(), 443)));
    assert_eq!(split_host_port(":1"), Some(("".to_string(), 1)));
    assert_eq!(split_host_port("[]:1"), Some(("".to_string(), 1)));
    assert_eq!(split_host_port("[:1"), Some(("[".to_string(), 1)));
    assert_eq!(split_host_port("]:1"), Some(("]".to_string(), 1)));
    assert_eq!(split_host_port("[x:1"), Some(("[x".to_string(), 1)));
    assert_eq!(split_host_port("h\u{e9}te:1"), Some(("h\u{e9}te".to_string(), 1)));
    assert_eq!(split_host_port("host"), None);
    assert_eq!(split_host_port(""), None);
    assert_eq!(split_host_port("host:"), None);
    assert_eq!(split_host_port("host:65536"), None);
    assert_eq!(split_host_port("host:http"), None);
    assert_eq!(split_host_port("[::1]"), None);
}

#[test]
fn commas() {
    assert_eq!(split_commas("a,b"), vec!["a", "b"]);
    assert_eq!(split_commas("a"), vec!["a"]);
    assert_eq!(split_commas(""), vec![""]);
    assert_eq!(split_commas(","), vec!["", ""]);
    assert_eq!(split_commas("a,,b,"), vec!["a", "", "b", ""]);
    assert_eq!(split_commas("\u{4e07},\u{56fd}"), vec!["\u{4e07}", "\u{56fd}"]);
    for s in ["", ",", "x,y,z", ",,", "http://a/announce,http://b/announce"] {
        let want: Vec<String> = s.split(',').map(str::to_string).collect();
        assert_eq!(split_commas(s), want);
    }
}

#[test]
fn announces_are_split_into_tiers() {
    let mut o = options();
    o.announce = vec!["a,b".to_string(), "c".to_string()];
    assert_eq!(o.parse_announces(), vec![vec!["a", "b"], vec!["c"]]);
    o.announce = vec![];
    assert!(o.parse_announces().is_empty());
}

#[test]
fn nodes_are_read_or_the_first_bad_one_is_named() {
    let mut o = options();
    o.node = vec!["a:1".to_string(), "[::1]:2".to_string()];
    assert_eq!(
        o.parse_nodes(),
        Ok(vec![("a".to_string(), 1), ("::1".to_string(), 2)])
    );
    o.node = vec!["a:1".to_string(), "bad".to_string(), "worse".to_string()];
    assert_eq!(o.parse_nodes(), Err("Invalid node: bad".to_string()));
    o.node = vec![];
    assert_eq!(o.parse_nodes(), Ok(vec![]));
}
