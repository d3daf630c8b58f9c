use watchprice::codec::{decode_db, encode_db};
use watchprice::scrapers::{PriceDatabase, RolexForumsEntry};

fn sample_db() -> PriceDatabase<RolexForumsEntry> {
    PriceDatabase {
        name: "RolexForums_9".to_string(),
        timestamp: -12345,
        entries: vec![
            RolexForumsEntry {
                id: 1,
                timestamp: 1689958320,
                price: Some(423200),
                is_sold: true,
                brand: "A. Lange & Söhne".to_string(),
                model_no: "191.032".to_string(),
            },
            RolexForumsEntry {
                id: 2,
                timestamp: -5,
                price: None,
                is_sold: false,
                brand: "he said \"mint\" \u{1F551}".to_string(),
                model_no: "a\\b".to_string(),
            },
        ],
        position: 20,
    }
}

#[test]
fn save_then_load_reproduces_the_database() {
    let db = sample_db();
    let bytes = encode_db(&db);
    let back = decode_db(&bytes).expect("a saved snapshot must load");
    assert_eq!(back.name, db.name);
    assert_eq!(back.timestamp, db.timestamp);
    assert_eq!(back.position, db.position);
    assert_eq!(back.entries.len(), db.entries.len());
    for (a, b) in back.entries.iter().zip(db.entries.iter()) {
        assert_eq!(a.id, b.id);
        assert_eq!(a.timestamp, b.timestamp);
        assert_eq!(a.price, b.price);
        assert_eq!(a.is_sold, b.is_sold);
        assert_eq!(a.brand, b.brand);
        assert_eq!(a.model_no, b.model_no);
    }
}

#[test]
fn empty_database_round_trips() {
    let db = PriceDatabase {
        name: "OtherForum".to_string(),
        timestamp: 0,
        entries: Vec::<RolexForumsEntry>::new(),
        position: 0,
    };
    let bytes = encode_db(&db);
    let back = decode_db(&bytes).expect("an empty snapshot must load");
    assert_eq!(back.name, "OtherForum");
    assert!(back.entries.is_empty());
    assert_eq!(back.position, 0);
}

#[test]
fn snapshots_are_readable_json() {
    let db = sample_db();
    let bytes = encode_db(&db);
    let text = String::from_utf8(bytes).expect("snapshots are ASCII");
    assert!(text.starts_with("{\"name\":\"RolexForums_9\",\"timestamp\":-12345,"));
    assert!(text.contains("\"entries\":[{\"id\":1,"));
    assert!(text.ends_with(",\"position\":20}"));
    // the non-ASCII brand letter is escaped
    assert!(text.contains("\\u00f6"));
}

#[test]
fn garbage_does_not_decode() {
    assert!(decode_db(&b"not a snapshot".to_vec()).is_none());
    assert!(decode_db(&Vec::new()).is_none());
    // a truncated snapshot does not decode
    let db = sample_db();
    let mut bytes = encode_db(&db);
    bytes.pop();
    assert!(decode_db(&bytes).is_none());
}

#[test]
fn supplementary_plane_text_round_trips() {
    let db = PriceDatabase {
        name: "clock \u{1F551} shop".to_string(),
        timestamp: 1,
        entries: Vec::<RolexForumsEntry>::new(),
        position: 0,
    };
    let bytes = encode_db(&db);
    let text = String::from_utf8(bytes.clone()).expect("snapshots are ASCII");
    // the clock face is written as a surrogate pair of escapes
    assert!(text.contains("\\ud83d\\udd51"));
    let back = decode_db(&bytes).expect("the snapshot must load");
    assert_eq!(back.name, db.name);
}

#[test]
fn raw_utf8_snapshots_decode() {
    // a snapshot whose strings hold unescaped UTF-8, as a generic JSON
    // serializer writes them
    let text = "{\"name\":\"caf\u{e9} \u{1F551}\",\"timestamp\":5,\"entries\":[{\"id\":1,\"timestamp\":2,\"price\":null,\"is_sold\":false,\"brand\":\"A. Lange & S\u{f6}hne\",\"model_no\":\"191.032\"}],\"position\":0}";
    let back = decode_db(&text.as_bytes().to_vec()).expect("raw UTF-8 strings must load");
    assert_eq!(back.name, "caf\u{e9} \u{1F551}");
    assert_eq!(back.entries.len(), 1);
    assert_eq!(back.entries[0].brand, "A. Lange & S\u{f6}hne");
    assert_eq!(back.timestamp, 5);
}
