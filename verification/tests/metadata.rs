//! Framing, digests, QR metadata and the payload sink.

use framevault::constants::{ENCODING_VERSION, METADATA_FRAMES};
use framevault::metadata::{
    assemble_payload, build_meta, build_qr_metadata, hex_digest, parse_payload, parse_qr_meta,
    payload_metadata, serialize_meta_header, sha256_hex, FileHasher, Meta, PayloadError,
    PayloadSink, QrMeta,
};
use serde_json::Value;

/// The metadata of a file as JSON.
fn meta_json(meta: &Meta) -> Vec<u8> {
    format!(
        "{{\"v\":{},\"filename\":\"{}\",\"size\":{},\"sha256\":\"{}\"}}",
        meta.v, meta.filename, meta.size, meta.sha256
    )
    .into_bytes()
}

/// What JSON metadata of a file spells.
fn read_meta(json: &[u8]) -> Option<Meta> {
    let v: Value = serde_json::from_slice(json).ok()?;
    Some(Meta {
        v: v.get("v")?.as_u64()? as u32,
        filename: v.get("filename")?.as_str()?.to_string(),
        size: v.get("size")?.as_u64()?,
        sha256: v.get("sha256")?.as_str()?.to_string(),
    })
}

/// What QR metadata spells, with short or long keys.
fn read_qr(json: &str) -> Option<QrMeta> {
    let v: Value = serde_json::from_str(json).ok()?;
    let get = |short: &str, long: &str| v.get(short).or_else(|| v.get(long)).cloned();
    let text = |x: Option<Value>| x.and_then(|x| x.as_str().map(|s| s.to_string()));
    let number = |x: Option<Value>| x.and_then(|x| x.as_u64());
    Some(QrMeta {
        version: number(get("v", "version")).map(|n| n as u32),
        filename: text(get("f", "filename")),
        size: number(get("s", "size")),
        sha256: text(get("h", "sha256")),
        ecc_bytes: number(get("e", "ecc_bytes")),
        frames: number(get("n", "frames")),
        index_bits: number(get("i", "index_bits")).map(|n| n as u32),
        metadata_frames: number(get("m", "metadata_frames")),
    })
}

#[test]
fn payload_round_trip() {
    let raw = b"hello framevault payload".to_vec();
    let meta = Meta {
        v: ENCODING_VERSION,
        filename: "x.bin".into(),
        size: raw.len() as u64,
        sha256: sha256_hex(&raw),
    };
    let payload = assemble_payload(&meta_json(&meta), &raw);
    let read = read_meta(&payload_metadata(&payload).unwrap());
    let (pmeta, pdata) = parse_payload(&payload, read, None).unwrap();
    assert_eq!(pdata, raw);
    assert_eq!(pmeta.filename, "x.bin");
    assert_eq!(pmeta.size, raw.len() as u64);
    assert_eq!(pmeta.sha256, sha256_hex(&raw));
}

#[test]
fn qr_meta_short_and_long_keys() {
    let short = r#"{"v":5,"f":"a.bin","s":10,"h":"abc","e":42,"n":1,"i":16,"m":30}"#;
    let m = parse_qr_meta(read_qr(short)).expect("short keys");
    assert_eq!(m.filename.as_deref(), Some("a.bin"));
    assert_eq!(m.size, Some(10));
    assert_eq!(m.index_bits, Some(16));

    let long = r#"{"version":4,"filename":"b.bin","size":20,"sha256":"def"}"#;
    let m2 = parse_qr_meta(read_qr(long)).expect("long keys");
    assert_eq!(m2.filename.as_deref(), Some("b.bin"));
    assert_eq!(m2.size, Some(20));

    assert!(parse_qr_meta(read_qr(r#"{"v":4,"f":"x"}"#)).is_none()); // missing required fields
    assert!(parse_qr_meta(read_qr("not json")).is_none());
}

#[test]
fn qr_metadata_of_a_file() {
    let meta = Meta {
        v: ENCODING_VERSION,
        filename: "a.bin".into(),
        size: 10,
        sha256: "abc".into(),
    };
    let qr = build_qr_metadata(&meta, 42, 1, 16);
    assert_eq!(qr.version, Some(5));
    assert_eq!(qr.filename.as_deref(), Some("a.bin"));
    assert_eq!(qr.size, Some(10));
    assert_eq!(qr.sha256.as_deref(), Some("abc"));
    assert_eq!(qr.ecc_bytes, Some(42));
    assert_eq!(qr.frames, Some(1));
    assert_eq!(qr.index_bits, Some(16));
    assert_eq!(qr.metadata_frames, Some(METADATA_FRAMES as u64));
}

#[test]
fn incomplete_qr_metadata_is_refused() {
    let full = QrMeta {
        filename: Some("f".into()),
        size: Some(1),
        sha256: Some("h".into()),
        ..QrMeta::default()
    };
    assert!(parse_qr_meta(Some(full.clone())).is_some());
    assert!(parse_qr_meta(Some(QrMeta { filename: None, ..full.clone() })).is_none());
    assert!(parse_qr_meta(Some(QrMeta { size: None, ..full.clone() })).is_none());
    assert!(parse_qr_meta(Some(QrMeta { sha256: None, ..full })).is_none());
    assert!(parse_qr_meta(Some(QrMeta::default())).is_none());
    assert!(parse_qr_meta(None).is_none());
}

#[test]
fn digests() {
    assert_eq!(
        sha256_hex(b""),
        "e3b0c44298fc1c149afbf4c8996fb92427ae41e4649b934ca495991b7852b855"
    );
    assert_eq!(
        sha256_hex(b"abc"),
        "ba7816bf8f01cfea414140de5dae2223b00361a396177a9cb410ff61f20015ad"
    );
    assert_eq!(hex_digest(&[0x00, 0x0f, 0xa9, 0xff]), "000fa9ff");
    assert_eq!(hex_digest(&[]), "");
    let mut h = FileHasher::new();
    h.update(b"a");
    h.update(b"");
    h.update(b"bc");
    assert_eq!(h.finish(), sha256_hex(b"abc"));
}

#[test]
fn metadata_of_a_file() {
    let mut h = FileHasher::new();
    h.update(b"abc");
    let m = build_meta(Some("name.txt".to_string()), 3, h);
    assert_eq!(m.v, 5);
    assert_eq!(m.filename, "name.txt");
    assert_eq!(m.size, 3);
    assert_eq!(m.sha256, sha256_hex(b"abc"));
    assert_eq!(build_meta(None, 0, FileHasher::new()).filename, "file.bin");
}

#[test]
fn header_bytes() {
    assert_eq!(serialize_meta_header(b"{}"), vec![0, 0, 0, 2, b'{', b'}']);
    let long = vec![b'x'; 0x01_02_03];
    assert_eq!(&serialize_meta_header(&long)[..4], &[0, 1, 2, 3]);
    assert_eq!(assemble_payload(b"m", b"raw"), b"\0\0\0\x01mraw".to_vec());
}

#[test]
fn each_way_to_be_no_payload() {
    let meta = Meta { v: 5, filename: "n".into(), size: 3, sha256: "h".into() };
    let p = assemble_payload(b"mm", b"raw");
    let err = |payload: &[u8], m: Option<Meta>, size: Option<u64>| {
        parse_payload(payload, m, size).map(|_| ()).unwrap_err()
    };
    assert_eq!(err(&p[..3], Some(meta.clone()), None), PayloadError::TooShortForLength);
    assert_eq!(err(&p[..5], Some(meta.clone()), None), PayloadError::TooShortForMetadata);
    assert_eq!(err(&p, None, None), PayloadError::BadMetadata);
    assert_eq!(err(&p, Some(meta.clone()), Some(u64::MAX)), PayloadError::SizeOverflow);
    assert_eq!(err(&p, Some(meta.clone()), Some(4)), PayloadError::EndedEarly);
    assert_eq!(payload_metadata(&p[..3]), Err(PayloadError::TooShortForLength));
    assert_eq!(payload_metadata(&p[..5]), Err(PayloadError::TooShortForMetadata));
    assert_eq!(payload_metadata(&p), Ok(b"mm".to_vec()));
    // The expected size counts before the one in the metadata.
    assert_eq!(parse_payload(&p, Some(meta.clone()), None).unwrap().1, b"raw".to_vec());
    assert_eq!(parse_payload(&p, Some(meta), Some(2)).unwrap().1, b"ra".to_vec());
}

#[test]
fn sink_finds_the_file_in_any_pieces() {
    let meta = b"{\"some\":\"metadata\"}";
    let raw: Vec<u8> = (0..500).map(|i| (i * 7) as u8).collect();
    let mut payload = assemble_payload(meta, &raw);
    payload.extend([0u8; 40]); // zeros behind the file
    for piece in [1usize, 2, 3, 4, 5, 22, 23, 24, 100, 1000] {
        let mut sink = PayloadSink::new(raw.len() as u64);
        let mut out = Vec::new();
        for chunk in payload.chunks(piece) {
            out.extend_from_slice(sink.feed(chunk));
        }
        assert!(sink.feed(&[]).is_empty());
        assert_eq!(out, raw, "pieces of {piece}");
        assert_eq!(sink.bytes_written(), 500);
        let finished = sink.finish();
        assert_eq!(finished.sha256, sha256_hex(&raw));
        assert_eq!(finished.bytes_written, 500);
    }
}

#[test]
fn sink_without_metadata_or_file() {
    let mut sink = PayloadSink::new(3);
    assert!(sink.feed(&[0, 0, 0, 0]).is_empty());
    assert_eq!(sink.feed(&[7]), &[7]);
    assert_eq!(sink.finish().bytes_written, 1);
    let mut empty = PayloadSink::new(0);
    assert!(empty.feed(&[0, 0, 0, 1, 9, 8, 7]).is_empty());
    assert_eq!(empty.finish().sha256, sha256_hex(b""));
}

#[test]
fn what_stands_behind_a_payload_does_not_matter() {
    let raw = b"the file".to_vec();
    let meta = Meta {
        v: ENCODING_VERSION,
        filename: "p.bin".into(),
        size: raw.len() as u64,
        sha256: sha256_hex(&raw),
    };
    let mut padded = assemble_payload(&meta_json(&meta), &raw);
    padded.extend([9u8; 40]);
    assert_eq!(payload_metadata(&padded).unwrap(), meta_json(&meta));
    let read = || read_meta(&meta_json(&meta));
    assert_eq!(parse_payload(&padded, read(), None).unwrap().1, raw);
    // A size from elsewhere counts first.
    assert_eq!(parse_payload(&padded, read(), Some(3)).unwrap().1, b"the");
    assert_eq!(parse_payload(&padded, read(), Some(10)).unwrap().1, b"the file\x09\x09");
    assert_eq!(parse_payload(&padded, read(), Some(49)).err(), Some(PayloadError::EndedEarly));
}
