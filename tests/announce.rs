use bencode::de::Deserializer;
use bencode::error::Error;
use bencode::grammar::TokenKind;
use bencode::ser::Serializer;

fn unhex(s: &str) -> Vec<u8> {
    let digit = |c: u8| match c {
        b'0'..=b'9' => c - b'0',
        _ => c - b'a' + 10,
    };
    s.as_bytes()
        .chunks(2)
        .map(|p| digit(p[0]) * 16 + digit(p[1]))
        .collect()
}

fn skip_value(de: &mut Deserializer) -> Result<(), Error> {
    match de.peek_kind()? {
        TokenKind::SignedInteger => de.deserialize_i64().map(|_| ()),
        TokenKind::UnsignedInteger => de.deserialize_u64().map(|_| ()),
        TokenKind::ByteString => de.parse_byte_string_borrowed().map(|_| ()),
        TokenKind::List => {
            de.open_list()?;
            while !de.at_close()? {
                skip_value(de)?;
            }
            de.close()
        }
        TokenKind::Dictionary => {
            de.open_dict()?;
            while !de.at_close()? {
                de.parse_byte_string_borrowed()?;
                skip_value(de)?;
            }
            de.close()
        }
    }
}

#[derive(Debug, PartialEq)]
struct AnnouncePeer {
    id: Vec<u8>,
    info_hash: String,
    port: u16,
    implied_port: bool,
}

fn read_announce(de: &mut Deserializer) -> Result<AnnouncePeer, Error> {
    let mut peer = AnnouncePeer { id: Vec::new(), info_hash: String::new(), port: 0, implied_port: false };
    de.open_dict()?;
    while !de.at_close()? {
        match de.parse_byte_string_borrowed()? {
            b"id" => peer.id = de.parse_byte_string()?,
            b"info_hash" => peer.info_hash = String::from_utf8(de.parse_byte_string()?).unwrap(),
            b"port" => peer.port = de.deserialize_u16()?,
            b"implied_port" => peer.implied_port = de.deserialize_bool()?,
            _ => skip_value(de)?,
        }
    }
    de.close()?;
    Ok(peer)
}

fn write_announce(ser: &mut Serializer, peer: &AnnouncePeer, id_is_text: bool) {
    ser.serialize_map();
    ser.serialize_str("id");
    if id_is_text {
        ser.serialize_str(std::str::from_utf8(&peer.id).unwrap());
    } else {
        ser.serialize_bytes(&peer.id);
    }
    ser.serialize_str("info_hash");
    ser.serialize_str(&peer.info_hash);
    ser.serialize_str("port");
    ser.serialize_u16(peer.port);
    ser.serialize_str("implied_port");
    ser.serialize_bool(peer.implied_port);
    ser.end();
}

#[test]
fn test() {
    let string_test = "d2:id9:picked id9:info_hash9:info hash4:porti228e12:implied_porti1ee";
    let mut deserializer = Deserializer::from_bytes(string_test.as_bytes());
    let t = read_announce(&mut deserializer).unwrap();
    assert!(deserializer.finish().is_ok());
    assert_eq!(
        t,
        AnnouncePeer { id: b"picked id".to_vec(), info_hash: "info hash".to_string(), port: 228, implied_port: true }
    );
}

#[test]
fn test_with() {
    let string_test = String::from("d2:id6:\u{1}\u{2}\u{3}\u{4}\u{5}\u{6}9:info_hash9:info hash4:porti228e12:implied_porti1ee");
    let mut deserializer = Deserializer::from_bytes(string_test.as_bytes());
    let t = read_announce(&mut deserializer).unwrap();
    assert_eq!(t.id, vec![1, 2, 3, 4, 5, 6]);
    assert_eq!(t.info_hash, "info hash");
    assert_eq!(t.port, 228);
    assert!(t.implied_port);
}

#[test]
fn test_struct() {
    let arbitrary_binary_data: Vec<u8> = vec![1, 2, 3, 4, 5, 6];
    let packet = AnnouncePeer {
        id: arbitrary_binary_data,
        info_hash: "info hash".into(),
        port: 228,
        implied_port: false,
    };
    let mut serializer = Serializer::new();
    write_announce(&mut serializer, &packet, false);
    assert_eq!(
        serializer.into_bytes(),
        b"d2:id6:\x01\x02\x03\x04\x05\x069:info_hash9:info hash4:porti228e12:implied_porti1ee".to_vec()
    );
}

#[test]
fn test_enum() {
    let packet = AnnouncePeer {
        id: b"picked id".to_vec(),
        info_hash: "info hash".into(),
        port: 228,
        implied_port: false,
    };
    let mut serializer = Serializer::new();
    serializer.serialize_newtype_variant("Request");
    write_announce(&mut serializer, &packet, true);
    serializer.end();
    assert_eq!(
        serializer.into_bytes(),
        b"d7:Requestd2:id9:picked id9:info_hash9:info hash4:porti228e12:implied_porti1eee".to_vec()
    );
}

#[test]
fn announce_peer_round_trip() {
    let peer = AnnouncePeer { id: b"picked id".to_vec(), info_hash: "info hash".to_string(), port: 228, implied_port: true };
    let mut serializer = Serializer::new();
    write_announce(&mut serializer, &peer, true);
    let bytes = serializer.into_bytes();
    assert_eq!(bytes, b"d2:id9:picked id9:info_hash9:info hash4:porti228e12:implied_porti1ee".to_vec());
    let mut deserializer = Deserializer::from_bytes(&bytes);
    assert_eq!(read_announce(&mut deserializer).unwrap(), peer);
    assert!(deserializer.finish().is_ok());
}

/// The fields of a message: `t`, `y`, and the dictionary under `a` or `r`.
struct Message {
    t: Vec<u8>,
    y: Vec<u8>,
    q: Vec<u8>,
    body: Vec<(Vec<u8>, Vec<u8>)>,
}

fn read_message(bytes: &[u8]) -> Message {
    let mut m = Message { t: Vec::new(), y: Vec::new(), q: Vec::new(), body: Vec::new() };
    let mut de = Deserializer::from_bytes(bytes);
    de.open_dict().unwrap();
    while !de.at_close().unwrap() {
        let key = de.parse_byte_string().unwrap();
        match key.as_slice() {
            b"a" | b"r" => {
                de.open_dict().unwrap();
                while !de.at_close().unwrap() {
                    let k = de.parse_byte_string().unwrap();
                    if de.peek_kind().unwrap() == TokenKind::ByteString {
                        let v = de.parse_byte_string().unwrap();
                        m.body.push((k, v));
                    } else {
                        skip_value(&mut de).unwrap();
                    }
                }
                de.close().unwrap();
            }
            b"t" => m.t = de.parse_byte_string().unwrap(),
            b"y" => m.y = de.parse_byte_string().unwrap(),
            b"q" => m.q = de.parse_byte_string().unwrap(),
            _ => skip_value(&mut de).unwrap(),
        }
    }
    de.close().unwrap();
    de.finish().unwrap();
    m
}

#[test]
fn test_deserialization() {
    let message = "64313a6164323a6273693165323a696432303a5fbb5ddff6ddf9074480fa82f538a8d80f33d405393a696e666f5f6861736832303a5fbb5ddff6ddf9074480fa8283e35f1fc55353ab65313a71393a6765745f7065657273313a74323aeb8b313a76343a4c54012f313a79313a7165";
    let message = unhex(message);
    let deserialized = read_message(&message);
    assert_eq!(deserialized.t, vec![235, 139]);
    assert_eq!(deserialized.y, b"q".to_vec());
    assert_eq!(deserialized.q, b"get_peers".to_vec());
    assert_eq!(
        deserialized.body,
        vec![
            (b"id".to_vec(), vec![95, 187, 93, 223, 246, 221, 249, 7, 68, 128, 250, 130, 245, 56, 168, 216, 15, 51, 212, 5]),
            (b"info_hash".to_vec(), vec![95, 187, 93, 223, 246, 221, 249, 7, 68, 128, 250, 130, 131, 227, 95, 31, 197, 83, 83, 171]),
        ]
    );

    let message = "64313a7264323a696432303a6b5611b3bfb7b8c8372c069a1e22e540609bda5a353a6e6f6465733230383a22f6d37eb95dc510c5330ed90f850d9d95d3992cb125b5c0acae22f6d37eb95dc510c5330ed90f850d9d95d3992cb125b5c0acae22f6d37eb95dc510c5330ed90f850d9d95d3992cb125b5c0acae22f6d37eb95dc510c5330ed90f850d9d95d3992cb125b5c0acae22f6d37eb95dc510c5330ed90f850d9d95d3992cb125b5c0acae22f6d37eb95dc510c5330ed90f850d9d95d3992cb125b5c0acae22f6d37eb95dc510c5330ed90f850d9d95d3992cb125b5c0acae22f6d37eb95dc510c5330ed90f850d9d95d3992cb125b5c0acae65313a74323a42af313a76343a4a420000313a79313a7265";
    let message = unhex(message);
    let deserialized = read_message(&message);
    assert_eq!(deserialized.t, vec![66, 175]);
    assert_eq!(deserialized.y, b"r".to_vec());
    assert_eq!(
        deserialized.body,
        vec![
            (b"id".to_vec(), vec![107, 86, 17, 179, 191, 183, 184, 200, 55, 44, 6, 154, 30, 34, 229, 64, 96, 155, 218, 90]),
            (b"nodes".to_vec(), vec![34, 246, 211, 126, 185, 93, 197, 16, 197, 51, 14, 217, 15, 133, 13, 157, 149, 211, 153, 44, 177, 37, 181, 192, 172, 174, 34, 246, 211, 126, 185, 93, 197, 16, 197, 51, 14, 217, 15, 133, 13, 157, 149, 211, 153, 44, 177, 37, 181, 192, 172, 174, 34, 246, 211, 126, 185, 93, 197, 16, 197, 51, 14, 217, 15, 133, 13, 157, 149, 211, 153, 44, 177, 37, 181, 192, 172, 174, 34, 246, 211, 126, 185, 93, 197, 16, 197, 51, 14, 217, 15, 133, 13, 157, 149, 211, 153, 44, 177, 37, 181, 192, 172, 174, 34, 246, 211, 126, 185, 93, 197, 16, 197, 51, 14, 217, 15, 133, 13, 157, 149, 211, 153, 44, 177, 37, 181, 192, 172, 174, 34, 246, 211, 126, 185, 93, 197, 16, 197, 51, 14, 217, 15, 133, 13, 157, 149, 211, 153, 44, 177, 37, 181, 192, 172, 174, 34, 246, 211, 126, 185, 93, 197, 16, 197, 51, 14, 217, 15, 133, 13, 157, 149, 211, 153, 44, 177, 37, 181, 192, 172, 174, 34, 246, 211, 126, 185, 93, 197, 16, 197, 51, 14, 217, 15, 133, 13, 157, 149, 211, 153, 44, 177, 37, 181, 192, 172, 174]),
        ]
    );
}
