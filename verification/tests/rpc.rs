use quill::error::{ProtocolError, RegistryError};
use quill::rpc::{call_frame, parse_name, RpcTable, PREFIX_SIZE};

#[test]
fn call_frame_is_the_length_prefixed_name_then_the_arguments() {
    assert_eq!(PREFIX_SIZE, 8);
    assert_eq!(
        call_frame("echo", &[9, 8, 7]),
        vec![4, 0, 0, 0, 0, 0, 0, 0, b'e', b'c', b'h', b'o', 9, 8, 7]
    );
    assert_eq!(call_frame("", &[]), vec![0, 0, 0, 0, 0, 0, 0, 0]);
}

#[test]
fn call_frame_agrees_with_the_codec() {
    let name = "w\u{f6}rld_\u{1f600}";
    let mut expected = bincode::serialize(name).unwrap();
    expected.extend_from_slice(&bincode::serialize(&7u32).unwrap());
    assert_eq!(call_frame(name, &bincode::serialize(&7u32).unwrap()), expected);
    assert_eq!(name.len(), 11);
    assert_eq!(expected[0], 11);
}

#[test]
fn parse_name_reads_the_name_and_the_start_of_the_arguments() {
    let frame = call_frame("world_spawn", &[1, 2, 3]);
    assert_eq!(parse_name(&frame), Ok(("world_spawn".to_owned(), 19)));
    assert_eq!(&frame[19..], &[1, 2, 3]);
    let bare = call_frame("x", &[]);
    assert_eq!(parse_name(&bare), Ok(("x".to_owned(), 9)));
    assert_eq!(parse_name(&call_frame("", &[5])), Ok((String::new(), 8)));
}

#[test]
fn parse_name_round_trips_unicode_names() {
    let name = "\u{e9}cho \u{4e16}\u{754c}";
    let frame = call_frame(name, &[0xff]);
    assert_eq!(parse_name(&frame), Ok((name.to_owned(), 8 + name.len())));
}

#[test]
fn truncated_prefix_is_a_truncated_name() {
    assert_eq!(parse_name(&[]), Err(ProtocolError::TruncatedName));
    assert_eq!(parse_name(&[4, 0, 0, 0, 0, 0, 0]), Err(ProtocolError::TruncatedName));
}

#[test]
fn announced_length_beyond_the_frame_is_a_truncated_name() {
    assert_eq!(
        parse_name(&[5, 0, 0, 0, 0, 0, 0, 0, b'e', b'c', b'h', b'o']),
        Err(ProtocolError::TruncatedName)
    );
    assert_eq!(
        parse_name(&[0xff, 0xff, 0xff, 0xff, 0xff, 0xff, 0xff, 0xff, b'e']),
        Err(ProtocolError::TruncatedName)
    );
    assert_eq!(
        parse_name(&[0, 0, 0, 0, 1, 0, 0, 0, b'e']),
        Err(ProtocolError::TruncatedName)
    );
}

#[test]
fn invalid_utf8_is_a_decoder_failure() {
    assert_eq!(
        parse_name(&[2, 0, 0, 0, 0, 0, 0, 0, 0xc3, 0x28]),
        Err(ProtocolError::DecoderFailure)
    );
    assert_eq!(
        parse_name(&[1, 0, 0, 0, 0, 0, 0, 0, 0x80, b'a']),
        Err(ProtocolError::DecoderFailure)
    );
}

#[test]
fn table_registers_each_name_once() {
    let mut table: RpcTable<u32> = RpcTable::new();
    assert_eq!(table.add_rpc("echo", 1), Ok(()));
    assert_eq!(table.add_rpc("sum", 2), Ok(()));
    assert_eq!(table.add_rpc("echo", 3), Err(RegistryError::DuplicateRpc));
    assert_eq!(table.len(), 2);
    assert_eq!(table.lookup("echo"), Some(&1));
    assert_eq!(table.lookup("sum"), Some(&2));
    assert_eq!(table.lookup("Echo"), None);
    assert_eq!(table.position("sum"), Some(1));
    assert_eq!(table.position("none"), None);
}

#[test]
fn dispatch_finds_the_handler_and_the_arguments() {
    let mut table: RpcTable<&'static str> = RpcTable::new();
    table.add_rpc("echo", "the echo handler").unwrap();
    table.add_rpc("sum", "the sum handler").unwrap();
    let frame = call_frame("sum", &[1, 2]);
    assert_eq!(table.dispatch(&frame), Ok((&"the sum handler", 11)));
    assert_eq!(&frame[11..], &[1, 2]);
}

#[test]
fn dispatch_of_an_unknown_name_is_an_error_value() {
    let mut table: RpcTable<u8> = RpcTable::new();
    table.add_rpc("echo", 0).unwrap();
    assert_eq!(table.dispatch(&call_frame("ech", &[])), Err(ProtocolError::UnknownRpc));
    assert_eq!(table.dispatch(&[1, 2, 3]), Err(ProtocolError::TruncatedName));
    assert_eq!(
        table.dispatch(&[1, 0, 0, 0, 0, 0, 0, 0, 0xff]),
        Err(ProtocolError::DecoderFailure)
    );
}

/// What a frame must yield, worked out without the codec.
fn expected(frame: &[u8]) -> Result<(String, usize), ProtocolError> {
    if frame.len() < 8 {
        return Err(ProtocolError::TruncatedName);
    }
    let mut prefix = [0u8; 8];
    prefix.copy_from_slice(&frame[..8]);
    let announced = u64::from_le_bytes(prefix);
    if announced > (frame.len() - 8) as u64 {
        return Err(ProtocolError::TruncatedName);
    }
    let end = 8 + announced as usize;
    match std::str::from_utf8(&frame[8..end]) {
        Ok(name) => Ok((name.to_owned(), end)),
        Err(_) => Err(ProtocolError::DecoderFailure),
    }
}

#[test]
fn parse_name_agrees_with_the_frame_format_on_many_frames() {
    let mut state: u64 = 0x9e37_79b9_7f4a_7c15;
    let mut next = move || {
        state = state.wrapping_mul(6364136223846793005).wrapping_add(1442695040888963407);
        (state >> 33) as u32
    };
    let mut accepted = 0;
    let mut truncated = 0;
    let mut garbled = 0;
    for _ in 0..4000 {
        let length = (next() % 24) as usize;
        let mut frame: Vec<u8> = (0..length).map(|_| (next() % 256) as u8).collect();
        if frame.len() >= 8 && next() % 4 != 0 {
            let announced = (next() % 20) as u64;
            frame[..8].copy_from_slice(&announced.to_le_bytes());
        }
        if next() % 2 == 0 {
            for byte in frame.iter_mut().skip(8) {
                *byte = b'a' + *byte % 26;
            }
        }
        let parsed = parse_name(&frame);
        assert_eq!(parsed, expected(&frame));
        match parsed {
            Ok(_) => accepted += 1,
            Err(ProtocolError::TruncatedName) => truncated += 1,
            Err(_) => garbled += 1,
        }
    }
    assert!(accepted > 100);
    assert!(truncated > 100);
    assert!(garbled > 100);
}

#[test]
fn call_frame_agrees_with_the_frame_format_on_many_names() {
    let names = ["", "a", "world_query", "na\u{ef}ve", "\u{1f980}\u{1f980}", "with space", "\0"];
    for name in names {
        for args in [&[][..], &[0u8][..], &[1u8, 2, 3, 4, 5, 6, 7, 8, 9][..]] {
            let mut wanted = (name.len() as u64).to_le_bytes().to_vec();
            wanted.extend_from_slice(name.as_bytes());
            wanted.extend_from_slice(args);
            let frame = call_frame(name, args);
            assert_eq!(frame, wanted);
            assert_eq!(parse_name(&frame), Ok((name.to_owned(), 8 + name.len())));
        }
    }
}
