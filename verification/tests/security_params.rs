use snmp_usm::{SecurityError, SecurityParams};

#[test]
fn it_sets_engine_boots_to_0_when_negative() {
    let mut security_params = SecurityParams::new();
    security_params.set_engine_boots(-1);

    assert_eq!(security_params.engine_boots(), 0);
}

#[test]
fn it_sets_engine_time_to_0_when_negative() {
    let mut security_params = SecurityParams::new();
    security_params.set_engine_time(-1);

    assert_eq!(security_params.engine_time(), 0);
}

#[test]
fn it_encodes_empty_security_params() {
    let result = SecurityParams::discovery().encode();
    let expected = [
        0x30, 0x0E, 0x04, 0x00, 0x02, 0x01, 0x00, 0x02, 0x01, 0x00, 0x04, 0x00, 0x04, 0x00, 0x04,
        0x00,
    ];

    assert_eq!(result, expected);
}

#[test]
fn it_creates_security_params_with_username_and_auth_params() {
    let incoming_security_params = vec![
        0x30, 0x21, 0x04, 0x11, 0x80, 0x00, 0x1F, 0x88, 0x80, 0xFA, 0xA8, 0x11, 0x60, 0x0F, 0xA2,
        0xC5, 0x5E, 0x00, 0x00, 0x00, 0x00, 0x02, 0x01, 0x18, 0x02, 0x03, 0x01, 0x85, 0xFC, 0x04,
        0x00, 0x04, 0x00, 0x04, 0x00,
    ];
    let result = SecurityParams::decode(&incoming_security_params)
        .unwrap()
        .set_username(b"username")
        .set_auth_params_placeholder()
        .encode();
    let expected = vec![
        0x30, 0x35, 0x04, 0x11, 0x80, 0x00, 0x1F, 0x88, 0x80, 0xFA, 0xA8, 0x11, 0x60, 0x0F, 0xA2,
        0xC5, 0x5E, 0x00, 0x00, 0x00, 0x00, 0x02, 0x01, 0x18, 0x02, 0x03, 0x01, 0x85, 0xFC, 0x04,
        0x08, 0x75, 0x73, 0x65, 0x72, 0x6E, 0x61, 0x6D, 0x65, 0x04, 0x0C, 0x00, 0x00, 0x00, 0x00,
        0x00, 0x00, 0x00, 0x00, 0x00, 0x00, 0x00, 0x00, 0x04, 0x00,
    ];

    assert_eq!(result, expected);
}

#[test]
fn it_returns_malformed_security_params_error_for_empty_security_params() {
    let incoming_security_params = [];
    let result = SecurityParams::decode(&incoming_security_params);

    assert_eq!(result, Err(SecurityError::MalformedSecurityParams));
}

#[test]
fn it_returns_malformed_security_params_error_for_negative_engine_boots() {
    let security_params = [
        0x30, 0x0E, 0x04, 0x00, 0x02, 0x01, 0xFF, 0x02, 0x01, 0x00, 0x04, 0x00, 0x04, 0x00, 0x04,
        0x00,
    ];
    let result = SecurityParams::decode(&security_params);

    assert_eq!(result, Err(SecurityError::MalformedSecurityParams));
}

#[test]
fn it_returns_malformed_security_params_error_for_negative_engine_time() {
    let security_params = [
        0x30, 0x0E, 0x04, 0x00, 0x02, 0x01, 0x00, 0x02, 0x01, 0xFF, 0x04, 0x00, 0x04, 0x00, 0x04,
        0x00,
    ];
    let result = SecurityParams::decode(&security_params);

    assert_eq!(result, Err(SecurityError::MalformedSecurityParams));
}

#[test]
fn new_and_discovery_are_equivalent_empty_records() {
    let a = SecurityParams::new();
    let b = SecurityParams::discovery();

    assert_eq!(a, b);
    assert_eq!(a.engine_id(), b"");
    assert_eq!(a.engine_boots(), 0);
    assert_eq!(a.engine_time(), 0);
    assert_eq!(a.username(), b"");
    assert_eq!(a.auth_params(), b"");
    assert_eq!(a.priv_params(), b"");
    assert_eq!(SecurityParams::default(), a);
}

#[test]
fn setters_store_bytes_exactly() {
    let mut sp = SecurityParams::new();
    sp.set_engine_id(b"engine_id");
    sp.set_username(b"username");
    sp.set_auth_params(b"auth_params");
    sp.set_priv_params(b"saltsalt");

    assert_eq!(sp.engine_id(), b"engine_id");
    assert_eq!(sp.username(), b"username");
    assert_eq!(sp.auth_params(), b"auth_params");
    assert_eq!(sp.priv_params(), b"saltsalt");
}

#[test]
fn setters_replace_prior_content() {
    let mut sp = SecurityParams::new();
    sp.set_engine_id(b"a much longer engine id value");
    sp.set_engine_id(b"short");
    assert_eq!(sp.engine_id(), b"short");

    sp.set_username(b"first");
    sp.set_username(b"");
    assert_eq!(sp.username(), b"");
}

#[test]
fn auth_params_placeholder_is_twelve_zero_octets() {
    let mut sp = SecurityParams::new();
    sp.set_auth_params(b"something else");
    sp.set_auth_params_placeholder();

    assert_eq!(sp.auth_params(), [0u8; 12]);
}

#[test]
fn counter_setters_clamp_only_negative_values() {
    let mut sp = SecurityParams::new();
    sp.set_engine_boots(i32::MIN);
    sp.set_engine_time(i32::MIN);
    assert_eq!(sp.engine_boots(), 0);
    assert_eq!(sp.engine_time(), 0);

    sp.set_engine_boots(i32::MAX);
    sp.set_engine_time(1);
    assert_eq!(sp.engine_boots(), i32::MAX);
    assert_eq!(sp.engine_time(), 1);
}

#[test]
fn chained_and_unchained_setter_calls_agree() {
    let mut chained = SecurityParams::new();
    chained
        .set_engine_id(b"engine")
        .set_engine_boots(5)
        .set_engine_time(7)
        .set_username(b"user")
        .set_auth_params(b"auth")
        .set_priv_params(b"priv");

    let mut plain = SecurityParams::new();
    plain.set_engine_id(b"engine");
    plain.set_engine_boots(5);
    plain.set_engine_time(7);
    plain.set_username(b"user");
    plain.set_auth_params(b"auth");
    plain.set_priv_params(b"priv");

    assert_eq!(chained, plain);
    assert_eq!(chained.encode(), plain.encode());
}

#[test]
fn encode_then_decode_returns_equal_record() {
    let mut sp = SecurityParams::new();
    sp.set_engine_id(b"\x80\x00\x1F\x88engine")
        .set_engine_boots(77)
        .set_engine_time(123456)
        .set_username(b"roundtrip")
        .set_auth_params(b"123456789012")
        .set_priv_params(b"\x00\x01\x02\x03\x04\x05\x06\x07");

    let encoded = sp.encode();
    let decoded = SecurityParams::decode(&encoded).unwrap();

    assert_eq!(decoded, sp);
    assert_eq!(decoded.encode(), encoded);
}

#[test]
fn decoded_sample_exposes_all_fields() {
    let sample = [
        0x30, 0x21, 0x04, 0x11, 0x80, 0x00, 0x1F, 0x88, 0x80, 0xFA, 0xA8, 0x11, 0x60, 0x0F, 0xA2,
        0xC5, 0x5E, 0x00, 0x00, 0x00, 0x00, 0x02, 0x01, 0x18, 0x02, 0x03, 0x01, 0x85, 0xFC, 0x04,
        0x00, 0x04, 0x00, 0x04, 0x00,
    ];
    let sp = SecurityParams::decode(&sample).unwrap();

    assert_eq!(
        sp.engine_id(),
        [
            0x80, 0x00, 0x1F, 0x88, 0x80, 0xFA, 0xA8, 0x11, 0x60, 0x0F, 0xA2, 0xC5, 0x5E, 0x00,
            0x00, 0x00, 0x00
        ]
    );
    assert_eq!(sp.engine_boots(), 0x18);
    assert_eq!(sp.engine_time(), 0x0185FC);
    assert_eq!(sp.username(), b"");
    assert_eq!(sp.auth_params(), b"");
    assert_eq!(sp.priv_params(), b"");
}

#[test]
fn decode_rejects_structural_errors() {
    // a tag other than SEQUENCE at the start
    let wrong_tag = [0x31, 0x03, 0x04, 0x01, 0x00];
    assert_eq!(
        SecurityParams::decode(&wrong_tag),
        Err(SecurityError::MalformedSecurityParams)
    );

    // a truncated SEQUENCE: the declared length overruns the input
    let truncated = [0x30, 0x0E, 0x04, 0x00, 0x02, 0x01, 0x00];
    assert_eq!(
        SecurityParams::decode(&truncated),
        Err(SecurityError::MalformedSecurityParams)
    );

    // bytes trailing past the SEQUENCE's end
    let trailing = [
        0x30, 0x0E, 0x04, 0x00, 0x02, 0x01, 0x00, 0x02, 0x01, 0x00, 0x04, 0x00, 0x04, 0x00, 0x04,
        0x00, 0xAA,
    ];
    assert_eq!(
        SecurityParams::decode(&trailing),
        Err(SecurityError::MalformedSecurityParams)
    );

    // only five of the six fields present
    let five_fields = [
        0x30, 0x0C, 0x04, 0x00, 0x02, 0x01, 0x00, 0x02, 0x01, 0x00, 0x04, 0x00, 0x04, 0x00,
    ];
    assert_eq!(
        SecurityParams::decode(&five_fields),
        Err(SecurityError::MalformedSecurityParams)
    );

    // a non-minimal integer encoding of the boots counter
    let padded_int = [
        0x30, 0x0F, 0x04, 0x00, 0x02, 0x02, 0x00, 0x18, 0x02, 0x01, 0x00, 0x04, 0x00, 0x04, 0x00,
        0x04, 0x00,
    ];
    assert_eq!(
        SecurityParams::decode(&padded_int),
        Err(SecurityError::MalformedSecurityParams)
    );

    // an indefinite SEQUENCE length
    let indefinite = [
        0x30, 0x80, 0x04, 0x00, 0x02, 0x01, 0x00, 0x02, 0x01, 0x00, 0x04, 0x00, 0x04, 0x00, 0x04,
        0x00, 0x00, 0x00,
    ];
    assert_eq!(
        SecurityParams::decode(&indefinite),
        Err(SecurityError::MalformedSecurityParams)
    );

    // a boots counter wider than 32 bits
    let wide_int = [
        0x30, 0x12, 0x04, 0x00, 0x02, 0x05, 0x01, 0x00, 0x00, 0x00, 0x00, 0x02, 0x01, 0x00, 0x04,
        0x00, 0x04, 0x00, 0x04, 0x00,
    ];
    assert_eq!(
        SecurityParams::decode(&wide_int),
        Err(SecurityError::MalformedSecurityParams)
    );
}

#[test]
fn decode_accepts_long_form_lengths() {
    // the same empty record, its SEQUENCE length written in long form
    let long_form = [
        0x30, 0x81, 0x0E, 0x04, 0x00, 0x02, 0x01, 0x00, 0x02, 0x01, 0x00, 0x04, 0x00, 0x04, 0x00,
        0x04, 0x00,
    ];
    let sp = SecurityParams::decode(&long_form).unwrap();

    assert_eq!(sp, SecurityParams::discovery());
    assert_eq!(sp.encode(), SecurityParams::discovery().encode());

    // a redundant leading zero in the length octets is tolerated too
    let padded_len = [
        0x30, 0x82, 0x00, 0x0E, 0x04, 0x00, 0x02, 0x01, 0x00, 0x02, 0x01, 0x00, 0x04, 0x00, 0x04,
        0x00, 0x04, 0x00,
    ];
    let sp2 = SecurityParams::decode(&padded_len).unwrap();
    assert_eq!(sp2, SecurityParams::discovery());
}

#[test]
fn encode_uses_long_form_lengths_for_large_fields() {
    let mut sp = SecurityParams::new();
    sp.set_username(&[0x41u8; 200]);
    let encoded = sp.encode();

    // SEQUENCE: 30 81 D7, then the empty engine ID, both counters, and the
    // username as 04 81 C8 followed by 200 bytes
    assert_eq!(encoded[0], 0x30);
    assert_eq!(encoded[1], 0x81);
    assert_eq!(encoded[2], 0xD7);
    assert_eq!(&encoded[3..11], [0x04, 0x00, 0x02, 0x01, 0x00, 0x02, 0x01, 0x00]);
    assert_eq!(&encoded[11..14], [0x04, 0x81, 0xC8]);
    assert_eq!(&encoded[14..214], [0x41u8; 200]);
    assert_eq!(&encoded[214..], [0x04, 0x00, 0x04, 0x00]);

    let decoded = SecurityParams::decode(&encoded).unwrap();
    assert_eq!(decoded, sp);
}

#[test]
fn encode_uses_multi_byte_integer_contents() {
    let mut sp = SecurityParams::new();
    sp.set_engine_boots(0x18).set_engine_time(0x0185FC);
    let encoded = sp.encode();
    let expected = [
        0x30, 0x10, 0x04, 0x00, 0x02, 0x01, 0x18, 0x02, 0x03, 0x01, 0x85, 0xFC, 0x04, 0x00, 0x04,
        0x00, 0x04, 0x00,
    ];

    assert_eq!(encoded, expected);
}

#[test]
fn encode_pads_integers_with_a_high_magnitude_bit() {
    // 200 needs a leading zero octet so it does not read as negative
    let mut sp = SecurityParams::new();
    sp.set_engine_boots(200);
    let encoded = sp.encode();
    let expected = [
        0x30, 0x0F, 0x04, 0x00, 0x02, 0x02, 0x00, 0xC8, 0x02, 0x01, 0x00, 0x04, 0x00, 0x04, 0x00,
        0x04, 0x00,
    ];

    assert_eq!(encoded, expected);

    let decoded = SecurityParams::decode(&encoded).unwrap();
    assert_eq!(decoded.engine_boots(), 200);
}
