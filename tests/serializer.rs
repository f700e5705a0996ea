use fortune::cookie::serializer::{
    u64_htonl_to_bytes, u64_ntohl_from_bytes, Serializer, SerializerFreeBSD, SerializerHomebrew,
    SerializerLinux, SerializerType,
};
use fortune::cookie::{Cookie, CookieError, CookieJar, FLAGS_ORDERED, FLAGS_RANDOMIZED, FLAGS_ROTATED};

#[test]
fn test_u64_htonl_to_bytes() {
    let testcases = [
        (
            0x1234567890ABCDEF,
            [0x90, 0xAB, 0xCD, 0xEF, 0x00, 0x00, 0x00, 0x00],
        ),
        (
            0x0000000000000001,
            [0x00, 0x00, 0x00, 0x01, 0x00, 0x00, 0x00, 0x00],
        ),
        (
            0x1234567800000000,
            [0x00, 0x00, 0x00, 0x00, 0x00, 0x00, 0x00, 0x00],
        ),
    ];
    for (n, expected) in testcases.iter() {
        assert_eq!(u64_htonl_to_bytes(*n), *expected);
    }
}

#[test]
fn test_u64_ntohl_from_bytes() {
    let testcases = [
        (
            [0x90, 0xAB, 0xCD, 0xEF, 0x00, 0x00, 0x00, 0x00],
            0x0000000090ABCDEF,
        ),
        (
            [0x00, 0x00, 0x00, 0x01, 0x00, 0x00, 0x00, 0x00],
            0x0000000000000001,
        ),
    ];
    for (bytes, expected) in testcases.iter() {
        assert_eq!(u64_ntohl_from_bytes(*bytes), *expected);
    }
}

#[test]
fn test_serializer_get_type_by_platform() {
    assert_eq!(
        Serializer::get_type_by_platform("homebrew", SerializerType::Linux),
        SerializerType::Homebrew
    );
    assert_eq!(
        Serializer::get_type_by_platform("linux", SerializerType::FreeBSD),
        SerializerType::Linux
    );
    assert_eq!(
        Serializer::get_type_by_platform("freebsd", SerializerType::Linux),
        SerializerType::FreeBSD
    );
}

#[test]
fn unknown_platform_falls_back_to_host() {
    assert_eq!(
        Serializer::get_type_by_platform("", SerializerType::FreeBSD),
        SerializerType::FreeBSD
    );
    assert_eq!(
        Serializer::get_type_by_platform("solaris", SerializerType::Homebrew),
        SerializerType::Homebrew
    );
}

#[test]
fn operating_systems_map_to_layouts() {
    assert_eq!(Serializer::get_type_by_os("macos"), SerializerType::Homebrew);
    assert_eq!(Serializer::get_type_by_os("linux"), SerializerType::Linux);
    assert_eq!(Serializer::get_type_by_os("freebsd"), SerializerType::FreeBSD);
    assert_eq!(Serializer::get_type_by_os("windows"), SerializerType::Linux);
    assert_eq!(
        Serializer::get_platform_by_type(&SerializerType::Homebrew),
        "homebrew"
    );
    assert_eq!(Serializer::get_platform_by_type(&SerializerType::Linux), "linux");
    assert_eq!(
        Serializer::get_platform_by_type(&SerializerType::FreeBSD),
        "freebsd"
    );
}

fn get_testcases_for_bytes() -> Vec<(
    Vec<u8>,
    (SerializerType, u64, u64, u64, u64, u64, char, Vec<u64>, u64),
)> {
    vec![
        (
            vec![
                0x00, 0x00, 0x00, 0x01, 0x00, 0x00, 0x00, 0x00, // version 1
                0x00, 0x00, 0x00, 0x02, 0x00, 0x00, 0x00, 0x00, // num_cookies 2
                0x00, 0x00, 0x00, 0x10, 0x00, 0x00, 0x00, 0x00, // max_length 16
                0x00, 0x00, 0x00, 0x05, 0x00, 0x00, 0x00, 0x00, // min_length 5
                0x00, 0x00, 0x00, 0x01, 0x00, 0x00, 0x00, 0x00, // flags FLAGS_RANDOMIZED
                0x25, // delim '%'
                0x00, 0x00, 0x00, 0x00, 0x00, 0x00, 0x00, // padding
                0x00, 0x00, 0x00, 0x23, 0x00, 0x00, 0x00, 0x00, // offset 35
                0x00, 0x00, 0x00, 0x78, 0x00, 0x00, 0x00, 0x00, // offset 120
                0x00, 0x00, 0x00, 0xA0, 0x00, 0x00, 0x00, 0x00, // file_size 160
            ],
            (
                SerializerType::Homebrew,
                1,
                2,
                16,
                5,
                FLAGS_RANDOMIZED,
                '%',
                vec![35, 120],
                160,
            ),
        ),
        (
            vec![
                0x00, 0x00, 0x00, 0x02, // version 2
                0x00, 0x00, 0x00, 0x02, // num_cookies 2
                0x00, 0x00, 0x00, 0x11, // max_length 17
                0x00, 0x00, 0x00, 0x06, // min_length 6
                0x00, 0x00, 0x00, 0x02, // flags FLAGS_ORDERED
                0x25, // delim '%'
                0x00, 0x00, 0x00, // padding
                0x00, 0x00, 0x00, 0x30, // offset 48
                0x00, 0x00, 0x00, 0x80, // offset 128
                0x00, 0x00, 0x00, 0xB0, // file_size 176
            ],
            (
                SerializerType::Linux,
                2,
                2,
                17,
                6,
                FLAGS_ORDERED,
                '%',
                vec![48, 128],
                176,
            ),
        ),
        (
            vec![
                0x00, 0x00, 0x00, 0x01, // version 1
                0x00, 0x00, 0x00, 0x02, // num_cookies 2
                0x00, 0x00, 0x00, 0x13, // max_length 19
                0x00, 0x00, 0x00, 0x09, // min_length 9
                0x00, 0x00, 0x00, 0x04, // flags FLAGS_ROTATED
                0x25, // delim '%'
                0x00, 0x00, 0x00, // padding
                0x00, 0x00, 0x00, 0x00, 0x00, 0x00, 0x00, 0x08, // offset 8
                0x00, 0x00, 0x00, 0x00, 0x00, 0x00, 0x00, 0x38, // offset 56
                0x00, 0x00, 0x00, 0x00, 0x00, 0x00, 0x00, 0xC0, // file_size 192
            ],
            (
                SerializerType::FreeBSD,
                1,
                2,
                19,
                9,
                FLAGS_ROTATED,
                '%',
                vec![8, 56],
                192,
            ),
        ),
    ]
}

/// A host layout other than `t`, so that a fallback cannot pass for a match.
fn other_than(t: &SerializerType) -> SerializerType {
    match t {
        SerializerType::Linux => SerializerType::Homebrew,
        _ => SerializerType::Linux,
    }
}

#[test]
fn test_serializer_get_type_by_bytes() {
    let testcases = get_testcases_for_bytes();
    for (bytes, expected) in testcases.iter() {
        let (expected_type, _, _, _, _, _, _, _, _) = expected;
        let t = Serializer::get_type_by_bytes(&bytes.to_vec(), other_than(expected_type));
        assert_eq!(
            *expected_type, t,
            "Got wrong SerializerType: expected: {:?}, got: {:?}",
            expected_type, t
        );
    }
}

#[test]
fn test_serializer_from_bytes() {
    let testcases = get_testcases_for_bytes();
    for (bytes, expected) in testcases.iter() {
        let (
            expected_type,
            expected_version,
            expected_num_cookies,
            expected_max_length,
            expected_min_length,
            expected_flags,
            expected_delim,
            expected_offsets,
            expected_file_size,
        ) = expected;
        let data = Serializer::from_bytes(&bytes.to_vec(), expected_type).unwrap();
        let msg = format!("{:?}", data);
        assert_eq!(*expected_version, data.version, "[wrong version]: {}", msg);
        assert_eq!(*expected_max_length, data.max_length, "[wrong max_length]: {}", msg);
        assert_eq!(*expected_min_length, data.min_length, "[wrong min_length]: {}", msg);
        assert_eq!(*expected_flags, data.flags, "[wrong flags]: {}", msg);
        assert_eq!(*expected_delim, data.delim, "[wrong delim]: {}", msg);
        assert_eq!(*expected_file_size, data.file_size, "[wrong file_size]: {}", msg);
        assert_eq!(
            *expected_num_cookies,
            data.cookies.len() as u64,
            "[wrong cookies.len()]: {}",
            msg
        );
        for (i, offset) in expected_offsets.iter().enumerate() {
            assert_eq!(*offset, data.cookies[i].offset, "[wrong offset]: {}", msg);
        }
    }
}

#[test]
fn test_serializer_to_bytes() {
    let testcases = get_testcases_for_bytes();

    for (expected, given) in testcases.iter() {
        let (t, version, num_cookies, max_length, min_length, flags, delim, offsets, file_size) =
            given;
        let mut data = CookieJar {
            location: "".to_string(),
            probability: 0,
            platform: Serializer::get_platform_by_type(t),
            version: *version,
            cookies: Vec::new(),
            max_length: *max_length,
            min_length: *min_length,
            flags: *flags,
            delim: *delim,
            file_size: *file_size,
        };
        for offset in offsets.iter() {
            data.cookies.push(Cookie {
                location: "".to_string(),
                content: "".to_string(),
                offset: *offset,
            });
        }
        assert_eq!(
            *num_cookies,
            data.cookies.len() as u64,
            "num_cookies != cookies.len()"
        );
        let given_msg = format!("Given: {:?}", data);
        let bytes = Serializer::to_bytes(&data, t);
        assert_eq!(expected.to_vec(), bytes, "[wrong bytes]: {}", given_msg);
    }
}

#[test]
fn platform_serializers_agree_with_the_keyed_one() {
    for (bytes, given) in get_testcases_for_bytes().iter() {
        let t = &given.0;
        let jar = Serializer::from_bytes(bytes, t).unwrap();
        let again = match t {
            SerializerType::Homebrew => SerializerHomebrew::to_bytes(&jar),
            SerializerType::Linux => SerializerLinux::to_bytes(&jar),
            SerializerType::FreeBSD => SerializerFreeBSD::to_bytes(&jar),
        };
        assert_eq!(*bytes, again);
        let decoded = match t {
            SerializerType::Homebrew => SerializerHomebrew::from_bytes(bytes),
            SerializerType::Linux => SerializerLinux::from_bytes(bytes),
            SerializerType::FreeBSD => SerializerFreeBSD::from_bytes(bytes),
        }
        .unwrap();
        assert_eq!(jar.file_size, decoded.file_size);
    }
}

#[test]
fn missing_offsets_are_computed_from_the_text() {
    let jar = CookieJar::from_text("apple\n%\nbanana\n%\ncherry", "fruit", '%').unwrap();
    let bytes = Serializer::to_bytes(&jar, &SerializerType::Linux);
    let back = Serializer::from_bytes(&bytes, &SerializerType::Linux).unwrap();
    let offsets: Vec<u64> = back.cookies.iter().map(|c| c.offset).collect();
    assert_eq!(vec![0, 8, 17], offsets);
    assert_eq!(2, back.version);
}

#[test]
fn round_trip_in_every_layout() {
    let mut jar = CookieJar::from_text("Every dog has its day.\n%\nA cat has nine lives.\n%", "bay", '%')
        .unwrap();
    jar.flags = FLAGS_RANDOMIZED | FLAGS_ROTATED;
    for t in [SerializerType::Homebrew, SerializerType::Linux, SerializerType::FreeBSD] {
        let bytes = Serializer::to_bytes(&jar, &t);
        let back = Serializer::from_bytes(&bytes, &t).unwrap();
        assert_eq!(jar.max_length, back.max_length);
        assert_eq!(jar.min_length, back.min_length);
        assert_eq!(jar.flags, back.flags);
        assert_eq!(jar.delim, back.delim);
        assert_eq!(jar.file_size, back.file_size);
        assert_eq!(jar.cookies.len(), back.cookies.len());
        assert_eq!(vec![0, 25], back.cookies.iter().map(|c| c.offset).collect::<Vec<u64>>());
        let again = Serializer::to_bytes(&back, &t);
        let twice = Serializer::from_bytes(&again, &t).unwrap();
        assert_eq!(back.cookies[1].offset, twice.cookies[1].offset);
    }
}

#[test]
fn header_sizes_per_layout() {
    let jar = CookieJar::default();
    assert_eq!(48 + 8, Serializer::to_bytes(&jar, &SerializerType::Homebrew).len());
    assert_eq!(24 + 4, Serializer::to_bytes(&jar, &SerializerType::Linux).len());
    assert_eq!(24 + 8, Serializer::to_bytes(&jar, &SerializerType::FreeBSD).len());
}

#[test]
fn short_input_is_a_malformed_header() {
    let bytes = vec![0u8; 20];
    assert_eq!(
        Err(CookieError::MalformedHeader),
        Serializer::from_bytes(&bytes, &SerializerType::Linux).map(|j| j.version)
    );
    let ragged = vec![0u8; 24 + 4 + 2];
    assert_eq!(
        Err(CookieError::MalformedHeader),
        Serializer::from_bytes(&ragged, &SerializerType::Linux).map(|j| j.version)
    );
}

#[test]
fn count_mismatch_is_truncated_data() {
    let mut bytes = get_testcases_for_bytes()[1].0.clone();
    bytes[7] = 3;
    assert_eq!(
        Err(CookieError::TruncatedData),
        Serializer::from_bytes(&bytes, &SerializerType::Linux).map(|j| j.version)
    );
    let mut brew = get_testcases_for_bytes()[0].0.clone();
    brew[11] = 5;
    assert_eq!(
        Err(CookieError::TruncatedData),
        Serializer::from_bytes(&brew, &SerializerType::Homebrew).map(|j| j.version)
    );
}

#[test]
fn detection_of_each_pattern_and_of_zeros() {
    let cases = get_testcases_for_bytes();
    assert_eq!(
        SerializerType::Homebrew,
        Serializer::get_type_by_bytes(&cases[0].0, SerializerType::Linux)
    );
    assert_eq!(
        SerializerType::Linux,
        Serializer::get_type_by_bytes(&cases[1].0, SerializerType::FreeBSD)
    );
    assert_eq!(
        SerializerType::FreeBSD,
        Serializer::get_type_by_bytes(&cases[2].0, SerializerType::Linux)
    );
    let zeros = vec![0u8; 24];
    assert_eq!(
        SerializerType::FreeBSD,
        Serializer::get_type_by_bytes(&zeros, SerializerType::FreeBSD)
    );
    assert_eq!(
        SerializerType::Homebrew,
        Serializer::get_type_by_bytes(&vec![0u8, 0, 0], SerializerType::Homebrew)
    );
}

#[test]
fn dat_file_is_named_after_its_source() {
    let bytes = get_testcases_for_bytes()[1].0.clone();
    let jar = CookieJar::from_dat("data/fortunes.dat", &bytes, SerializerType::Homebrew).unwrap();
    assert_eq!("data/fortunes", jar.location);
    assert_eq!("linux", jar.platform);
    assert_eq!(2, jar.cookies.len());
    assert_eq!(
        Err(CookieError::NotIndexFile),
        CookieJar::from_dat("data/fortunes", &bytes, SerializerType::Linux).map(|j| j.version)
    );
}

#[test]
fn layout_decoders_report_which_error() {
    let mut brew = get_testcases_for_bytes()[0].0.clone();
    brew[11] = 3;
    assert_eq!(
        Err(CookieError::TruncatedData),
        SerializerHomebrew::from_bytes(&brew).map(|j| j.version)
    );
    assert_eq!(
        Err(CookieError::MalformedHeader),
        SerializerHomebrew::from_bytes(&vec![0u8; 50]).map(|j| j.version)
    );
    let mut linux = get_testcases_for_bytes()[1].0.clone();
    linux[7] = 1;
    assert_eq!(
        Err(CookieError::TruncatedData),
        SerializerLinux::from_bytes(&linux).map(|j| j.version)
    );
    assert_eq!(
        Err(CookieError::MalformedHeader),
        SerializerFreeBSD::from_bytes(&vec![0u8; 36]).map(|j| j.version)
    );
}
