use identity::codec::{decode_identity, encode_identity};
use identity::command_codec::{decode_command, encode_command};
use identity::program::{HandleError, IdentityProgram};
use identity::record::{Command, IdentityData, Modification, Region};

fn program() -> IdentityProgram {
    IdentityProgram::init(&[0xab; 32], &[0x01; 32])
}

fn update(program: &mut IdentityProgram, modifications: Vec<Modification>) {
    let payload = encode_command(&Command::Update(modifications));
    assert_eq!(program.handle(&payload), Ok(None));
}

fn get(program: &mut IdentityProgram) -> IdentityData {
    let reply = program.handle(&[0u8]).unwrap().unwrap();
    decode_identity(&reply).unwrap()
}

fn same(a: &IdentityData, b: &IdentityData) -> bool {
    a.name == b.name && a.socials == b.socials && a.keywords == b.keywords && a.region == b.region
}

fn texts(items: &[&str]) -> Vec<String> {
    items.iter().map(|s| s.to_string()).collect()
}

#[test]
fn default_construction() {
    let mut p = IdentityProgram::init(&[0xab; 32], &[0x01; 32]);
    assert_eq!(p.owner, [0xab; 32]);
    let d = get(&mut p);
    assert_eq!(d.name, format!("0x{}", "ab".repeat(32)));
    assert_eq!(d.socials, format!("vara.go/0x{}", "01".repeat(32)));
    assert!(d.keywords.is_empty());
    assert_eq!(d.region, Region::Earth);
}

#[test]
fn new_spells_ids_in_lower_case_hex() {
    let mut user = [0u8; 32];
    user[0] = 0x0f;
    user[31] = 0xa0;
    let d = IdentityData::new(&user, &[0xff; 32]);
    assert_eq!(d.name, format!("0x0f{}a0", "00".repeat(30)));
    assert_eq!(d.socials, format!("vara.go/0x{}", "ff".repeat(32)));
}

#[test]
fn dummy_is_empty() {
    let d = IdentityData::dummy();
    assert_eq!(d.name, "");
    assert_eq!(d.socials, "");
    assert!(d.keywords.is_empty());
    assert_eq!(d.region, Region::Earth);
}

#[test]
fn keywords_replaced_not_merged() {
    let mut p = program();
    update(&mut p, vec![Modification::Keywords(texts(&["a", "b"]))]);
    update(&mut p, vec![Modification::Keywords(texts(&["c"]))]);
    assert_eq!(get(&mut p).keywords, texts(&["c"]));
}

#[test]
fn later_name_in_batch_wins() {
    let mut p = program();
    update(
        &mut p,
        vec![Modification::Name("x".to_string()), Modification::Name("y".to_string())],
    );
    assert_eq!(get(&mut p).name, "y");
}

#[test]
fn socials_update_leaves_other_fields() {
    let mut p = program();
    update(
        &mut p,
        vec![
            Modification::Name("n".to_string()),
            Modification::Keywords(texts(&["k1", "k2"])),
            Modification::Region(Region::LatAm),
        ],
    );
    let before = get(&mut p);
    update(&mut p, vec![Modification::Socials("s".to_string())]);
    let after = get(&mut p);
    assert_eq!(after.socials, "s");
    assert_eq!(after.name, before.name);
    assert_eq!(after.keywords, before.keywords);
    assert_eq!(after.region, before.region);
}

#[test]
fn apply_replaces_one_field() {
    let mut d = IdentityData::dummy();
    Modification::Region(Region::Europe).apply(&mut d);
    assert_eq!(d.region, Region::Europe);
    Modification::Name("nick".to_string()).apply(&mut d);
    assert_eq!(d.name, "nick");
    assert_eq!(d.region, Region::Europe);
    assert_eq!(d.socials, "");
}

#[test]
fn identity_round_trip() {
    let d = IdentityData {
        name: "Ünïcode name".to_string(),
        socials: "https://example.org/me".to_string(),
        keywords: texts(&["rust", "", "verification", "日本"]),
        region: Region::LatAm,
    };
    let bytes = encode_identity(&d);
    let back = decode_identity(&bytes).unwrap();
    assert!(same(&d, &back));
}

#[test]
fn identity_encoding_exact_bytes() {
    let d = IdentityData {
        name: "ab".to_string(),
        socials: "".to_string(),
        keywords: texts(&["k"]),
        region: Region::Europe,
    };
    assert_eq!(encode_identity(&d), vec![8, b'a', b'b', 0, 4, 4, b'k', 1]);
}

#[test]
fn long_keyword_list_uses_two_byte_count() {
    let keywords: Vec<String> = (0..64).map(|_| String::new()).collect();
    let d = IdentityData {
        name: String::new(),
        socials: String::new(),
        keywords,
        region: Region::Earth,
    };
    let bytes = encode_identity(&d);
    let mut expected = vec![0u8, 0, 0x01, 0x01];
    expected.extend(std::iter::repeat(0u8).take(64));
    expected.push(0);
    assert_eq!(bytes, expected);
    assert_eq!(decode_identity(&bytes).unwrap().keywords.len(), 64);
}

#[test]
fn command_encoding_exact_bytes() {
    let c = Command::Update(vec![
        Modification::Name("x".to_string()),
        Modification::Region(Region::LatAm),
        Modification::Keywords(texts(&["a"])),
        Modification::Socials("s".to_string()),
    ]);
    assert_eq!(
        encode_command(&c),
        vec![1, 16, 0, 4, b'x', 3, 2, 2, 4, 4, b'a', 1, 4, b's']
    );
    assert_eq!(encode_command(&Command::Get), vec![0]);
}

#[test]
fn command_decoding_ignores_trailing_bytes() {
    match decode_command(&[0, 7, 7]) {
        Some(Command::Get) => {}
        _ => panic!("expected Get"),
    }
    match decode_command(&[1, 4, 3, 1, 9]) {
        Some(Command::Update(ms)) => {
            assert_eq!(ms.len(), 1);
            assert!(matches!(ms[0], Modification::Region(Region::Europe)));
        }
        _ => panic!("expected Update"),
    }
}

#[test]
fn get_is_repeatable() {
    let mut p = program();
    let first = p.handle(&[0u8]).unwrap().unwrap();
    let second = p.handle(&[0u8]).unwrap().unwrap();
    assert_eq!(first, second);
}

#[test]
fn malformed_payloads_are_rejected_without_change() {
    let malformed: Vec<Vec<u8>> = vec![
        vec![],
        vec![2],
        vec![1],
        vec![1, 4, 9],
        vec![1, 4, 0, 8, b'a'],
        vec![1, 4, 0, 8, 0xff, 0xfe],
        vec![1, 4, 3, 3],
        vec![1, 8, 3, 1],
        vec![1, 0x01, 0x00],
    ];
    let mut p = program();
    update(&mut p, vec![Modification::Keywords(texts(&["keep"]))]);
    let before = get(&mut p);
    for payload in malformed {
        assert_eq!(p.handle(&payload), Err(HandleError::Decode), "{:?}", payload);
        assert!(same(&get(&mut p), &before));
    }
}

#[test]
fn identity_decoding_rejects_bad_region() {
    assert!(decode_identity(&[0, 0, 0, 3]).is_none());
    assert!(decode_identity(&[0, 0, 0]).is_none());
    assert!(decode_identity(&[0, 0, 0, 2]).is_some());
}
