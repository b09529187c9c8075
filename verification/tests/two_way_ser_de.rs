use muesli::{serialize, session_decode, session_encode, unserialize};

#[test]
fn base_serialize_case() {
    let data = br#"a:9:{i:0;i:12;i:1;s:2:"ok";i:2;N;i:3;d:NAN;s:3:"foo";s:3:"bar";s:6:"inside";a:6:{i:0;s:1:"i";i:1;s:1:"n";i:2;s:1:"s";i:3;s:1:"i";i:4;s:1:"d";i:5;s:1:"e";}i:4;d:3.1416;i:5;b:1;i:6;b:0;}"#.as_slice();

    let mut buffer = Vec::new();
    serialize(&mut buffer, &unserialize(data).unwrap());

    assert_eq!(buffer, data);
}

#[test]
fn base_session_case() {
    let data = br#"foo|a:4:{i:0;i:1;i:1;i:2;i:2;i:3;i:3;i:4;}bar|s:22:"complicated string "|!";baz|d:NAN;qux|b:1;"#.as_slice();

    let mut buffer = Vec::new();
    session_encode(&mut buffer, &session_decode(data).unwrap());

    assert_eq!(buffer, data);
}

#[test]
fn large_generated_session_round_trips() {
    let mut data = Vec::new();
    for entry in 0..2000 {
        data.extend_from_slice(format!("key{entry}|").as_bytes());
        match entry % 4 {
            0 => data.extend_from_slice(format!("i:{};", entry as i64 * 7919 - 5_000_000).as_bytes()),
            1 => {
                let text = "x".repeat(entry % 97);
                data.extend_from_slice(format!("s:{}:\"{text}\";", text.len()).as_bytes());
            }
            2 => {
                data.extend_from_slice(format!("a:{}:{{", entry % 5).as_bytes());
                for item in 0..entry % 5 {
                    data.extend_from_slice(format!("i:{item};d:{item}.5;").as_bytes());
                }
                data.push(b'}');
            }
            _ => data.extend_from_slice(
                format!("O:1:\"C\":1:{{s:{}:\"\0C\0p{entry}\";b:1;}}", 4 + entry.to_string().len())
                    .as_bytes(),
            ),
        }
    }

    let session = session_decode(&data).unwrap();
    assert_eq!(session.len(), 2000);
    let mut buffer = Vec::new();
    assert_eq!(session_encode(&mut buffer, &session), data.len());
    assert_eq!(buffer, data);
}
