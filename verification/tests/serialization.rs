use msdparser::parameter::{MSDParameter, MSDParameterError};
use msdparser::parse_msd;

fn parameter(components: &[&str]) -> MSDParameter {
    MSDParameter::new(components.iter().map(|c| c.to_string()).collect())
}

#[test]
fn a_component_is_escaped_character_by_character() {
    let cases = [
        ("", ""),
        ("plain text", "plain text"),
        ("\\", "\\\\"),
        (":", "\\:"),
        (";", "\\;"),
        ("/", "/"),
        ("//", "\\//"),
        ("///", "\\///"),
        ("////", "\\//\\//"),
        ("a/b", "a/b"),
        ("/:/", "/\\:/"),
        ("#", "#"),
        ("\\//", "\\\\\\//"),
        ("実:例", "実\\:例"),
    ];
    for (component, expected) in cases {
        assert_eq!(expected, MSDParameter::serialize_component(component, true).unwrap());
    }
}

#[test]
fn without_escapes_a_component_is_kept_or_refused() {
    for component in ["", "plain", "a/b", "back\\slash", "#", "/"] {
        assert_eq!(component, MSDParameter::serialize_component(component, false).unwrap());
    }
    for component in [":", ";", "//", "a:b", "a;b", "a//b", "/ //"] {
        match MSDParameter::serialize_component(component, false) {
            Err(MSDParameterError::SerializeError(message)) => {
                assert_eq!(format!("{} can't be serialized without escapes", component), message)
            }
            other => panic!("{:?}", other),
        }
    }
}

#[test]
fn a_parameter_is_written_after_what_the_writer_holds() {
    let mut writer = b"#A:B;\n".to_vec();
    parameter(&["C", "D", ""]).serialize(&mut writer, true).unwrap();
    assert_eq!(b"#A:B;\n#C:D:;".to_vec(), writer);

    let mut writer = Vec::new();
    parameter(&[]).serialize(&mut writer, false).unwrap();
    assert_eq!(b"#;".to_vec(), writer);

    let mut writer = Vec::new();
    parameter(&["実例"]).serialize(&mut writer, false).unwrap();
    assert_eq!("#実例;".as_bytes().to_vec(), writer);
}

#[test]
fn writing_stops_at_the_first_component_that_is_refused() {
    let mut writer = Vec::new();
    let result = parameter(&["key", "a:b", "c;d"]).serialize(&mut writer, false);
    assert_eq!(b"#key:".to_vec(), writer);
    match result {
        Err(MSDParameterError::SerializeError(message)) => {
            assert_eq!("a:b can't be serialized without escapes", message)
        }
        other => panic!("{:?}", other),
    }
    assert!(parameter(&["key", "a:b"]).to_string_with_escapes(false).is_err());
    assert_eq!("#key:a\\:b;", parameter(&["key", "a:b"]).to_string_with_escapes(true).unwrap());
}

#[test]
fn what_is_written_with_escapes_is_read_back() {
    let parameters = [
        parameter(&["key", "value"]),
        parameter(&["ABC:DEF;GHI//JKL\\MNO", "abc:def;ghi//jkl\\mno"]),
        parameter(&["", "", ""]),
        parameter(&["a#b", "c//d/e", "\\\\", "line\nbreak"]),
        parameter(&["実例", "楽士;"]),
    ];
    for parameter in parameters {
        let text = parameter.to_string();
        let mut parser = parse_msd(text.as_bytes(), true, false);
        assert_eq!(Some(Ok(parameter)), parser.next());
        assert_eq!(None, parser.next());
    }
}

#[test]
fn errors_are_described_in_words() {
    let error = MSDParameterError::from("x".to_string());
    assert_eq!("Serialize Error: x", error.to_string());
    assert!(matches!(error, MSDParameterError::SerializeError(_)));
    assert_eq!("IO Error: broken pipe", MSDParameterError::IoError("broken pipe".to_string()).to_string());
}
