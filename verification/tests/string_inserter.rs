use inserter::string_inserter::{Error, StringInserter};
use std::io::ErrorKind;

#[test]
fn string_inserter_insert_one_at_beginning() {
    let origin = "fghij";
    let insertion = "abcde";

    let out = StringInserter::new(origin)
        .insert(0, insertion)
        .execute()
        .unwrap();

    assert_eq!("abcdefghij", &out);
}

#[test]
fn string_inserter_insert_one_at_end() {
    let origin = "abcde";
    let insertion = "fghij";

    let out = StringInserter::new(origin)
        .insert(origin.len(), insertion)
        .execute()
        .unwrap();

    assert_eq!("abcdefghij", &out);
}

#[test]
fn string_inserter_insert_one_past_end() {
    let origin = "abcde";
    let insertion = "klmno";

    let out = StringInserter::new(origin)
        .insert(origin.len() * 2, insertion)
        .execute()
        .unwrap();

    assert_eq!("abcdeklmno", &out);
}

#[test]
fn interleave() {
    let origin = "alpha bravo delta hotel";
    let out = StringInserter::new(origin)
        .insert(12, "charlie ")
        .insert(18, "echo fox golf ")
        .execute()
        .unwrap();

    assert_eq!("alpha bravo charlie delta echo fox golf hotel", &out);
}

#[test]
fn text_with_nothing_to_insert_is_given_back() {
    let out = StringInserter::new("grüße, мир").execute().unwrap();

    assert_eq!("grüße, мир", &out);
}

#[test]
fn strings_at_one_offset_keep_the_order_of_registration() {
    let out = StringInserter::new("XZ").insert(1, "A").insert(1, "B").execute().unwrap();

    assert_eq!("XABZ", &out);
}

#[test]
fn strings_are_emitted_in_ascending_order_of_offset() {
    let out = StringInserter::new("alpha bravo delta hotel")
        .insert(18, "echo fox golf ")
        .insert(12, "charlie ")
        .execute()
        .unwrap();

    assert_eq!("alpha bravo charlie delta echo fox golf hotel", &out);
}

#[test]
fn offsets_count_bytes() {
    // 'é' takes two bytes: the place behind it is byte 2
    let out = StringInserter::new("éa").insert(2, "ß").insert(3, "!").execute().unwrap();

    assert_eq!("éßa!", &out);
    assert_eq!(6, out.len());
}

#[test]
fn a_string_put_inside_a_character_gives_no_text() {
    let result = StringInserter::new("é").insert(1, "x").execute();

    match result {
        Err(Error::Utf8Error(e)) => {
            assert_eq!(vec![0xc3, b'x', 0xa9], e.into_bytes());
        }
        _ => panic!("the spliced bytes were taken for text"),
    }
}

#[test]
fn a_string_put_between_characters_gives_text() {
    let origin = "日本語";
    for at in [0, 3, 6, 9, 10, 100] {
        let out = StringInserter::new(origin).insert(at, "·").execute().unwrap();
        let cut = at.min(origin.len());
        assert_eq!(format!("{}·{}", &origin[..cut], &origin[cut..]), out);
        assert_eq!(origin.len() + 2, out.len());
    }
    for at in [1, 2, 4, 5, 7, 8] {
        assert!(matches!(
            StringInserter::new(origin).insert(at, "·").execute(),
            Err(Error::Utf8Error(_))
        ));
    }
}

#[test]
fn errors_are_made_from_their_causes() {
    let io = std::io::Error::new(ErrorKind::UnexpectedEof, "cut short");
    match Error::from(io) {
        Error::IoError(e) => assert_eq!(ErrorKind::UnexpectedEof, e.kind()),
        _ => panic!("an input/output error became another error"),
    }
    let utf8 = String::from_utf8(vec![0xff]).unwrap_err();
    match Error::from(utf8) {
        Error::Utf8Error(e) => assert_eq!(vec![0xff], e.into_bytes()),
        _ => panic!("a text error became another error"),
    }
    let shown = format!("{:?}", Error::from(String::from_utf8(vec![0xff]).unwrap_err()));
    assert!(shown.starts_with("Utf8Error"));
}
