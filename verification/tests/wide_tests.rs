use os_str_pattern::wide::Buf;

#[test]
fn wide_round_trip() {
    let b = Buf::from_string("hello".to_string());
    assert_eq!(b.len(), 5);
    match b.into_string() {
        Ok(s) => assert_eq!(s, "hello"),
        Err(_) => panic!("valid text must convert"),
    }
}

#[test]
fn wide_push_concatenates() {
    let mut b = Buf::from_string("he".to_string());
    let tail = Buf::from_string("llo".to_string());
    b.push_slice(&tail);
    assert_eq!(b.len(), 5);
    match b.into_string() {
        Ok(s) => assert_eq!(s, "hello"),
        Err(_) => panic!("valid text must convert"),
    }
}

#[test]
fn wide_multibyte_text() {
    let text = "a\u{e9} \u{1f4a9}";
    let b = Buf::from_string(text.to_string());
    assert_eq!(b.len(), text.len());
    match b.into_string() {
        Ok(s) => assert_eq!(s, text),
        Err(_) => panic!("valid text must convert"),
    }
}
