use magic_string::error::Error;
use magic_string::MagicString;

#[test]
fn magic_string_test_basic() -> Result<(), Error> {
    //                   01234567890
    let content = "Hello World";
    let mut buffer = MagicString::new(&content);

    buffer.append_right(6, "Beautiful ")?;
    assert_eq!(&buffer.to_string()?, "Hello Beautiful World");

    buffer.append_right(6, "Great ")?;
    assert_eq!(&buffer.to_string()?, "Hello Beautiful Great World");

    buffer.append_right(0, "1 ")?;
    assert_eq!(&buffer.to_string()?, "1 Hello Beautiful Great World");

    buffer.append_right(5, "2 ")?;
    assert_eq!(&buffer.to_string()?, "1 Hello2  Beautiful Great World");

    buffer.append_right(8, "3 ")?;
    assert_eq!(&buffer.to_string()?, "1 Hello2  Beautiful Great Wo3 rld");

    buffer.append_right(0, "4 ")?;
    assert_eq!(&buffer.to_string()?, "1 4 Hello2  Beautiful Great Wo3 rld");

    buffer.append_right(8, "5 ")?;
    assert_eq!(
        &buffer.to_string()?,
        "1 4 Hello2  Beautiful Great Wo3 5 rld"
    );

    buffer.append_right(1, "a ")?;
    assert_eq!(
        &buffer.to_string()?,
        "1 4 Ha ello2  Beautiful Great Wo3 5 rld"
    );

    buffer.append_right(2, "b ")?;
    assert_eq!(
        &buffer.to_string()?,
        "1 4 Ha eb llo2  Beautiful Great Wo3 5 rld"
    );

    buffer.append_right(7, "c ")?;
    assert_eq!(
        &buffer.to_string()?,
        "1 4 Ha eb llo2  Beautiful Great Wc o3 5 rld"
    );

    buffer.append_right(10, "d 6")?;
    assert_eq!(
        &buffer.to_string()?,
        "1 4 Ha eb llo2  Beautiful Great Wc o3 5 rld 6d"
    );

    // Offset 10 lies before the last byte of the content; its end is offset 11.
    buffer.append_right(11, "d 6")?;
    assert_eq!(
        &buffer.to_string()?,
        "1 4 Ha eb llo2  Beautiful Great Wc o3 5 rld 6dd 6"
    );

    Ok(())
}

#[test]
fn magic_string_example() -> Result<(), Error> {
    let mut s = MagicString::new("problems = 99");

    s.overwrite(0, 8, "answer")?;
    s.overwrite(11, 13, "42")?;
    s.prepend("var ")?;
    s.append(";")?;
    assert_eq!(&s.to_string()?, "var answer = 42;");

    Ok(())
}

#[test]
fn fresh_text_renders_the_original() {
    let s = MagicString::new("naïve — 文字");
    assert_eq!(s.to_string(), Ok(String::from("naïve — 文字")));
    assert_eq!(s.len(), "naïve — 文字".len());
    let empty = MagicString::new("");
    assert_eq!(empty.to_string(), Ok(String::new()));
    assert_eq!(empty.len(), 0);
}

#[test]
fn hello_world_scenario() -> Result<(), Error> {
    let mut s = MagicString::new("Hello World");
    s.append_right(6, "Beautiful ")?;
    assert_eq!(s.to_string()?, "Hello Beautiful World");
    s.append_right(6, "Great ")?;
    assert_eq!(s.to_string()?, "Hello Beautiful Great World");
    Ok(())
}

#[test]
fn the_four_insertions_at_one_boundary() -> Result<(), Error> {
    let mut s = MagicString::new("ab");
    s.append_left(1, "1")?;
    s.append_right(1, "2")?;
    s.prepend_left(1, "3")?;
    s.prepend_right(1, "4")?;
    assert_eq!(s.to_string()?, "a3142b");
    s.append_left(1, "5")?;
    s.append_right(1, "6")?;
    s.prepend_left(1, "7")?;
    s.prepend_right(1, "8")?;
    assert_eq!(s.to_string()?, "a73158426b");
    assert_eq!(s.len(), 10);
    Ok(())
}

#[test]
fn append_goes_to_the_end_of_the_original_whatever_the_length() -> Result<(), Error> {
    let mut s = MagicString::new("abc");
    s.append_left(1, "-----")?;
    assert_eq!(s.len(), 8);
    s.append("!")?;
    assert_eq!(s.to_string()?, "a-----bc!");
    s.remove(0, 3)?;
    assert_eq!(s.len(), 1);
    s.append("?")?;
    assert_eq!(s.to_string()?, "!?");
    assert_eq!(s.len(), 2);
    Ok(())
}

#[test]
fn prepend_and_append_go_to_the_outside() -> Result<(), Error> {
    let mut s = MagicString::new("x");
    s.append_left(0, "a")?;
    s.append_right(1, "b")?;
    s.prepend("1")?;
    s.append("2")?;
    s.prepend("3")?;
    s.append("4")?;
    assert_eq!(s.to_string()?, "31axb24");
    Ok(())
}

#[test]
fn text_insertion_out_of_bounds() {
    let mut s = MagicString::new("abc");
    assert_eq!(s.append_left(4, "x"), Err(Error::IndexOutOfBoundError(4)));
    assert_eq!(s.prepend_left(5, "x"), Err(Error::IndexOutOfBoundError(5)));
    assert_eq!(s.append_right(6, "x"), Err(Error::IndexOutOfBoundError(6)));
    assert_eq!(s.prepend_right(7, "x"), Err(Error::IndexOutOfBoundError(7)));
    assert_eq!(s.to_string(), Ok(String::from("abc")));
}

#[test]
fn remove_from_text() -> Result<(), Error> {
    let mut s = MagicString::new("Hello World");
    s.remove(5, 11)?;
    assert_eq!(s.to_string()?, "Hello");
    s.remove(0, 1)?;
    assert_eq!(s.to_string()?, "ello");
    assert_eq!(s.len(), 4);
    Ok(())
}

#[test]
fn remove_from_text_out_of_bounds() {
    let mut s = MagicString::new("abc");
    assert_eq!(s.remove(4, 5), Err(Error::IndexOutOfBoundError(4)));
    assert_eq!(s.remove(1, 5), Err(Error::IndexOutOfBoundError(5)));
    assert_eq!(s.overwrite(4, 5, "x"), Err(Error::IndexOutOfBoundError(4)));
    assert_eq!(s.overwrite(1, 5, "x"), Err(Error::IndexOutOfBoundError(5)));
    assert_eq!(s.to_string(), Ok(String::from("abc")));
}

#[test]
fn overwrite_replaces_the_range() -> Result<(), Error> {
    let mut s = MagicString::new("0123456789");
    s.overwrite(3, 7, "abc")?;
    assert_eq!(s.to_string()?, "012abc789");
    s.overwrite(0, 1, "")?;
    assert_eq!(s.to_string()?, "12abc789");
    s.overwrite(9, 10, "the end")?;
    assert_eq!(s.to_string()?, "12abc78the end");
    Ok(())
}

#[test]
fn overwrite_of_an_empty_range_inserts() -> Result<(), Error> {
    let mut s = MagicString::new("0123");
    s.overwrite(2, 2, "x")?;
    assert_eq!(s.to_string()?, "01x23");
    Ok(())
}

#[test]
fn overwrite_of_everything() -> Result<(), Error> {
    let mut s = MagicString::new("0123");
    s.overwrite(0, 4, "new")?;
    assert_eq!(s.to_string()?, "new");
    Ok(())
}

#[test]
fn cut_inside_a_character_is_no_text() -> Result<(), Error> {
    let mut s = MagicString::new("é!");
    assert_eq!(s.len(), 3);
    s.remove(0, 1)?;
    assert_eq!(s.to_string(), Err(Error::InvalidInternalState));
    s.remove(1, 2)?;
    assert_eq!(s.to_string(), Ok(String::from("!")));
    Ok(())
}

#[test]
fn insertion_inside_a_character_is_no_text() -> Result<(), Error> {
    let mut s = MagicString::new("é");
    s.append_left(1, "x")?;
    assert_eq!(s.to_string(), Err(Error::InvalidInternalState));
    Ok(())
}

#[test]
fn text_with_wide_characters() -> Result<(), Error> {
    let mut s = MagicString::new("a文b");
    assert_eq!(s.len(), 5);
    s.append_left(1, "é")?;
    s.append_right(4, "ß")?;
    assert_eq!(s.to_string()?, "aé文ßb");
    s.overwrite(1, 4, "字")?;
    assert_eq!(s.to_string()?, "aé字ßb");
    Ok(())
}

#[test]
fn edits_between_characters_keep_the_text_a_text() -> Result<(), Error> {
    let content = "añ文🙂z";
    let mut boundaries = Vec::new();
    for i in 0..=content.len() {
        if content.is_char_boundary(i) {
            boundaries.push(i);
        }
    }
    assert_eq!(boundaries, vec![0, 1, 3, 6, 10, 11]);
    for &a in boundaries.iter() {
        for &b in boundaries.iter() {
            let mut s = MagicString::new(content);
            s.append_left(a, "é")?;
            s.prepend_right(b, "ß")?;
            s.overwrite(a, b, "字")?;
            s.prepend("«")?;
            s.append("»")?;
            assert!(s.to_string().is_ok());
        }
    }
    Ok(())
}
