use mosaic::strings::{split_str_into_parts, string_from_parts, string_parts};

#[test]
fn short_strings_are_one_part() {
    assert_eq!(string_parts("hello"), vec!["hello".to_string()]);
    assert_eq!(string_parts(""), Vec::<String>::new());
}

#[test]
fn long_strings_are_cut_every_part_size_bytes() {
    let s: String = (0..300).map(|i| char::from(b'a' + (i % 26) as u8)).collect();
    let parts = string_parts(&s);
    assert_eq!(parts.len(), 3);
    assert_eq!(parts[0].len(), 128);
    assert_eq!(parts[1].len(), 128);
    assert_eq!(parts[2].len(), 44);
    assert_eq!(parts.concat(), s);
}

#[test]
fn parts_start_at_every_nth_char_and_hold_n_bytes() {
    assert_eq!(split_str_into_parts("abcdefg", 3), vec!["abc", "def", "g"]);
    assert_eq!(split_str_into_parts("éa", 2), vec!["é"]);
    assert_eq!(split_str_into_parts("aébc", 3), vec!["aé", "c"]);
}

#[test]
fn parts_join_back_into_the_string() {
    let s: String = (0..260).map(|i| char::from(b'A' + (i % 26) as u8)).collect();
    let bytes: Vec<Vec<u8>> = string_parts(&s).iter().map(|p| p.as_bytes().to_vec()).collect();
    assert_eq!(string_from_parts(&bytes), s);
}

#[test]
fn invalid_bytes_are_replaced_when_joined() {
    let parts = vec![vec![b'o', b'k'], vec![0xff], vec![b'!']];
    assert_eq!(string_from_parts(&parts), "ok\u{fffd}!");
    assert_eq!(string_from_parts(&vec![]), "");
}

#[test]
fn a_short_string_comes_back_whole_whatever_its_chars() {
    let s = "héllo wörld ✓";
    let parts = string_parts(s);
    assert_eq!(parts, vec![s.to_string()]);
    let bytes: Vec<Vec<u8>> = parts.iter().map(|p| p.as_bytes().to_vec()).collect();
    assert_eq!(string_from_parts(&bytes), s);
}
