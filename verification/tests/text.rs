use librarian::text::{chars_of, join, pad_decimal, read_decimal, same_text, split, text_before};

fn strings(parts: &[&str]) -> Vec<String> {
    parts.iter().map(|p| String::from(*p)).collect()
}

#[test]
fn split_cuts_at_every_separator() {
    assert_eq!(split("a/b", '/'), strings(&["a", "b"]));
    assert_eq!(split("", '/'), strings(&[""]));
    assert_eq!(split("/", '/'), strings(&["", ""]));
    assert_eq!(split("a//b/", '/'), strings(&["a", "", "b", ""]));
    assert_eq!(split("no separator", '/'), strings(&["no separator"]));
    assert_eq!(split("é é", ' '), strings(&["é", "é"]));
}

#[test]
fn join_puts_the_separator_between() {
    assert_eq!(join(&strings(&[]), ", "), "");
    assert_eq!(join(&strings(&["a"]), ", "), "a");
    assert_eq!(join(&strings(&["a", "b", "c"]), ", "), "a, b, c");
    assert_eq!(join(&strings(&["", ""]), "-"), "-");
}

#[test]
fn join_undoes_split() {
    for text in ["", "a", "a b", " a  b ", "  "] {
        assert_eq!(join(&split(text, ' '), " "), text);
    }
}

#[test]
fn text_order_is_that_of_strings() {
    let texts = ["", "a", "A", "ab", "b", "aa", "é", "z", "Z", "a b", "a.txt", "a/b"];
    for a in texts {
        for b in texts {
            assert_eq!(text_before(a, b), a < b, "{:?} {:?}", a, b);
            assert_eq!(same_text(a, b), a == b);
        }
    }
}

#[test]
fn characters_come_out_in_order() {
    assert_eq!(chars_of("héllo"), vec!['h', 'é', 'l', 'l', 'o']);
    assert_eq!(chars_of(""), Vec::<char>::new());
}

#[test]
fn decimal_is_read_as_an_i32_is() {
    assert_eq!(read_decimal(b"1999", 0, 4), Some(1999));
    assert_eq!(read_decimal(b"0007", 0, 4), Some(7));
    assert_eq!(read_decimal(b"+12", 0, 3), Some(12));
    assert_eq!(read_decimal(b"-12", 0, 3), Some(-12));
    assert_eq!(read_decimal(b"-0", 0, 2), Some(0));
    assert_eq!(read_decimal(b"xx12yy", 2, 4), Some(12));
    assert_eq!(read_decimal(b"12", 1, 1), None);
    assert_eq!(read_decimal(b"+", 0, 1), None);
    assert_eq!(read_decimal(b"-", 0, 1), None);
    assert_eq!(read_decimal(b"1 2", 0, 3), None);
    assert_eq!(read_decimal(b" 12", 0, 3), None);
    assert_eq!(read_decimal(b"1+2", 0, 3), None);
    assert_eq!(read_decimal(b"12a", 0, 3), None);
    assert_eq!(read_decimal(b"999999999", 0, 9), Some(999999999));
    for text in ["12", "+7", "-3", "0x1", "", "--1", "007"] {
        let want = i32::from_str_radix(text, 10).ok();
        assert_eq!(read_decimal(text.as_bytes(), 0, text.len()), want);
    }
}

#[test]
fn decimal_is_padded_after_the_sign() {
    assert_eq!(pad_decimal(0, 0), "0");
    assert_eq!(pad_decimal(0, 1), "0");
    assert_eq!(pad_decimal(0, 3), "000");
    assert_eq!(pad_decimal(42, 4), "0042");
    assert_eq!(pad_decimal(-42, 4), "-042");
    assert_eq!(pad_decimal(-42, 3), "-42");
    assert_eq!(pad_decimal(-42, 1), "-42");
    assert_eq!(pad_decimal(12345, 2), "12345");
    assert_eq!(pad_decimal(i32::MAX, 4), "2147483647");
    assert_eq!(pad_decimal(i32::MIN, 12), "-02147483648");
    for v in [0, 5, -5, 10, 99, 100, -100, 1999] {
        assert_eq!(pad_decimal(v, 4), format!("{:04}", v));
        assert_eq!(pad_decimal(v, 2), format!("{:02}", v));
    }
}
