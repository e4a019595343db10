use unix_tools::head::{parse_bytes, parse_lines, parse_number};

#[test]
fn test_parse_lines() {
    let res = parse_lines("3");
    assert!(res.is_ok());
    assert_eq!(res.unwrap(), 3);

    let res = parse_lines("foo");
    assert!(res.is_err());
    assert_eq!(
        res.unwrap_err().to_string(),
        format!("illegal line count -- {}", "foo")
    );

    let res = parse_lines("0");
    assert!(res.is_err());
    assert_eq!(
        res.unwrap_err().to_string(),
        format!("illegal line count -- {}", "0")
    );
}

#[test]
fn test_parse_bytes() {
    let res = parse_bytes("3");
    assert!(res.is_ok());
    assert_eq!(res.unwrap(), 3);

    let res = parse_bytes("foo");
    assert!(res.is_err());
    assert_eq!(
        res.unwrap_err().to_string(),
        format!("illegal byte count -- {}", "foo")
    );

    let res = parse_bytes("0");
    assert!(res.is_err());
    assert_eq!(
        res.unwrap_err().to_string(),
        format!("illegal byte count -- {}", "0")
    );
}

#[test]
fn parse_number_accepts_what_std_accepts() {
    for s in ["0", "7", "+12", "0042", "18446744073709551615", "", "+", "-1", " 1", "1 ", "1a", "++1", "18446744073709551616", "99999999999999999999999"] {
        assert_eq!(parse_number(s), s.parse::<usize>().ok(), "input {:?}", s);
    }
}

#[test]
fn parse_lines_multi_digit_and_plus() {
    assert_eq!(parse_lines("120"), Ok(120));
    assert_eq!(parse_lines("+4"), Ok(4));
    assert_eq!(parse_lines("-4"), Err("illegal line count -- -4".to_string()));
    assert_eq!(parse_bytes("").unwrap_err(), "illegal byte count -- ".to_string());
}
