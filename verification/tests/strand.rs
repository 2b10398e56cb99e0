use squab::strand::Strand;

#[test]
fn test_default() {
    assert_eq!(Strand::default(), Strand::Irrelevant);
}

#[test]
fn test_display() {
    assert_eq!(format!("{}", Strand::Forward.symbol()), "+");
    assert_eq!(format!("{}", Strand::Reverse.symbol()), "-");
    assert_eq!(format!("{}", Strand::Unknown.symbol()), "?");
    assert_eq!(format!("{}", Strand::Irrelevant.symbol()), ".");
}

#[test]
fn test_from_str() {
    assert_eq!("+".parse(), Ok(Strand::Forward));
    assert_eq!("-".parse(), Ok(Strand::Reverse));
    assert_eq!("?".parse(), Ok(Strand::Unknown));
    assert_eq!(".".parse(), Ok(Strand::Irrelevant));

    assert!("!".parse::<Strand>().is_err());
}

#[test]
fn test_parse_display_round_trip() {
    for strand in [
        Strand::Forward,
        Strand::Reverse,
        Strand::Unknown,
        Strand::Irrelevant,
    ] {
        let token = format!("{}", strand.symbol());
        assert_eq!(token.parse(), Ok(strand));
    }
}

#[test]
fn test_parse_rejects_long_tokens() {
    assert!(Strand::parse("++").is_err());
    assert!(Strand::parse("").is_err());
}
