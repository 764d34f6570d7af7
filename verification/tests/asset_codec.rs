use antelope::Asset;
use antelope::ParseError;
use antelope::Symbol;

#[test]
fn test_to_string() {
    assert_eq!(Asset::from_amount(-1000001, Symbol::from("4,SYM")).to_string(), "-100.0001 SYM");
    assert_eq!(Asset::from_amount(10000, Symbol::from("4,SYM")).to_string(), "1.0000 SYM");
    assert_eq!(Asset::from_amount(0, Symbol::from("4,SYM")).to_string(), "0.0000 SYM");
    assert_eq!(Asset::from_amount(12345, Symbol::from("2,SYM")).to_string(), "123.45 SYM");
    assert_eq!(Asset::from_amount(100, Symbol::from("0,SYM")).to_string(), "100 SYM");
    assert_eq!(Asset::from_amount(0, Symbol::from("0,SYM")).to_string(), "0 SYM");
    assert_eq!(Asset::from_amount(-100, Symbol::from("0,SYM")).to_string(), "-100 SYM");
    assert_eq!(
        Asset::from_amount(0, Symbol::from("18,SYMBOLL")).to_string(),
        "0.000000000000000000 SYMBOLL"
    );
    assert_eq!(
        Asset::from_amount(-1000000000000000000, Symbol::from("18,SYMBOLL")).to_string(),
        "-1.000000000000000000 SYMBOLL"
    );
}

#[test]
fn test_display() {
    println!("{}", Asset::from_amount(10000, Symbol::from("4,SYM")).to_string())
}

#[test]
fn test_from_str() {
    let same = |a: Asset, b: Asset| a.eq(&b).unwrap();
    assert!(same(
        Asset::from_amount(10000, Symbol::from("4,SYM")),
        Asset::from_str("1.0000 SYM").unwrap()
    ));
    assert!(same(
        Asset::from_amount(100, Symbol::from("0,SYM")),
        Asset::from_str("100 SYM").unwrap()
    ));
    assert!(same(
        Asset::from_amount(12345, Symbol::from("2,SYM")),
        Asset::from_str("123.45 SYM").unwrap()
    ));
    assert!(same(
        Asset::from_amount(-1000001, Symbol::from("4,SYM")),
        Asset::from_str("-100.0001 SYM").unwrap()
    ));
    assert!(same(
        Asset::from_amount(0, Symbol::from("0,SYM")),
        Asset::from_str("0 SYM").unwrap()
    ));
    assert!(same(
        Asset::from_amount(0, Symbol::from("4,SYM")),
        Asset::from_str("0.0000 SYM").unwrap()
    ));
    assert!(same(
        Asset::from_amount(1, Symbol::from("4,SYM")),
        Asset::from_str("0.0001 SYM").unwrap()
    ));
    assert!(same(
        Asset::from_amount(-1000000000000000000, Symbol::from("18,SYMBOLL")),
        Asset::from_str("-1.000000000000000000 SYMBOLL").unwrap()
    ));
    assert!(same(
        Asset::from_amount(10000000000001, Symbol::from("69,JIAYOUY")),
        Asset::from_str(
            "0.000000000000000000000000000000000000000000000000000000010000000000001 JIAYOUY"
        )
        .unwrap()
    ));
}

#[test]
fn test_from_str_failed() {
    assert!(matches!(Asset::from_str(""), Err(ParseError::BadFormat)));
    assert!(matches!(Asset::from_str("-"), Err(ParseError::BadFormat)));
    assert!(matches!(Asset::from_str("- EOS"), Err(ParseError::BadAmount(t)) if t == "-"));
    assert!(matches!(Asset::from_str("1s EOS"), Err(ParseError::BadAmount(t)) if t == "1s"));
    assert!(matches!(Asset::from_str("1\nEOS"), Err(ParseError::BadFormat)));
    assert!(matches!(Asset::from_str("- 100 EOS"), Err(ParseError::BadFormat)));
    assert!(matches!(Asset::from_str("-"), Err(ParseError::BadFormat)));
    assert!(matches!(Asset::from_str("1.0000"), Err(ParseError::BadFormat)));
    assert!(matches!(Asset::from_str("10000"), Err(ParseError::BadFormat)));
    assert!(matches!(
        Asset::from_str("10000 LONGSYMBOL"),
        Err(ParseError::BadSymbolCode(t)) if t == "LONGSYMBOL"
    ));
    assert!(matches!(
        Asset::from_str(
            "-0.0000000000000000000000000000000000000000000000000004371526177016610288 \\u0005"
        ),
        Err(ParseError::BadSymbolCode(t)) if t == "\\u0005"
    ));
}

#[test]
fn decode_infers_precision_and_amount() {
    let a = Asset::from_str("123.45 SYM").unwrap();
    assert_eq!(a.symbol.precision(), 2);
    assert_eq!(a.amount, 12345);
    let b = Asset::from_str("100 SYM").unwrap();
    assert_eq!(b.symbol.precision(), 0);
    assert_eq!(b.amount, 100);
    let c = Asset::from_str("0.0001 SYM").unwrap();
    assert_eq!(c.symbol.precision(), 4);
    assert_eq!(c.amount, 1);
}

#[test]
fn decode_of_encode_restores_the_asset() {
    let values = [
        Asset::from_amount(-1000001, Symbol::from("4,SYM")),
        Asset::from_amount(12345, Symbol::from("2,SYM")),
        Asset::from_amount(0, Symbol::from("0,SYM")),
        Asset::from_amount(100, Symbol::from("0,EOS")),
        Asset::from_amount(-1000000000000000000, Symbol::from("18,SYMBOLL")),
    ];
    for v in values {
        let back = Asset::from_str(&v.to_string()).unwrap();
        assert_eq!(back.amount, v.amount);
        assert_eq!(back.symbol, v.symbol);
    }
}

#[test]
fn decode_accepts_out_of_range_amounts() {
    let a = Asset::from_str("9223372036854775807 BIG").unwrap();
    assert_eq!(a.amount, i64::MAX);
    assert!(!a.is_amount_within_range());
    assert!(matches!(
        Asset::from_str("9223372036854775808 BIG"),
        Err(ParseError::BadAmount(t)) if t == "9223372036854775808"
    ));
    let b = Asset::from_str("-9223372036854775808 BIG").unwrap();
    assert_eq!(b.amount, i64::MIN);
}

#[test]
fn symbol_validity_follows_the_code() {
    assert!(Symbol::from("4,SYS").is_valid());
    assert!(Symbol::from("69,JIAYOUY").is_valid());
    assert!(!Symbol::new().is_valid());
    assert!(Asset::from_amount(1, Symbol::from("4,SYS")).is_valid());
    assert!(!Asset::from_amount(1, Symbol::new()).is_valid());
}

#[test]
fn symbol_accessors_expose_the_parts() {
    let sym = Symbol::from("4,SYS");
    assert_eq!(sym.precision(), 4);
    assert_eq!(sym.code().to_string(), "SYS");
    assert_eq!(sym, Symbol::from_precision(sym.code(), 4));
    assert_eq!(sym.raw() & 0xff, 4);
}
