use blocky::{FloatText, Nbt, ParseError, Parser, PrintError, Tag};

struct StdFloats;

impl FloatText for StdFloats {
    fn parse_float(&self, text: &str) -> Option<u32> {
        text.parse::<f32>().ok().map(|f| f.to_bits())
    }

    fn parse_double(&self, text: &str) -> Option<u64> {
        text.parse::<f64>().ok().map(|f| f.to_bits())
    }

    fn show_float(&self, bits: u32) -> String {
        format!("{}", f32::from_bits(bits))
    }

    fn show_double(&self, bits: u64) -> String {
        format!("{}", f64::from_bits(bits))
    }
}

fn parse(s: &str) -> Result<Tag, ParseError> {
    Nbt::parse(s, &StdFloats)
}

fn text(t: &Tag) -> String {
    t.to_snbt(&StdFloats).unwrap()
}

#[test]
fn list_homogeneity() {
    assert_eq!(parse("[1,2.0]").unwrap_err(), ParseError::MixedTypes);
    let t = parse("[1,2,3]").unwrap();
    match &t {
        Tag::List(v) => {
            assert_eq!(v.len(), 3);
            assert!(v.iter().all(|x| matches!(x, Tag::Int(_))));
        },
        _ => panic!("not a list"),
    }
    let t = parse("[]").unwrap();
    assert!(matches!(t, Tag::List(ref v) if v.is_empty()));
}

#[test]
fn typed_arrays() {
    assert!(matches!(parse("[B;8b,2b]").unwrap(), Tag::ByteArray(ref v) if v == &vec![8, 2]));
    assert!(matches!(parse("[I;1,2,3]").unwrap(), Tag::IntArray(ref v) if v == &vec![1, 2, 3]));
    assert!(matches!(parse("[L;1L,-2L]").unwrap(), Tag::LongArray(ref v) if v == &vec![1, -2]));
    assert_eq!(parse("[I;1,2b]").unwrap_err(), ParseError::MixedTags);
    assert_eq!(parse("[X;1]").unwrap_err(), ParseError::UnknownArrayType);
}

#[test]
fn string_quoting() {
    let t = Tag::String("\"\"\\'this is a test!".to_string());
    assert_eq!(text(&t), "'\"\"\\\\\\'this is a test!'");
    assert_eq!(text(&Tag::String("plain".to_string())), "\"plain\"");
    assert_eq!(text(&Tag::String("it's".to_string())), "\"it's\"");
    let back = parse(&text(&t)).unwrap();
    assert!(matches!(back, Tag::String(ref s) if s == "\"\"\\'this is a test!"));
}

#[test]
fn scalar_literal_inference() {
    assert!(matches!(parse("5l").unwrap(), Tag::Long(5)));
    assert!(matches!(parse("5L").unwrap(), Tag::Long(5)));
    assert!(matches!(parse("1.5f").unwrap(), Tag::Float(b) if b == 1.5f32.to_bits()));
    assert!(matches!(parse("true").unwrap(), Tag::Byte(1)));
    assert!(matches!(parse("false").unwrap(), Tag::Byte(0)));
    assert!(matches!(parse("TRUE").unwrap(), Tag::Byte(1)));
    assert!(matches!(parse("12x").unwrap(), Tag::String(ref s) if s == "12x"));
    assert!(matches!(parse("7s").unwrap(), Tag::Short(7)));
    assert!(matches!(parse("-8b").unwrap(), Tag::Byte(-8)));
    assert!(matches!(parse("+42").unwrap(), Tag::Int(42)));
    assert!(matches!(parse("2.5").unwrap(), Tag::Double(b) if b == 2.5f64.to_bits()));
    assert!(matches!(parse("3d").unwrap(), Tag::Double(b) if b == 3.0f64.to_bits()));
    assert!(matches!(parse("1e3f").unwrap(), Tag::Float(b) if b == 1000.0f32.to_bits()));
    assert!(matches!(parse(".5").unwrap(), Tag::Double(b) if b == 0.5f64.to_bits()));
    assert!(matches!(parse("300b").unwrap(), Tag::String(ref s) if s == "300b"));
    assert!(matches!(parse("07").unwrap(), Tag::String(ref s) if s == "07"));
    assert!(matches!(parse("2147483648").unwrap(), Tag::String(_)));
    assert!(matches!(parse("-9223372036854775808L").unwrap(), Tag::Long(i64::MIN)));
}

#[test]
fn parse_errors() {
    assert_eq!(parse("").unwrap_err(), ParseError::MissingValue);
    assert_eq!(parse("{:1}").unwrap_err(), ParseError::MissingKey);
    assert_eq!(parse("{a 1}").unwrap_err(), ParseError::Unexpected { expected: ':', found: '1' });
    assert_eq!(parse("\"abc").unwrap_err(), ParseError::UnterminatedString);
    assert_eq!(parse("\"a\\bc\"").unwrap_err(), ParseError::InvalidEscape);
    assert_eq!(parse("[1,").unwrap_err(), ParseError::ExpectedClosure);
    assert_eq!(parse("{a:1").unwrap_err(), ParseError::Insufficient);
}

#[test]
fn compound_text() {
    let t = parse(" { b : 1 , \"a b\" : [ 2s , 3s ] , c:{} } ").unwrap();
    assert_eq!(text(&t), "{b:1,\"a b\":[2s,3s],c:{}}");
    let t = parse("{x:1,x:2,y:3}").unwrap();
    assert_eq!(text(&t), "{x:2,y:3}");
}

#[test]
fn printing_forms() {
    assert_eq!(text(&Tag::Byte(-1)), "-1b");
    assert_eq!(text(&Tag::Short(300)), "300s");
    assert_eq!(text(&Tag::Int(0)), "0");
    assert_eq!(text(&Tag::Long(i64::MIN)), "-9223372036854775808L");
    assert_eq!(text(&Tag::Float(1.5f32.to_bits())), "1.5f");
    assert_eq!(text(&Tag::Double(2.25f64.to_bits())), "2.25d");
    assert_eq!(text(&Tag::ByteArray(vec![1, -2])), "[B;1b,-2b]");
    assert_eq!(text(&Tag::IntArray(vec![])), "[I;]");
    assert_eq!(text(&Tag::LongArray(vec![5])), "[L;5L]");
    assert_eq!(Tag::End.to_snbt(&StdFloats), Err(PrintError::End));
    assert_eq!(Tag::List(vec![Tag::End]).to_snbt(&StdFloats), Err(PrintError::End));
}

#[test]
fn text_round_trip() {
    let source = "{a:1b,b:-2s,c:3,d:4L,e:\"x'y\",f:[[1],[2]],g:{h:[]},i:0.5f,j:0.25d}";
    let t = parse(source).unwrap();
    let printed = text(&t);
    let again = parse(&printed).unwrap();
    assert_eq!(text(&again), printed);
}

#[test]
fn parser_reads_one_value() {
    let mut p = Parser::new("  42 rest");
    assert!(matches!(p.read_value(&StdFloats).unwrap(), Tag::Int(42)));
    assert!(matches!(Parser::parse_type("9", &StdFloats), Tag::Int(9)));
}

#[test]
fn scalar_text_round_trip() {
    for t in [
        Tag::Byte(-128),
        Tag::Byte(127),
        Tag::Short(-32768),
        Tag::Int(2147483647),
        Tag::Int(-2147483648),
        Tag::Long(i64::MAX),
        Tag::String("a \"quoted\" 'text' \\ here".to_string()),
        Tag::String(String::new()),
    ] {
        assert_eq!(parse(&text(&t)).unwrap(), t);
    }
}

#[test]
fn tree_text_round_trip() {
    let t = Tag::Compound(vec![
        ("b".to_string(), Tag::List(vec![Tag::Short(1), Tag::Short(2)])),
        ("with space".to_string(), Tag::Compound(vec![("x".to_string(), Tag::Long(-5))])),
        ("f".to_string(), Tag::Float(0.1f32.to_bits())),
        ("d".to_string(), Tag::Double(1e300f64.to_bits())),
    ]);
    assert_eq!(parse(&text(&t)).unwrap(), t);
}
