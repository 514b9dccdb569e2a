use blocky::{DecodeError, EncodeError, FloatText, Kind, Nbt, ParseError, Segment, Tag, TagError};

struct StdFloats;

impl FloatText for StdFloats {
    fn parse_float(&self, text: &str) -> Option<u32> {
        text.parse::<f32>().ok().map(|f| f.to_bits())
    }

    fn parse_double(&self, text: &str) -> Option<u64> {
        text.parse::<f64>().ok().map(|f| f.to_bits())
    }

    fn show_float(&self, bits: u32) -> String {
        format!("{}", f32::from_bits(bits))
    }

    fn show_double(&self, bits: u64) -> String {
        format!("{}", f64::from_bits(bits))
    }
}

fn parse(s: &str) -> Result<Tag, ParseError> {
    Nbt::parse(s, &StdFloats)
}

fn text(t: &Tag) -> String {
    t.to_snbt(&StdFloats).unwrap()
}

fn level() -> Nbt {
    let data = parse(
        "{Data:{Version:{Name:\"1.16.5\",Id:2586,Snapshot:0b},LevelName:\"New World\",\
         RandomSeed:-4530622468196391223L,SpawnY:64s,BorderSize:5.9999968E7d,\
         DataPacks:{Enabled:[\"vanilla\"],Disabled:[]},Time:1.5f,\
         Heights:[I;1,2,3],Flags:[B;1b,0b],Seeds:[L;7L,-7L]}}",
    )
    .unwrap();
    Nbt::new(String::new(), data)
}

fn check_level(bytes: &[u8]) {
    let nbt = Nbt::decode(bytes);
    assert!(nbt.is_ok(), "failed to decode nbt");
    let nbt = nbt.unwrap();
    assert!(matches!(nbt.tag.kind(), Kind::Compound), "nbt does not match expected type");
}

#[test]
fn uncompressed_level() {
    let bytes = level().encode(false).unwrap();
    assert_eq!(bytes[0], 10);
    check_level(&bytes);
}

#[test]
fn compressed_level() {
    let bytes = level().encode(true).unwrap();
    assert_eq!(&bytes[0..2], &[0x1f, 0x8b]);
    check_level(&bytes);
}

#[test]
fn binary_round_trip_is_byte_identical() {
    let original = level();
    let bytes = original.encode(false).unwrap();
    let decoded = Nbt::decode(&bytes).unwrap();
    assert_eq!(decoded.name, original.name);
    assert_eq!(text(&decoded.tag), text(&original.tag));
    assert_eq!(decoded.encode(false).unwrap(), bytes);
}

#[test]
fn encodes_exact_wire_bytes() {
    let tag = parse("{a:1b,s:\"hi\",l:[2s,3s]}").unwrap();
    let bytes = Nbt::new("r".to_string(), tag).encode(false).unwrap();
    let expected: Vec<u8> = vec![
        10, 0, 1, b'r', // root compound named "r"
        1, 0, 1, b'a', 1, // byte a = 1
        8, 0, 1, b's', 0, 2, b'h', b'i', // string s = "hi"
        9, 0, 1, b'l', 2, 0, 0, 0, 2, 0, 2, 0, 3, // list l of two shorts
        0, // end of compound
    ];
    assert_eq!(bytes, expected);
}

#[test]
fn encoding_end_root_fails() {
    let nbt = Nbt::new(String::new(), Tag::End);
    assert_eq!(nbt.encode(false), Err(EncodeError::EndRoot));
}

#[test]
fn compression_is_transparent() {
    let raw = level().encode(false).unwrap();
    let packed = level().encode(true).unwrap();
    assert_ne!(raw, packed);
    let a = Nbt::decode(&raw).unwrap();
    let b = Nbt::decode(&packed).unwrap();
    assert_eq!(text(&a.tag), text(&b.tag));
    assert_eq!(a.encode(false).unwrap(), b.encode(false).unwrap());
}

#[test]
fn truncated_compound_is_an_error() {
    assert_eq!(Nbt::decode(&[10]).unwrap_err(), DecodeError::Truncated);
    assert_eq!(Nbt::decode(&[10, 0, 0]).unwrap_err(), DecodeError::Truncated);
    assert_eq!(Nbt::decode(&[]).unwrap_err(), DecodeError::Truncated);
}

#[test]
fn decode_errors() {
    assert_eq!(Nbt::decode(&[13, 0, 0]).unwrap_err(), DecodeError::UnknownId(13));
    assert_eq!(Nbt::decode(&[8, 0, 0, 0, 1, 0xff]).unwrap_err(), DecodeError::InvalidUtf8);
    assert_eq!(Nbt::decode(&[9, 0, 0, 0, 0, 0, 0, 1]).unwrap_err(), DecodeError::EndInList);
    assert_eq!(Nbt::decode(&[3, 0, 0, 1, 2]).unwrap_err(), DecodeError::Truncated);
}

#[test]
fn decodes_scalars_big_endian() {
    let t = Nbt::decode(&[3, 0, 0, 0xff, 0xff, 0xff, 0xfe]).unwrap();
    assert!(matches!(t.tag, Tag::Int(-2)));
    let t = Nbt::decode(&[4, 0, 0, 0, 0, 0, 0, 0, 0, 1, 0]).unwrap();
    assert!(matches!(t.tag, Tag::Long(256)));
    let t = Nbt::decode(&[8, 0, 2, b'h', b'i', 0, 3, b'a', b'b', b'c']).unwrap();
    assert_eq!(t.name, "hi");
    assert!(matches!(t.tag, Tag::String(ref s) if s == "abc"));
    let t = Nbt::decode(&[11, 0, 0, 0, 0, 0, 1, 0, 0, 0, 7]).unwrap();
    assert!(matches!(t.tag, Tag::IntArray(ref v) if v == &vec![7]));
    let t = Nbt::decode(&[0]).unwrap();
    assert!(matches!(t.tag, Tag::End));
}

#[test]
fn duplicate_keys_keep_first_position_on_decode() {
    let bytes = [10, 0, 0, 1, 0, 1, b'b', 1, 1, 0, 1, b'a', 2, 1, 0, 1, b'b', 3, 0];
    let t = Nbt::decode(&bytes).unwrap();
    assert_eq!(text(&t.tag), "{b:3b,a:2b}");
}

#[test]
fn compound_keeps_insertion_order() {
    let mut t = Tag::Compound(Vec::new());
    t.insert(&Segment::Key("b".to_string()), Tag::Int(1)).unwrap();
    t.insert(&Segment::Key("a".to_string()), Tag::Int(2)).unwrap();
    t.insert(&Segment::Key("b".to_string()), Tag::Int(3)).unwrap();
    assert_eq!(text(&t), "{b:3,a:2}");
}

#[test]
fn path_index() {
    let mut t = parse("{Data:{Version:{Name:\"1.16.5\"}},L:[1,2]}").unwrap();
    let data = t.get(&Segment::Key("Data".to_string())).unwrap();
    let version = data.get(&Segment::Key("Version".to_string())).unwrap();
    let name = version.get(&Segment::Key("Name".to_string())).unwrap();
    assert!(matches!(name, Tag::String(s) if s == "1.16.5"));
    assert!(t.get(&Segment::Key("Missing".to_string())).is_none());
    assert!(t.get(&Segment::Position(0)).is_none());
    let list = t.get(&Segment::Key("L".to_string())).unwrap();
    assert!(matches!(list.get(&Segment::Position(1)), Some(Tag::Int(2))));
    assert!(list.get(&Segment::Position(2)).is_none());

    let mut l = parse("[1,2]").unwrap();
    assert_eq!(l.insert(&Segment::Position(1), Tag::Int(5)), Ok(()));
    assert_eq!(text(&l), "[1,5]");
    assert_eq!(l.insert(&Segment::Position(2), Tag::Int(5)), Err(TagError::OutOfBounds));
    assert_eq!(l.insert(&Segment::Key("x".to_string()), Tag::Int(5)), Err(TagError::NotIndexable));
    assert_eq!(t.insert(&Segment::Position(0), Tag::Int(5)), Err(TagError::NotIndexable));
    let mut b = Tag::Byte(1);
    assert_eq!(b.insert(&Segment::Key("x".to_string()), Tag::Int(5)), Err(TagError::NotIndexable));
}

#[test]
fn checked_narrowing() {
    assert_eq!(Tag::Byte(3).as_byte(), Ok(3));
    assert_eq!(Tag::Short(3).as_byte(), Err(TagError::Mismatch));
    assert_eq!(Tag::Short(-3).as_short(), Ok(-3));
    assert_eq!(Tag::Int(7).as_int(), Ok(7));
    assert_eq!(Tag::Long(9).as_long(), Ok(9));
    assert_eq!(Tag::Int(9).as_long(), Err(TagError::Mismatch));
}

#[test]
fn kinds_and_ids() {
    assert_eq!(Kind::End.id(), 0);
    assert_eq!(Kind::Compound.id(), 10);
    assert_eq!(Kind::List(3).id(), 9);
    assert_eq!(Kind::LongArray.id(), 12);
    assert_eq!(parse("[1b,2b]").unwrap().kind(), Kind::List(1));
    assert_eq!(parse("[]").unwrap().kind(), Kind::List(0));
    assert_eq!(Tag::String("x".to_string()).kind(), Kind::String);
    assert_eq!(Tag::Float(0).id(), 5);
}

#[test]
fn decoded_tree_equals_original() {
    let original = level();
    let bytes = original.encode(false).unwrap();
    let decoded = Nbt::decode(&bytes).unwrap();
    assert_eq!(decoded.tag, original.tag);
    assert_ne!(decoded.tag, Tag::Int(1));
}

#[test]
fn clone_is_deep() {
    let original = parse("{a:[1,2],b:{c:\"x\"}}").unwrap();
    let mut copy = original.clone();
    assert_eq!(copy, original);
    copy.insert(&Segment::Key("a".to_string()), Tag::Int(0)).unwrap();
    assert_ne!(copy, original);
    assert_eq!(text(&original), "{a:[1,2],b:{c:\"x\"}}");
}

#[test]
fn malformed_trees_are_not_encoded() {
    let mixed = Tag::List(vec![Tag::Int(1), Tag::Byte(2)]);
    assert!(!mixed.is_well_formed());
    assert_eq!(Nbt::new(String::new(), mixed).encode(false), Err(EncodeError::Malformed));
    let dup = Tag::Compound(vec![("a".to_string(), Tag::Int(1)), ("a".to_string(), Tag::Int(2))]);
    assert!(!dup.is_well_formed());
    let nested_end = Tag::Compound(vec![("a".to_string(), Tag::End)]);
    assert!(!nested_end.is_well_formed());
    let long_name = "x".repeat(70000);
    assert_eq!(
        Nbt::new(long_name, Tag::Int(1)).encode(false),
        Err(EncodeError::Malformed)
    );
    assert!(level().tag.is_well_formed());
    assert!(Tag::List(vec![]).is_well_formed());
}

#[test]
fn assign_through_get_or_insert() {
    let mut t = parse("{b:1,a:[1,2]}").unwrap();
    *t.get_or_insert(&Segment::Key("c".to_string())).unwrap() = Tag::Int(9);
    *t.get_or_insert(&Segment::Key("b".to_string())).unwrap() = Tag::Int(7);
    {
        let list = t.get_or_insert(&Segment::Key("a".to_string())).unwrap();
        *list.get_or_insert(&Segment::Position(1)).unwrap() = Tag::Int(5);
        assert_eq!(list.get_or_insert(&Segment::Position(2)).unwrap_err(), TagError::OutOfBounds);
        assert_eq!(
            list.get_or_insert(&Segment::Key("x".to_string())).unwrap_err(),
            TagError::NotIndexable
        );
    }
    assert_eq!(text(&t), "{b:7,a:[1,5],c:9}");
    let fresh = t.get_or_insert(&Segment::Key("d".to_string())).unwrap();
    assert_eq!(*fresh, Tag::End);
    let mut b = Tag::Byte(1);
    assert_eq!(b.get_or_insert(&Segment::Position(0)).unwrap_err(), TagError::NotIndexable);
}

#[test]
fn change_in_place_with_get_mut() {
    let mut t = parse("{a:{b:1}}").unwrap();
    {
        let a = t.get_mut(&Segment::Key("a".to_string())).unwrap();
        *a.get_mut(&Segment::Key("b".to_string())).unwrap() = Tag::Int(2);
        assert!(a.get_mut(&Segment::Key("z".to_string())).is_none());
    }
    assert_eq!(text(&t), "{a:{b:2}}");
    assert!(t.get_mut(&Segment::Position(0)).is_none());
    assert_eq!(text(&t), "{a:{b:2}}");
}
