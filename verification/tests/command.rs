use chappie::byteutil::Endian;
use chappie::command::{Command, CutFile, CutSelFile, Value};

#[test]
fn test_parse_command() {
    assert_eq!(Command::parse("/set endian=big"), Command::SetEndian(Endian::Big));
    assert_eq!(Command::parse("/j 100"), Command::Jump(100));
    assert_eq!(
        Command::parse("/f 0x4a0f99"),
        Command::Find(Value::Hex(vec![0x4a, 0x0f, 0x99]))
    );
    assert_eq!(Command::parse("/f eeee"), Command::Find(Value::Ascii("eeee".to_string())));
    assert!(matches!(Command::parse("unknown command"), Command::StrInput(_)));

    assert_eq!(Command::parse("/cut 0 10 xxx"), Command::CutSel(CutSelFile::new(0, 10, "xxx")));
    assert_eq!(Command::parse("/cut 11 xxx"), Command::Cut(CutFile::new(11, "xxx")));
}

#[test]
fn test_hex_input_single_byte() {
    assert_eq!(Command::parse("0F"), Command::HexInput(vec![0x0F]));
    assert_eq!(Command::parse("AF"), Command::HexInput(vec![0xAF]));
    assert_eq!(Command::parse("FF"), Command::HexInput(vec![0xFF]));
    assert_eq!(Command::parse("00"), Command::HexInput(vec![0x00]));
    assert_eq!(Command::parse("A5"), Command::HexInput(vec![0xA5]));

    assert_eq!(Command::parse("ab"), Command::HexInput(vec![0xAB]));
    assert_eq!(Command::parse("cd"), Command::HexInput(vec![0xCD]));

    assert_eq!(Command::parse("Bf"), Command::HexInput(vec![0xBF]));

    assert_eq!(Command::parse("F0AF"), Command::HexInput(vec![0xF0, 0xAF]));
    assert_eq!(Command::parse("010203"), Command::HexInput(vec![0x01, 0x02, 0x03]));

    assert!(matches!(Command::parse("F"), Command::StrInput(_)));
    assert!(matches!(Command::parse("F0A"), Command::StrInput(_)));

    assert!(matches!(Command::parse("GG"), Command::StrInput(_)));
    assert!(matches!(Command::parse("XY"), Command::StrInput(_)));

    let cmd = Command::parse("AF");
    assert_eq!(cmd.get_hex_bytes(), Some(&[0xAF][..]));

    let cmd2 = Command::parse("/b");
    assert_eq!(cmd2.get_hex_bytes(), None);
}

#[test]
fn parse_covers_every_command_word() {
    assert_eq!(Command::parse("/b"), Command::Back);
    assert_eq!(Command::parse("  /g "), Command::GTop);
    assert_eq!(Command::parse("/G"), Command::GBottom);
    assert_eq!(Command::parse("/lf"), Command::ListFunc);
    assert_eq!(Command::parse("/set endian=LITTLE"), Command::SetEndian(Endian::Little));
    assert_eq!(Command::parse("/set endian=mixed"), Command::StrInput("/set endian=mixed".to_string()));
    assert_eq!(Command::parse("/set endian=big=x"), Command::StrInput("/set endian=big=x".to_string()));
    assert_eq!(Command::parse("/set order=big"), Command::StrInput("/set order=big".to_string()));
    assert_eq!(Command::parse("/j +7"), Command::Jump(7));
    assert_eq!(Command::parse("/j x7"), Command::StrInput("/j x7".to_string()));
    assert_eq!(Command::parse("/j 99999999999999999999999"), Command::StrInput("/j 99999999999999999999999".to_string()));
    assert_eq!(Command::parse("/ss 0x0x41"), Command::Search(Value::Hex(vec![0x41])));
    assert_eq!(Command::parse("/s 0xzz"), Command::Fuzzy(Value::Hex(vec![])));
    assert_eq!(Command::parse("/s abc"), Command::Fuzzy(Value::Ascii("abc".to_string())));
    assert_eq!(Command::parse("/call hello"), Command::Call("hello".to_string()));
    assert_eq!(Command::parse("/i 12"), Command::Insert(12));
    assert_eq!(Command::parse("/i many"), Command::StrInput("/i many".to_string()));
    assert_eq!(Command::parse("/cut a b c"), Command::StrInput("/cut a b c".to_string()));
    assert_eq!(Command::parse("0A 0B"), Command::HexInput(vec![0x0A, 0x0B]));
    assert_eq!(Command::parse(""), Command::HexInput(vec![]));
    let cut = CutFile::new(3, "out.bin");
    assert_eq!((cut.get_count(), cut.get_filepath()), (3, "out.bin"));
    let sel = CutSelFile::new(1, 9, "sel.bin");
    assert_eq!((sel.get_start(), sel.get_end(), sel.get_filepath()), (1, 9, "sel.bin"));
    assert_eq!(Command::parse_hex_input(" de ad "), Some(vec![0xde, 0xad]));
    assert_eq!(Command::parse_hex_input("dea"), None);
}
