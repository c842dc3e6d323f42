use chappie::byteutil::Endian;
use chappie::command::{Command, CutFile, CutSelFile, Value};
use chappie::handle::hex::{hex_enter_action, HexAction};
use chappie::handle::text::HandleText;

#[test]
fn hex_enter_actions() {
    assert_eq!(hex_enter_action(Command::Empty, 0, 0, None, 0), HexAction::Nothing);
    assert_eq!(hex_enter_action(Command::GTop, 0, 0, None, 0), HexAction::JumpTo(0));
    assert_eq!(hex_enter_action(Command::GBottom, 0, 0, None, 0), HexAction::JumpToEnd);
    assert_eq!(hex_enter_action(Command::Jump(9), 0, 0, None, 0), HexAction::JumpTo(9));
    assert_eq!(
        hex_enter_action(Command::SetEndian(Endian::Big), 0, 0, None, 0),
        HexAction::SetEndian(Endian::Big)
    );
    assert_eq!(
        hex_enter_action(Command::Find(Value::Hex(vec![1, 2])), 3, 1, Some(16), 4),
        HexAction::Find { start: 19, pattern: vec![1, 2] }
    );
    assert_eq!(
        hex_enter_action(Command::Find(Value::Ascii("ab".to_string())), 0, 0, Some(0), 1),
        HexAction::Find { start: 0, pattern: vec![b'a', b'b'] }
    );
    assert_eq!(hex_enter_action(Command::Find(Value::Hex(vec![1])), 0, 0, None, 0), HexAction::Nothing);
    assert_eq!(
        hex_enter_action(Command::Cut(CutFile::new(5, "/tmp/x")), 2, 0, Some(10), 1),
        HexAction::SaveRange { start: 12, end: 17, path: "/tmp/x".to_string() }
    );
    assert_eq!(
        hex_enter_action(Command::CutSel(CutSelFile::new(1, 4, "/tmp/y")), 0, 0, None, 0),
        HexAction::SaveRange { start: 1, end: 4, path: "/tmp/y".to_string() }
    );
    assert_eq!(hex_enter_action(Command::ListFunc, 0, 0, None, 0), HexAction::ListFunctions);
    assert_eq!(
        hex_enter_action(Command::Insert(2), 1, 2, Some(0), 3),
        HexAction::PutBytes { cursor_y: 2, cursor_x: 1, bytes: vec![0, 0], overwrite: false }
    );
    let _view = HandleText::new();
}
