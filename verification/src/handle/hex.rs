use vstd::prelude::*;
use crate::byteutil::Endian;
use crate::command::{Command, Value};
use crate::util::{bytes_to_vec, filled_vec};
use vstd::utf8::encode_utf8;
use vstd::string::StringSliceAdditionalSpecFns;

verus! {

/// What pressing enter on the hex view's command line does.
#[derive(Debug, PartialEq, Eq)]
pub enum HexAction {
    /// Nothing.
    Nothing,
    /// Moves to a byte address.
    JumpTo(usize),
    /// Moves to the end of the file.
    JumpToEnd,
    /// Reads numbers in this byte order.
    SetEndian(Endian),
    /// Looks for `pattern` from byte `start` on.
    Find { start: usize, pattern: Vec<u8> },
    /// Saves the bytes `[start, end)` to the file `path`.
    SaveRange { start: usize, end: usize, path: String },
    /// Runs the named function on the selection.
    Call(String),
    /// Lists the registered functions.
    ListFunctions,
    /// Puts `bytes` at the cursor, replacing (`overwrite`) or inserting.
    PutBytes { cursor_y: usize, cursor_x: usize, bytes: Vec<u8>, overwrite: bool },
}

/// The action for `cmd` with the cursor at row `cursor_y`, column `cursor_x`, the row
/// starting at file byte `row_start` (`None` when there is no such row) and `rows` rows
/// shown.
pub open spec fn hex_action_of(cmd: Command, cursor_x: usize, cursor_y: usize, row_start: Option<usize>, rows: usize, r: HexAction) -> bool {
    match cmd {
        Command::Empty | Command::Back | Command::Search(_) | Command::Fuzzy(_) | Command::StrInput(_) => r == HexAction::Nothing,
        Command::GTop => r == HexAction::JumpTo(0),
        Command::GBottom => r == HexAction::JumpToEnd,
        Command::SetEndian(e) => r == HexAction::SetEndian(e),
        Command::Jump(a) => r == HexAction::JumpTo(a),
        Command::Find(v) => if rows == 0 {
            r == HexAction::Nothing
        } else {
            r matches HexAction::Find { start, pattern } && start == row_start->0 + cursor_x && pattern@ == (match v {
                Value::Hex(p) => p@,
                Value::Ascii(s) => encode_utf8(s@),
            })
        },
        Command::Cut(c) => r matches HexAction::SaveRange { start, end, path } && start == row_start->0 + cursor_x && end
            == start + c.count_of() && path@ == c.path_of(),
        Command::CutSel(c) => r matches HexAction::SaveRange { start, end, path } && start == c.start_of() && end == c.end_of()
            && path@ == c.path_of(),
        Command::Call(f) => r matches HexAction::Call(g) && g@ == f@,
        Command::ListFunc => r == HexAction::ListFunctions,
        Command::HexInput(x) => r matches HexAction::PutBytes { cursor_y: y, cursor_x: x2, bytes, overwrite } && y == cursor_y
            && x2 == cursor_x && bytes@ == x@ && overwrite,
        Command::Insert(n) => r matches HexAction::PutBytes { cursor_y: y, cursor_x: x2, bytes, overwrite } && y == cursor_y
            && x2 == cursor_x && bytes@ == Seq::new(n as nat, |k: int| 0u8) && !overwrite,
    }
}

/// Decides what enter does on the hex view's command line: jumps, byte order, searches
/// from the cursor, saving a range, running or listing functions, and putting bytes at
/// the cursor.
pub fn hex_enter_action(cmd: Command, cursor_x: usize, cursor_y: usize, row_start: Option<usize>, rows: usize) -> (r: HexAction)
    requires
        match cmd {
            Command::Find(_) => rows > 0 ==> row_start is Some && row_start->0 + cursor_x <= usize::MAX,
            Command::Cut(c) => row_start is Some && row_start->0 + cursor_x + c.count_of() <= usize::MAX,
            Command::HexInput(_) | Command::Insert(_) => row_start is Some,
            _ => true,
        },
    ensures
        hex_action_of(cmd, cursor_x, cursor_y, row_start, rows, r),
{
    match cmd {
        Command::Empty => HexAction::Nothing,
        Command::Back => HexAction::Nothing,
        Command::GTop => HexAction::JumpTo(0),
        Command::GBottom => HexAction::JumpToEnd,
        Command::SetEndian(endian) => HexAction::SetEndian(endian),
        Command::Jump(addr) => HexAction::JumpTo(addr),
        Command::Find(value) => {
            if rows == 0 {
                return HexAction::Nothing;
            }
            let seek_start = match row_start {
                Some(s) => s + cursor_x,
                None => 0,
            };
            match value {
                Value::Hex(pattern) => HexAction::Find { start: seek_start, pattern },
                Value::Ascii(pattern) => {
                    let bytes = bytes_to_vec(pattern.as_str().as_bytes());
                    HexAction::Find { start: seek_start, pattern: bytes }
                },
            }
        },
        Command::Search(_) => HexAction::Nothing,
        Command::Fuzzy(_) => HexAction::Nothing,
        Command::Cut(c) => {
            let seek_start = match row_start {
                Some(s) => s + cursor_x,
                None => 0,
            };
            let path = c.get_filepath().to_string();
            HexAction::SaveRange { start: seek_start, end: seek_start + c.get_count(), path }
        },
        Command::CutSel(c) => {
            let path = c.get_filepath().to_string();
            HexAction::SaveRange { start: c.get_start(), end: c.get_end(), path }
        },
        Command::Call(function) => HexAction::Call(function),
        Command::ListFunc => HexAction::ListFunctions,
        Command::HexInput(x) => HexAction::PutBytes { cursor_y, cursor_x, bytes: x, overwrite: true },
        Command::Insert(count) => {
            let zeros = filled_vec(0u8, count);
            proof {
                assert(zeros@ =~= Seq::new(count as nat, |k: int| 0u8));
            }
            HexAction::PutBytes { cursor_y, cursor_x, bytes: zeros, overwrite: false }
        },
        Command::StrInput(_) => HexAction::Nothing,
    }
}

} // verus!
