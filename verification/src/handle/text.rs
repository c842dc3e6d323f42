use vstd::prelude::*;

verus! {

/// The shared cursor movements of the text views.
pub struct HandleBase {}

/// The command input line of the text views.
pub struct HandleCmdInpEdit {}

/// The plain text view's key handling: cursor movement and the command line.
pub struct HandleText {
    txt_base: HandleBase,
    cmd_inp: HandleCmdInpEdit,
}

impl HandleText {
    pub fn new() -> (r: HandleText) {
        HandleText { txt_base: HandleBase {}, cmd_inp: HandleCmdInpEdit {} }
    }
}

} // verus!
