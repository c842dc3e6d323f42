use vstd::prelude::*;
use crate::error::ChapError;

verus! {

/// The user interface size.
#[derive(Debug, Clone, Copy, PartialEq, Eq, Structural)]
pub enum UIType {
    Full,
    Lite,
}

/// What the opened file is shown as: text, an editable text, bytes, or vectors.
#[derive(Debug, Clone, Copy, PartialEq, Eq, Structural)]
pub enum ChapMod {
    Text,
    Edit,
    Hex,
    Vector,
}

/// The command line options.
pub struct Cli {
    filepath: Option<String>,
    llm: String,
    model: Option<String>,
    api_key: String,
    ui: UIType,
    vb: bool,
    insert: bool,
    hex: bool,
    vector: bool,
    warp: String,
    question: bool,
}

/// The mode the flags pick: edit before hex before vector, else text.
pub open spec fn mode_of(insert: bool, hex: bool, vector: bool) -> ChapMod {
    if insert {
        ChapMod::Edit
    } else if hex {
        ChapMod::Hex
    } else if vector {
        ChapMod::Vector
    } else {
        ChapMod::Text
    }
}

impl Cli {
    pub closed spec fn filepath_view(&self) -> Option<Seq<char>> {
        match self.filepath {
            Some(p) => Some(p@),
            None => None,
        }
    }

    pub closed spec fn model_view(&self) -> Option<Seq<char>> {
        match self.model {
            Some(p) => Some(p@),
            None => None,
        }
    }

    pub closed spec fn llm_view(&self) -> Seq<char> {
        self.llm@
    }

    pub closed spec fn api_key_view(&self) -> Seq<char> {
        self.api_key@
    }

    pub closed spec fn flags(&self) -> (UIType, bool, bool, bool, bool, bool) {
        (self.ui, self.vb, self.insert, self.hex, self.vector, self.question)
    }

    pub closed spec fn warp_view(&self) -> Seq<char> {
        self.warp@
    }

    /// The options, as parsed.
    pub fn new(
        filepath: Option<String>,
        llm: String,
        model: Option<String>,
        api_key: String,
        ui: UIType,
        vb: bool,
        insert: bool,
        hex: bool,
        vector: bool,
        warp: String,
        question: bool,
    ) -> (r: Cli)
        ensures
            r.filepath_view() == (match filepath { Some(p) => Some(p@), None => None::<Seq<char>> }),
            r.model_view() == (match model { Some(p) => Some(p@), None => None::<Seq<char>> }),
            r.llm_view() == llm@,
            r.api_key_view() == api_key@,
            r.warp_view() == warp@,
            r.flags() == (ui, vb, insert, hex, vector, question),
    {
        Cli { filepath, llm, model, api_key, ui, vb, insert, hex, vector, warp, question }
    }

    /// The file to open; an error when none was given.
    pub fn get_filepath(&self) -> (r: Result<&str, ChapError>)
        ensures
            match self.filepath_view() {
                Some(p) => r matches Ok(s) && s@ == p,
                None => r == Err::<&str, ChapError>(ChapError::NoFilePath),
            },
    {
        match &self.filepath {
            Some(p) => Ok(p.as_str()),
            None => Err(ChapError::NoFilePath),
        }
    }

    pub fn get_llm(&self) -> (r: &str)
        ensures
            r@ == self.llm_view(),
    {
        self.llm.as_str()
    }

    /// The model name, empty when none was given.
    pub fn get_model(&self) -> (r: &str)
        ensures
            match self.model_view() {
                Some(p) => r@ == p,
                None => r@ == Seq::<char>::empty(),
            },
    {
        match &self.model {
            Some(p) => p.as_str(),
            None => {
                let e = "";
                proof {
                    reveal_strlit("");
                }
                e
            },
        }
    }

    pub fn get_api_key(&self) -> (r: &str)
        ensures
            r@ == self.api_key_view(),
    {
        self.api_key.as_str()
    }

    pub fn get_ui_type(&self) -> (r: UIType)
        ensures
            r == self.flags().0,
    {
        self.ui
    }

    pub fn get_vb(&self) -> (r: bool)
        ensures
            r == self.flags().1,
    {
        self.vb
    }

    pub fn get_que(&self) -> (r: bool)
        ensures
            r == self.flags().5,
    {
        self.question
    }

    /// The display mode the flags ask for.
    pub fn get_chap_mod(&self) -> (r: ChapMod)
        ensures
            r == mode_of(self.flags().2, self.flags().3, self.flags().4),
    {
        if self.insert {
            ChapMod::Edit
        } else if self.hex {
            ChapMod::Hex
        } else if self.vector {
            ChapMod::Vector
        } else {
            ChapMod::Text
        }
    }
}

} // verus!
