//! The four panel entries under the names the scanbus API publishes them with.
//!
//! One table for the three numberings that name an entry: `FUNC` and `APPNUM` on the wire,
//! and the index and label of a button.
use vstd::prelude::*;

use crate::skey::register;
use crate::text;

verus! {

/// What a panel entry does when it is chosen.
#[derive(Debug, Clone, Copy, PartialEq, Eq, PartialOrd, Ord, Hash, Structural)]
pub enum Function {
    File,
    Image,
    Ocr,
    Email,
}

impl Function {
    /// Every function, in `button_index` order.
    pub const ALL: [Function; 4] = [
        Function::File,
        Function::Image,
        Function::Ocr,
        Function::Email,
    ];

    /// The `FUNC=` token of an entry.
    pub open spec fn token(self) -> Seq<char> {
        match self {
            Function::File => "FILE"@,
            Function::Image => "IMAGE"@,
            Function::Ocr => "OCR"@,
            Function::Email => "EMAIL"@,
        }
    }

    /// The `APPNUM=` number of an entry.
    pub open spec fn number(self) -> u8 {
        match self {
            Function::Image => 1,
            Function::Email => 2,
            Function::Ocr => 3,
            Function::File => 5,
        }
    }

    /// The button index of an entry.
    pub open spec fn index(self) -> u32 {
        match self {
            Function::File => 0,
            Function::Image => 1,
            Function::Ocr => 2,
            Function::Email => 3,
        }
    }

    /// What the API calls an entry.
    pub open spec fn label(self) -> Seq<char> {
        match self {
            Function::File => "Scan to File"@,
            Function::Image => "Scan to Image"@,
            Function::Ocr => "Scan to OCR"@,
            Function::Email => "Scan to E-mail"@,
        }
    }

    /// The `FUNC=` token.
    pub fn as_str(self) -> (r: &'static str)
        ensures
            r@ == self.token(),
    {
        match self {
            Function::File => "FILE",
            Function::Image => "IMAGE",
            Function::Ocr => "OCR",
            Function::Email => "EMAIL",
        }
    }

    /// The `APPNUM=` number. Not an index: the values are 1, 3, 2, 5 and skip 4.
    pub fn appnum(self) -> (r: u8)
        ensures
            r == self.number(),
    {
        match self {
            Function::Image => 1,
            Function::Email => 2,
            Function::Ocr => 3,
            Function::File => 5,
        }
    }

    /// The scanbus button index.
    pub fn button_index(self) -> (r: u32)
        ensures
            r == self.index(),
    {
        match self {
            Function::File => 0,
            Function::Image => 1,
            Function::Ocr => 2,
            Function::Email => 3,
        }
    }

    /// What the API calls this entry.
    pub fn device_label(self) -> (r: &'static str)
        ensures
            r@ == self.label(),
    {
        match self {
            Function::File => "Scan to File",
            Function::Image => "Scan to Image",
            Function::Ocr => "Scan to OCR",
            Function::Email => "Scan to E-mail",
        }
    }

    /// The entry with a button index.
    pub fn from_button_index(index: u32) -> (r: Option<Function>)
        ensures
            match r {
                Some(f) => f.index() == index,
                None => forall|f: Function| f.index() != index,
            },
    {
        match index {
            0 => Some(Function::File),
            1 => Some(Function::Image),
            2 => Some(Function::Ocr),
            3 => Some(Function::Email),
            _ => None,
        }
    }

    /// The entry with an `APPNUM=` number.
    pub fn from_appnum(appnum: u8) -> (r: Option<Function>)
        ensures
            match r {
                Some(f) => f.number() == appnum,
                None => forall|f: Function| f.number() != appnum,
            },
    {
        match appnum {
            1 => Some(Function::Image),
            2 => Some(Function::Email),
            3 => Some(Function::Ocr),
            5 => Some(Function::File),
            _ => None,
        }
    }

    /// The entry with a `FUNC=` token.
    pub fn from_token(token: &str) -> (r: Option<Function>)
        ensures
            match r {
                Some(f) => f.token() == token@,
                None => forall|f: Function| f.token() != token@,
            },
    {
        if text::same(token, "FILE") {
            Some(Function::File)
        } else if text::same(token, "IMAGE") {
            Some(Function::Image)
        } else if text::same(token, "OCR") {
            Some(Function::Ocr)
        } else if text::same(token, "EMAIL") {
            Some(Function::Email)
        } else {
            assert forall|f: Function| f.token() != token@ by {
                match f {
                    Function::File => {},
                    Function::Image => {},
                    Function::Ocr => {},
                    Function::Email => {},
                }
            }
            None
        }
    }
}

/// The entry that a panel entry is.
pub open spec fn entry_of(f: register::Function) -> Function {
    match f {
        register::Function::File => Function::File,
        register::Function::Image => Function::Image,
        register::Function::Ocr => Function::Ocr,
        register::Function::Email => Function::Email,
    }
}

/// The panel entry that an entry is.
pub open spec fn panel_entry_of(f: Function) -> register::Function {
    match f {
        Function::File => register::Function::File,
        Function::Image => register::Function::Image,
        Function::Ocr => register::Function::Ocr,
        Function::Email => register::Function::Email,
    }
}

impl Function {
    /// The entry that a panel entry is.
    pub fn from_panel(f: register::Function) -> (r: Function)
        ensures
            r == entry_of(f),
    {
        match f {
            register::Function::File => Function::File,
            register::Function::Image => Function::Image,
            register::Function::Ocr => Function::Ocr,
            register::Function::Email => Function::Email,
        }
    }

    /// The panel entry that this entry is.
    pub fn to_panel(self) -> (r: register::Function)
        ensures
            r == panel_entry_of(self),
    {
        match self {
            Function::File => register::Function::File,
            Function::Image => register::Function::Image,
            Function::Ocr => register::Function::Ocr,
            Function::Email => register::Function::Email,
        }
    }
}

/// The two tables agree on everything but what an entry is called, and lead back to each
/// other.
pub proof fn law_both_tables_agree(f: Function)
    ensures
        entry_of(panel_entry_of(f)) == f,
        panel_entry_of(f).token() == f.token(),
        panel_entry_of(f).number() == f.number(),
        panel_entry_of(f).index() == f.index(),
{
}

/// Each of the three numberings tells the four entries apart.
pub proof fn law_numberings_are_injective(f: Function, g: Function)
    ensures
        f.token() == g.token() <==> f == g,
        f.number() == g.number() <==> f == g,
        f.index() == g.index() <==> f == g,
{
    reveal_strlit("FILE");
    reveal_strlit("IMAGE");
    reveal_strlit("OCR");
    reveal_strlit("EMAIL");
    assert("FILE"@.len() == 4 && "IMAGE"@.len() == 5 && "OCR"@.len() == 3 && "EMAIL"@.len() == 5);
    assert("IMAGE"@[0] == 'I' && "EMAIL"@[0] == 'E');
}

/// What the panel calls an entry and the number it gives it are these, and no two of them are
/// another's: the file key is the first, and has the number past those of the other three.
pub proof fn law_an_entry_has_its_place_and_number(f: Function)
    ensures
        f.index() == 0 <==> f == Function::File,
        f.index() == 0 <==> f.number() == 5,
        f.index() == 1 <==> f.number() == 1,
        f.index() == 2 <==> f.number() == 3,
        f.index() == 3 <==> f.number() == 2,
        f.index() < 4,
        f.number() == 5 <==> f.token() == "FILE"@,
        f.number() == 1 <==> f.token() == "IMAGE"@,
        f.number() == 3 <==> f.token() == "OCR"@,
        f.number() == 2 <==> f.token() == "EMAIL"@,
{
    law_numberings_are_injective(f, Function::File);
    law_numberings_are_injective(f, Function::Image);
    law_numberings_are_injective(f, Function::Ocr);
    law_numberings_are_injective(f, Function::Email);
}

} // verus!
