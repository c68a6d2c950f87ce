//! The kinds of request a client sends, decoded once from their type text
//! (`"C order"`, `"R balance"`, ...) into a closed set.

use vstd::prelude::*;
use vstd::string::StrSliceExecFns;

verus! {

#[derive(Clone, Copy, Debug, PartialEq, Eq, Structural)]
pub enum Crud {
    Create,
    Read,
    Update,
    Delete,
}

#[derive(Clone, Copy, Debug, PartialEq, Eq, Structural)]
pub enum Target {
    Balance,
    Stock,
    Market,
    Order,
    Account,
}

/// A decoded request kind.
#[derive(Clone, Copy, Debug, PartialEq, Eq, Structural)]
pub struct Req {
    pub crud: Crud,
    pub target: Target,
}

pub open spec fn crud_of(c: char) -> Option<Crud> {
    if c == 'C' {
        Some(Crud::Create)
    } else if c == 'R' {
        Some(Crud::Read)
    } else if c == 'U' {
        Some(Crud::Update)
    } else if c == 'D' {
        Some(Crud::Delete)
    } else {
        None
    }
}

pub open spec fn target_of(w: Seq<char>) -> Option<Target> {
    if w == "balance"@ {
        Some(Target::Balance)
    } else if w == "stock"@ {
        Some(Target::Stock)
    } else if w == "market"@ {
        Some(Target::Market)
    } else if w == "order"@ {
        Some(Target::Order)
    } else if w == "account"@ {
        Some(Target::Account)
    } else {
        None
    }
}

/// The request kind that type text `s` names: a CRUD letter, a space, and a target.
pub open spec fn request_of(s: Seq<char>) -> Option<Req> {
    if s.len() >= 3 && s[1] == ' ' {
        match (crud_of(s[0]), target_of(s.subrange(2, s.len() as int))) {
            (Some(crud), Some(target)) => Some(Req { crud, target }),
            _ => None,
        }
    } else {
        None
    }
}

fn word_is(w: &str, lit: &str) -> (r: bool)
    ensures
        r == (w@ == lit@),
{
    w.to_owned() == lit.to_owned()
}

impl Req {
    /// Decodes the type text of a request.
    pub fn from_str(s: &str) -> (r: Option<Req>)
        ensures
            r == request_of(s@),
    {
        let n = s.unicode_len();
        if n < 3 {
            return None;
        }
        if s.get_char(1) != ' ' {
            return None;
        }
        let c = s.get_char(0);
        let crud = if c == 'C' {
            Crud::Create
        } else if c == 'R' {
            Crud::Read
        } else if c == 'U' {
            Crud::Update
        } else if c == 'D' {
            Crud::Delete
        } else {
            return None;
        };
        let w = s.substring_char(2, n);
        let target = if word_is(w, "balance") {
            Target::Balance
        } else if word_is(w, "stock") {
            Target::Stock
        } else if word_is(w, "market") {
            Target::Market
        } else if word_is(w, "order") {
            Target::Order
        } else if word_is(w, "account") {
            Target::Account
        } else {
            return None;
        };
        Some(Req { crud, target })
    }
}

} // verus!
