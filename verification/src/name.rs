//! Names of decision variables.

use vstd::prelude::*;
use core::cmp::Ordering;
use crate::text::{lemma_text_lt_order, str_lt, text_lt};

verus! {

/// Identity of a decision variable: either written by the user or generated
/// while flattening.
#[derive(Debug, Hash, Ord)]
pub enum Name {
    UserName(String),
    MachineName(i32),
}

/// Mathematical value of a [`Name`].
pub enum NameView {
    UserName(Seq<char>),
    MachineName(i32),
}

impl View for Name {
    type V = NameView;

    open spec fn view(&self) -> NameView {
        match self {
            Name::UserName(s) => NameView::UserName(s@),
            Name::MachineName(i) => NameView::MachineName(*i),
        }
    }
}

impl Clone for Name {
    fn clone(&self) -> (res: Self)
        ensures
            res@ == self@,
    {
        match self {
            Name::UserName(s) => Name::UserName(s.clone()),
            Name::MachineName(i) => Name::MachineName(*i),
        }
    }
}

impl PartialEq for Name {
    fn eq(&self, other: &Self) -> (b: bool) {
        match (self, other) {
            (Name::UserName(a), Name::UserName(b)) => *a == *b,
            (Name::MachineName(a), Name::MachineName(b)) => *a == *b,
            _ => false,
        }
    }
}

impl vstd::std_specs::cmp::PartialEqSpecImpl for Name {
    open spec fn obeys_eq_spec() -> bool {
        true
    }

    open spec fn eq_spec(&self, other: &Self) -> bool {
        self@ == other@
    }
}

impl Eq for Name {

}

impl NameView {
    /// The order of names: user names before machine names, user names
    /// among themselves as strings, machine names by their number.
    pub open spec fn precedes(self, other: NameView) -> bool {
        match (self, other) {
            (NameView::UserName(a), NameView::UserName(b)) => text_lt(a, b),
            (NameView::UserName(_), NameView::MachineName(_)) => true,
            (NameView::MachineName(_), NameView::UserName(_)) => false,
            (NameView::MachineName(a), NameView::MachineName(b)) => a < b,
        }
    }
}

/// The order of names is a strict total order.
pub proof fn lemma_name_order(a: NameView, b: NameView, c: NameView)
    ensures
        !a.precedes(a),
        a.precedes(b) && b.precedes(c) ==> a.precedes(c),
        a != b ==> a.precedes(b) || b.precedes(a),
        a.precedes(b) ==> !b.precedes(a),
{
    match (a, b, c) {
        (NameView::UserName(x), NameView::UserName(y), NameView::UserName(z)) => {
            lemma_text_lt_order(x, y, z);
        },
        (NameView::UserName(x), NameView::UserName(y), _) => {
            lemma_text_lt_order(x, y, y);
        },
        (NameView::UserName(x), _, _) => {
            lemma_text_lt_order(x, x, x);
        },
        _ => {},
    }
}

impl Name {
    /// Whether this name comes before `other` in the order of names.
    pub fn precedes(&self, other: &Name) -> (r: bool)
        ensures
            r == self@.precedes(other@),
    {
        match (self, other) {
            (Name::UserName(a), Name::UserName(b)) => str_lt(a.as_str(), b.as_str()),
            (Name::UserName(_), Name::MachineName(_)) => true,
            (Name::MachineName(_), Name::UserName(_)) => false,
            (Name::MachineName(a), Name::MachineName(b)) => *a < *b,
        }
    }
}

impl PartialOrd for Name {
    fn partial_cmp(&self, other: &Self) -> (r: Option<Ordering>) {
        if self.precedes(other) {
            Some(Ordering::Less)
        } else if other.precedes(self) {
            Some(Ordering::Greater)
        } else {
            proof {
                lemma_name_order(self@, other@, other@);
            }
            Some(Ordering::Equal)
        }
    }
}

impl vstd::std_specs::cmp::PartialOrdSpecImpl for Name {
    open spec fn obeys_partial_cmp_spec() -> bool {
        true
    }

    open spec fn partial_cmp_spec(&self, other: &Self) -> Option<Ordering> {
        if self@.precedes(other@) {
            Some(Ordering::Less)
        } else if other@.precedes(self@) {
            Some(Ordering::Greater)
        } else {
            Some(Ordering::Equal)
        }
    }
}

} // verus!
