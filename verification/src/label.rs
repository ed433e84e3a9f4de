//! Labels of render graph nodes and resources: a type name, or any other
//! text, borrowed or owned.

use vstd::prelude::*;
use vstd::string::StrSliceExecFns;
use std::borrow::Cow;

verus! {

/// A label: the name of a type, or another text.
#[derive(Debug)]
pub enum Label<'a> {
    TypeName(&'static str),
    Other(Cow<'a, str>),
}

impl<'a> Clone for Label<'a> {
    fn clone(&self) -> (r: Self)
        ensures
            r.text() == self.text(),
            (r is TypeName) == (self is TypeName),
    {
        match self {
            Label::TypeName(s) => Label::TypeName(s),
            Label::Other(Cow::Borrowed(s)) => Label::Other(Cow::Borrowed(s)),
            Label::Other(Cow::Owned(s)) => Label::Other(Cow::Owned(s.clone())),
        }
    }
}

/// True if `a` and `b` are the same text.
pub fn same_text(a: &str, b: &str) -> (r: bool)
    ensures
        r == (a@ == b@),
{
    let n = a.unicode_len();
    if n != b.unicode_len() {
        return false;
    }
    let mut i: usize = 0;
    while i < n
        invariant
            n == a@.len(),
            n == b@.len(),
            i <= n,
            forall|j: int| 0 <= j < i ==> a@[j] == b@[j],
        decreases n - i,
    {
        if a.get_char(i) != b.get_char(i) {
            return false;
        }
        i = i + 1;
    }
    assert(a@ =~= b@);
    true
}

impl<'a> Label<'a> {
    /// The text of the label.
    pub open spec fn text(&self) -> Seq<char> {
        match self {
            Label::TypeName(name) => name@,
            Label::Other(text) => text@,
        }
    }

    /// The text of the label.
    pub fn as_str(&self) -> (r: &str)
        ensures
            r@ == self.text(),
    {
        match self {
            Label::TypeName(name) => name,
            Label::Other(Cow::Borrowed(text)) => text,
            Label::Other(Cow::Owned(text)) => text.as_str(),
        }
    }

    /// The same label, owning its text.
    pub fn to_static(&self) -> (r: Label<'static>)
        ensures
            r.text() == self.text(),
            (r is TypeName) == (self is TypeName),
    {
        match self {
            Label::TypeName(name) => Label::TypeName(name),
            Label::Other(Cow::Borrowed(text)) => {
                let t: &str = text;
                Label::Other(Cow::Owned(t.to_owned()))
            },
            Label::Other(Cow::Owned(text)) => Label::Other(Cow::Owned(text.clone())),
        }
    }

    /// The label, owning its text.
    pub fn into_static(self) -> (r: Label<'static>)
        ensures
            r.text() == self.text(),
            (r is TypeName) == (self is TypeName),
    {
        match self {
            Label::TypeName(name) => Label::TypeName(name),
            Label::Other(Cow::Borrowed(text)) => Label::Other(Cow::Owned(text.to_owned())),
            Label::Other(Cow::Owned(text)) => Label::Other(Cow::Owned(text)),
        }
    }
}

impl<'a> PartialEq for Label<'a> {
    fn eq(&self, other: &Self) -> (r: bool) {
        same_text(self.as_str(), other.as_str())
    }
}

impl<'a> vstd::std_specs::cmp::PartialEqSpecImpl for Label<'a> {
    open spec fn obeys_eq_spec() -> bool {
        true
    }

    open spec fn eq_spec(&self, other: &Self) -> bool {
        self.text() == other.text()
    }
}

impl<'a> Eq for Label<'a> {}

} // verus!
