//! Literal text leaves: the characters together with their display width,
//! measured once, in Unicode scalar values.

use vstd::prelude::*;

verus! {

/// Where a text leaf's characters live: a static string is kept without
/// copying, an owned string is moved in.
pub enum TextSrc {
    Static(&'static str),
    Owned(String),
}

impl View for TextSrc {
    type V = Seq<char>;

    open spec fn view(&self) -> Seq<char> {
        match self {
            TextSrc::Static(s) => s@,
            TextSrc::Owned(s) => s@,
        }
    }
}

/// Anything a text leaf can be built from.
pub trait IntoText {
    spec fn text_view(&self) -> Seq<char>;

    fn into_text(self) -> (t: TextSrc)
        ensures
            t@ == self.text_view(),
    ;
}

impl IntoText for &'static str {
    open spec fn text_view(&self) -> Seq<char> {
        (*self)@
    }

    fn into_text(self) -> (t: TextSrc) {
        TextSrc::Static(self)
    }
}

impl IntoText for String {
    open spec fn text_view(&self) -> Seq<char> {
        self@
    }

    fn into_text(self) -> (t: TextSrc) {
        TextSrc::Owned(self)
    }
}

/// A text leaf; its stored width always equals its number of characters.
pub(crate) struct Lit {
    src: TextSrc,
    width: usize,
}

impl Lit {
    #[verifier::type_invariant]
    spec fn width_matches(self) -> bool {
        self.width == self.src@.len()
    }

    pub(crate) closed spec fn chars(&self) -> Seq<char> {
        self.src@
    }

    pub(crate) fn new(src: TextSrc) -> (l: Lit)
        ensures
            l.chars() == src@,
    {
        let w = match &src {
            TextSrc::Static(s) => s.unicode_len(),
            TextSrc::Owned(s) => s.as_str().unicode_len(),
        };
        Lit { src, width: w }
    }

    pub(crate) fn width(&self) -> (w: usize)
        ensures
            w == self.chars().len(),
    {
        proof {
            use_type_invariant(self);
        }
        self.width
    }

    pub(crate) fn as_str(&self) -> (r: &str)
        ensures
            r@ == self.chars(),
    {
        match &self.src {
            TextSrc::Static(s) => *s,
            TextSrc::Owned(s) => s.as_str(),
        }
    }
}

} // verus!
