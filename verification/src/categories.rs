//! Text-corpus categories: the directory that holds one subdirectory per
//! category of practice texts.
//!
//! Enumerating categories and picking a text are directory I/O and stay with
//! the caller; this type carries the configured corpus location.
use vstd::prelude::*;

verus! {

/// The corpus location: a directory with one subdirectory per category.
pub struct Categories {
    texts_dir: String,
}

impl View for Categories {
    type V = Seq<char>;

    closed spec fn view(&self) -> Seq<char> {
        self.texts_dir@
    }
}

impl Categories {
    pub fn new(texts_dir: String) -> (r: Categories)
        ensures
            r@ == texts_dir@,
    {
        Categories { texts_dir }
    }

    /// The configured corpus directory.
    pub fn dir(&self) -> (r: &String)
        ensures
            r@ == self@,
    {
        &self.texts_dir
    }
}

} // verus!
