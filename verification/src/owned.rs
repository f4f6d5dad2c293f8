//! [`OwnedIndexedChars`]: a `String` paired with its character-offset
//! cache, giving fast character lookup with plain string value semantics.

use crate::encoding::spec_get_char;
use crate::index::IndexedCharsInner;
use vstd::prelude::*;

verus! {

/// A string whose character positions have been indexed once, so that
/// the nth character can be retrieved without rescanning the text.
///
/// The cache is a pure function of the text: equality and every lookup
/// depend only on the characters, never on how they were segmented.
pub struct OwnedIndexedChars {
    /// Backing string allocation.
    buf: String,
    /// Character-offset cache for `buf`.
    inner: IndexedCharsInner,
}

impl View for OwnedIndexedChars {
    type V = Seq<char>;

    closed spec fn view(&self) -> Seq<char> {
        self.buf@
    }
}

impl OwnedIndexedChars {
    /// The cache always describes exactly the backing string.
    #[verifier::type_invariant]
    spec fn wf(self) -> bool {
        self.inner.wf(self.buf@)
    }

    /// Builds the character index for `s` in one pass and takes ownership
    /// of the string.
    pub fn new(s: String) -> (r: Self)
        ensures
            r@ == s@,
    {
        let inner = IndexedCharsInner::new(s.as_str());
        Self { buf: s, inner }
    }

    /// The character at position `index`, or `None` when the text has no
    /// such position.
    pub fn get_char(&self, index: usize) -> (r: Option<char>)
        ensures
            r == spec_get_char(self@, index as int),
    {
        proof {
            use_type_invariant(self);
        }
        self.inner.get_char(self.buf.as_str(), index)
    }

    /// Number of characters in the backing string, answered from the
    /// cached count.
    pub fn char_count(&self) -> (r: usize)
        ensures
            r == self@.len(),
    {
        proof {
            use_type_invariant(self);
        }
        self.inner.char_count()
    }

    /// Discards the index and hands back the backing `String`.
    pub fn into_string(self) -> (r: String)
        ensures
            r@ == self@,
    {
        self.buf
    }

    /// A reference to the backing `String`.
    pub fn as_string(&self) -> (r: &String)
        ensures
            r@ == self@,
    {
        &self.buf
    }

    /// The backing string as a `&str`.
    pub fn as_str(&self) -> (r: &str)
        ensures
            r@ == self@,
    {
        self.buf.as_str()
    }
}

impl PartialEq for OwnedIndexedChars {
    /// Equality compares the underlying text alone; the cached
    /// segmentation can never be observed through it.
    fn eq(&self, other: &Self) -> bool {
        self.buf.eq(&other.buf)
    }
}

impl Eq for OwnedIndexedChars {

}

impl vstd::std_specs::cmp::PartialEqSpecImpl for OwnedIndexedChars {
    open spec fn obeys_eq_spec() -> bool {
        true
    }

    open spec fn eq_spec(&self, other: &Self) -> bool {
        self@ == other@
    }
}

/// Law: lookup results are a function of the text alone, so two values
/// indexing equal text — for instance one rebuilt from the other's
/// characters — answer every position identically.
pub proof fn lemma_same_text_same_lookups(a: &OwnedIndexedChars, b: &OwnedIndexedChars)
    requires
        a@ == b@,
    ensures
        forall|i: int| spec_get_char(a@, i) == spec_get_char(b@, i),
{
}

/// Law: recovering the raw buffer undoes construction. `new` returns a
/// value whose view is the source text, `into_string` returns a string
/// whose view is that value's view, so the recovered text is the source.
pub proof fn lemma_round_trip(source: Seq<char>, built: &OwnedIndexedChars, recovered: Seq<char>)
    requires
        built@ == source,
        recovered == built@,
    ensures
        recovered == source,
{
}

/// Law: a position is answered with a character exactly when it lies
/// below the character count; every position at or past it is absent.
pub proof fn lemma_lookup_in_range(text: Seq<char>, i: int)
    ensures
        0 <= i < text.len() ==> spec_get_char(text, i) == Some(text[i]),
        i >= text.len() || i < 0 ==> spec_get_char(text, i) is None,
{
}

} // verus!
