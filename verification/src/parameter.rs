//! Parameters: the records of an MSD document, and how they are written
//! back as MSD text.

use vstd::prelude::*;
use vstd::utf8::encode_utf8;
use crate::text::{chars_of, decode, lemma_encode_utf8_concat, option_text, texts, write_text};

verus! {

/// Why a parameter could not be written.
#[derive(Debug)]
pub enum MSDParameterError {
    /// The writer failed; the text says how.
    IoError(String),
    /// A component cannot be written without escapes.
    SerializeError(String),
}

impl MSDParameterError {
    /// The text that the error carries.
    pub open spec fn message(&self) -> Seq<char> {
        match self {
            MSDParameterError::IoError(e) => e@,
            MSDParameterError::SerializeError(e) => e@,
        }
    }

    /// The error in words.
    pub open spec fn description(&self) -> Seq<char> {
        match self {
            MSDParameterError::IoError(e) => "IO Error: "@ + e@,
            MSDParameterError::SerializeError(e) => "Serialize Error: "@ + e@,
        }
    }

    /// Describes the error in words.
    pub fn to_string(&self) -> (s: String)
        ensures
            s@ == self.description(),
    {
        match self {
            MSDParameterError::IoError(e) => String::from_str("IO Error: ").concat(e.as_str()),
            MSDParameterError::SerializeError(e) => String::from_str("Serialize Error: ").concat(
                e.as_str(),
            ),
        }
    }
}

impl From<String> for MSDParameterError {
    fn from(e: String) -> (err: Self) {
        MSDParameterError::SerializeError(e)
    }
}

impl vstd::std_specs::convert::FromSpecImpl<String> for MSDParameterError {
    open spec fn obeys_from_spec() -> bool {
        true
    }

    open spec fn from_spec(e: String) -> Self {
        MSDParameterError::SerializeError(e)
    }
}

/// A component as it is written with escapes: a backslash stands before each
/// backslash, `:` and `;`, and before each `//`, taken from the left.
pub open spec fn escaped(s: Seq<char>) -> Seq<char>
    decreases s.len(),
{
    if s.len() == 0 {
        Seq::empty()
    } else if s[0] == '\\' || s[0] == ':' || s[0] == ';' {
        seq!['\\', s[0]] + escaped(s.skip(1))
    } else if s[0] == '/' && s.len() >= 2 && s[1] == '/' {
        seq!['\\', '/', '/'] + escaped(s.skip(2))
    } else {
        seq![s[0]] + escaped(s.skip(1))
    }
}

/// At index `i` of `s` stands `:`, `;` or the first character of `//`.
pub open spec fn special_at(s: Seq<char>, i: int) -> bool {
    s[i] == ':' || s[i] == ';' || (s[i] == '/' && i + 1 < s.len() && s[i + 1] == '/')
}

/// The component holds `:`, `;` or `//`, which only an escape can keep from
/// being read as a separator, an end or a comment.
pub open spec fn needs_escapes(s: Seq<char>) -> bool {
    exists|i: int| 0 <= i < s.len() && #[trigger] special_at(s, i)
}

/// What is said of a component that cannot be written without escapes.
pub open spec fn unserializable_text(component: Seq<char>) -> Seq<char> {
    component + " can't be serialized without escapes"@
}

/// The component can be written.
pub open spec fn serializable(component: Seq<char>, escapes: bool) -> bool {
    escapes || !needs_escapes(component)
}

/// A component as it is written, where it can be written.
pub open spec fn component_text(component: Seq<char>, escapes: bool) -> Seq<char> {
    if escapes {
        escaped(component)
    } else {
        component
    }
}

/// How many components can be written before the first that cannot.
pub open spec fn serializable_count(components: Seq<Seq<char>>, escapes: bool) -> nat
    decreases components.len(),
{
    if components.len() == 0 || !serializable(components[0], escapes) {
        0
    } else {
        1 + serializable_count(components.drop_first(), escapes)
    }
}

/// The text of a parameter up to and with its `n`th component: `#`, and the
/// components with a `:` after each but the last.
pub open spec fn written_text(components: Seq<Seq<char>>, escapes: bool, n: int) -> Seq<char>
    decreases n,
{
    if n <= 0 {
        seq!['#']
    } else {
        written_text(components, escapes, n - 1) + component_text(components[n - 1], escapes) + (
        if n < components.len() {
            seq![':']
        } else {
            Seq::empty()
        })
    }
}

/// What writing a parameter gives: the text that is written, and what is
/// said of the first component that cannot be written, if there is one.
/// Nothing is written from that component on.
pub open spec fn serialization(components: Seq<Seq<char>>, escapes: bool) -> (
    Seq<char>,
    Option<Seq<char>>,
) {
    let n = serializable_count(components, escapes) as int;
    if n == components.len() {
        (written_text(components, escapes, n) + seq![';'], None)
    } else {
        (written_text(components, escapes, n), Some(unserializable_text(components[n])))
    }
}

/// A count of leading components is the number that can be written if each
/// of them can and the next cannot.
pub proof fn lemma_serializable_count(components: Seq<Seq<char>>, escapes: bool, n: int)
    requires
        0 <= n <= components.len(),
        forall|j: int| 0 <= j < n ==> serializable(#[trigger] components[j], escapes),
        n < components.len() ==> !serializable(components[n], escapes),
    ensures
        serializable_count(components, escapes) == n,
    decreases n,
{
    if n > 0 {
        let rest = components.drop_first();
        assert forall|j: int| 0 <= j < n - 1 implies serializable(#[trigger] rest[j], escapes) by {
            assert(rest[j] == components[j + 1]);
        }
        lemma_serializable_count(rest, escapes, n - 1);
    }
}

/// With escapes every component can be written.
pub proof fn lemma_escapes_serialize_all(components: Seq<Seq<char>>)
    ensures
        serializable_count(components, true) == components.len(),
        serialization(components, true).1 is None,
{
    lemma_serializable_count(components, true, components.len() as int);
}

/// Writes a component with escapes.
fn escape(chars: &Vec<char>) -> (out: String)
    ensures
        out@ == escaped(chars@),
{
    let mut out = String::new();
    let mut i: usize = 0;
    assert(chars@.skip(0) == chars@);
    while i < chars.len()
        invariant
            i <= chars.len(),
            out@ + escaped(chars@.skip(i as int)) == escaped(chars@),
        decreases chars.len() - i,
    {
        let ghost rest = chars@.skip(i as int);
        let ghost done = out@;
        let c = chars[i];
        assert(rest[0] == c);
        if c == '\\' || c == ':' || c == ';' {
            out.push('\\');
            out.push(c);
            i = i + 1;
            assert(rest.skip(1) == chars@.skip(i as int));
            assert(out@ == done + seq!['\\', c]);
        } else if c == '/' && i + 1 < chars.len() && chars[i + 1] == '/' {
            assert(rest[1] == '/');
            out.push('\\');
            out.push('/');
            out.push('/');
            i = i + 2;
            assert(rest.skip(2) == chars@.skip(i as int));
            assert(out@ == done + seq!['\\', '/', '/']);
        } else {
            assert(i + 1 < chars.len() ==> rest[1] == chars@[i + 1]);
            out.push(c);
            i = i + 1;
            assert(rest.skip(1) == chars@.skip(i as int));
            assert(out@ == done + seq![c]);
        }
    }
    assert(chars@.skip(i as int) == Seq::<char>::empty());
    out
}

/// Tells whether a component holds `:`, `;` or `//`.
fn has_special(chars: &Vec<char>) -> (found: bool)
    ensures
        found == needs_escapes(chars@),
{
    let mut i: usize = 0;
    while i < chars.len()
        invariant
            i <= chars.len(),
            forall|j: int| 0 <= j < i ==> !special_at(chars@, j),
        decreases chars.len() - i,
    {
        let c = chars[i];
        if c == ':' || c == ';' || (c == '/' && i + 1 < chars.len() && chars[i + 1] == '/') {
            assert(special_at(chars@, i as int));
            return true;
        }
        i = i + 1;
    }
    false
}

/// The component at index `i`, if there is one.
pub open spec fn component_at(components: Seq<Seq<char>>, i: int) -> Option<Seq<char>> {
    if 0 <= i < components.len() {
        Some(components[i])
    } else {
        None
    }
}

/// An MSD parameter: a key and some values, most often one.
#[derive(Debug, Clone, PartialEq, Hash, PartialOrd)]
pub struct MSDParameter {
    pub components: Vec<String>,
}

impl View for MSDParameter {
    type V = Seq<Seq<char>>;

    open spec fn view(&self) -> Seq<Seq<char>> {
        texts(self.components@)
    }
}

impl MSDParameter {
    pub fn new(components: Vec<String>) -> (parameter: Self)
        ensures
            parameter.components == components,
    {
        Self { components }
    }

    /// The first component, which stands right after the `#`.
    ///
    /// `None` if the parameter has no components, which no parser gives.
    pub fn key(&self) -> (key: Option<String>)
        ensures
            option_text(key) == component_at(self@, 0),
    {
        if self.components.len() > 0 {
            Some(self.components[0].clone())
        } else {
            None
        }
    }

    /// The second component, which a `:` parts from the key.
    ///
    /// `None` if the parameter ends after the key with no `:`.
    pub fn value(&self) -> (value: Option<String>)
        ensures
            option_text(value) == component_at(self@, 1),
    {
        if self.components.len() > 1 {
            Some(self.components[1].clone())
        } else {
            None
        }
    }

    /// Writes one component, a key or a value, as MSD text.
    ///
    /// With `escapes` a backslash is put before each backslash, `:`, `;` and
    /// `//`. Without, the component is given back as it is, unless it holds
    /// `:`, `;` or `//`: that is an error.
    pub fn serialize_component(component: &str, escapes: bool) -> (result: Result<
        String,
        MSDParameterError,
    >)
        ensures
            serializable(component@, escapes) ==> (result matches Ok(text) && text@
                == component_text(component@, escapes)),
            !serializable(component@, escapes) ==> (result matches Err(
                MSDParameterError::SerializeError(e),
            ) && e@ == unserializable_text(component@)),
    {
        let chars = chars_of(component);
        if escapes {
            Ok(escape(&chars))
        } else if has_special(&chars) {
            let message = component.to_owned().concat(" can't be serialized without escapes");
            Err(MSDParameterError::SerializeError(message))
        } else {
            Ok(component.to_owned())
        }
    }

    /// Writes the parameter as MSD text to the end of `writer`: `#`, the
    /// components with `:` between them, and `;`.
    ///
    /// Fails at the first component that cannot be written without escapes;
    /// what stands before it is written by then.
    pub fn serialize(&self, writer: &mut Vec<u8>, escapes: bool) -> (result: Result<
        (),
        MSDParameterError,
    >)
        ensures
            final(writer)@ == old(writer)@ + encode_utf8(serialization(self@, escapes).0),
            serialization(self@, escapes).1 is None ==> result is Ok,
            serialization(self@, escapes).1 matches Some(message) ==> (result matches Err(
                MSDParameterError::SerializeError(e),
            ) && e@ == message),
    {
        proof {
            reveal_strlit("#");
            reveal_strlit(":");
            reveal_strlit(";");
            assert("#"@ =~= seq!['#']);
            assert(":"@ =~= seq![':']);
            assert(";"@ =~= seq![';']);
        }
        write_text(writer, "#");
        let mut i: usize = 0;
        while i < self.components.len()
            invariant
                i <= self.components.len(),
                self@.len() == self.components.len(),
                ":"@ == seq![':'],
                forall|j: int| 0 <= j < i ==> serializable(#[trigger] self@[j], escapes),
                writer@ == old(writer)@ + encode_utf8(written_text(self@, escapes, i as int)),
            decreases self.components.len() - i,
        {
            let ghost before = written_text(self@, escapes, i as int);
            let ghost component = self@[i as int];
            let text = match Self::serialize_component(self.components[i].as_str(), escapes) {
                Ok(text) => text,
                Err(e) => {
                    proof {
                        lemma_serializable_count(self@, escapes, i as int);
                    }
                    return Err(e);
                },
            };
            write_text(writer, text.as_str());
            proof {
                lemma_encode_utf8_concat(before, text@);
            }
            if i != self.components.len() - 1 {
                write_text(writer, ":");
                proof {
                    lemma_encode_utf8_concat(before + text@, ":"@);
                }
            } else {
                assert(before + text@ + Seq::<char>::empty() == before + text@);
            }
            i = i + 1;
        }
        write_text(writer, ";");
        proof {
            lemma_serializable_count(self@, escapes, i as int);
            lemma_encode_utf8_concat(written_text(self@, escapes, i as int), ";"@);
        }
        Ok(())
    }

    /// The parameter as MSD text, with escapes or without.
    ///
    /// Fails where a component cannot be written without escapes.
    pub fn to_string_with_escapes(&self, escapes: bool) -> (result: Result<
        String,
        MSDParameterError,
    >)
        ensures
            serialization(self@, escapes).1 is None ==> (result matches Ok(text) && text@
                == serialization(self@, escapes).0),
            serialization(self@, escapes).1 matches Some(message) ==> (result matches Err(
                MSDParameterError::SerializeError(e),
            ) && e@ == message),
    {
        broadcast use {vstd::utf8::encode_utf8_valid_utf8, vstd::utf8::encode_utf8_decode_utf8};

        let mut output: Vec<u8> = Vec::new();
        match self.serialize(&mut output, escapes) {
            Ok(()) => {
                assert(output@ == encode_utf8(serialization(self@, escapes).0));
                Ok(decode(output.as_slice()))
            },
            Err(e) => Err(e),
        }
    }

    /// The parameter as MSD text with escapes.
    pub fn to_string(&self) -> (text: String)
        ensures
            text@ == serialization(self@, true).0,
    {
        proof {
            lemma_escapes_serialize_all(self@);
        }
        match self.to_string_with_escapes(true) {
            Ok(text) => text,
            Err(_) => String::new(),
        }
    }
}

} // verus!
