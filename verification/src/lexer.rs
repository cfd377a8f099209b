//! The tokenizer for MSD text.
//!
//! Text is cut into tokens by the first rule that applies at its front:
//!
//! 1. a run of ordinary characters is `Text`;
//! 2. `#` starts a parameter, or is `Text` inside one;
//! 3. `:` separates components inside a parameter, and is `Text` outside;
//! 4. `;` ends a parameter, and is `Text` outside;
//! 5. with escapes on, a backslash and the character after it are an
//!    `Escape` inside a parameter and `Text` outside;
//! 6. `//` and the rest of its line are a `Comment`;
//! 7. any other `/` is `Text`.
//!
//! A `#` that follows a `Text` token ending in a line break starts a
//! parameter even inside one: the `;` before it is taken to be missing.
//! A backslash that ends the input has nothing to escape and is `Text`.

use std::collections::VecDeque;
use vstd::prelude::*;
use vstd::slice::{slice_subrange, slice_to_vec};
use vstd::std_specs::iter::IteratorSpec;
use vstd::utf8::{decode_utf8, encode_utf8, valid_utf8};
use crate::text::{decode, decoded_text, finished_len, finished_length, lemma_finished_len_is_boundary};

verus! {

/// The kind of a token.
#[derive(Debug, PartialEq, Eq, Structural, Clone, Copy, Hash, PartialOrd)]
pub enum MSDToken {
    Text,
    StartParameter,
    NextComponent,
    EndParameter,
    Escape,
    Comment,
}

impl MSDToken {
    /// The name of the kind.
    pub open spec fn name(self) -> Seq<char> {
        match self {
            MSDToken::Text => "Text"@,
            MSDToken::StartParameter => "StartParameter"@,
            MSDToken::NextComponent => "NextComponent"@,
            MSDToken::EndParameter => "EndParameter"@,
            MSDToken::Escape => "Escape"@,
            MSDToken::Comment => "Comment"@,
        }
    }

    /// Gives the name of the kind.
    pub fn to_string(&self) -> (s: String)
        ensures
            s@ == self.name(),
    {
        match self {
            MSDToken::Text => String::from_str("Text"),
            MSDToken::StartParameter => String::from_str("StartParameter"),
            MSDToken::NextComponent => String::from_str("NextComponent"),
            MSDToken::EndParameter => String::from_str("EndParameter"),
            MSDToken::Escape => String::from_str("Escape"),
            MSDToken::Comment => String::from_str("Comment"),
        }
    }
}

/// A token: its kind and the text it was read from.
#[derive(Debug, PartialEq, Clone, Hash, PartialOrd)]
pub struct MSDTokenMatch {
    pub token: MSDToken,
    pub text: String,
}

/// A token as specifications see it.
pub struct TokenView {
    pub kind: MSDToken,
    pub text: Seq<char>,
}

impl View for MSDTokenMatch {
    type V = TokenView;

    open spec fn view(&self) -> TokenView {
        TokenView { kind: self.token, text: self.text@ }
    }
}

/// A token that may be missing, as specifications see it.
pub open spec fn token_view(token: Option<MSDTokenMatch>) -> Option<TokenView> {
    match token {
        Some(t) => Some(t@),
        None => None,
    }
}

impl MSDTokenMatch {
    pub fn new(token: MSDToken, text: String) -> (m: Self)
        ensures
            m.token == token,
            m.text == text,
    {
        Self { token, text }
    }
}

/// A line break character.
pub open spec fn is_line_end(c: char) -> bool {
    c == '\n' || c == '\r'
}

/// Some character of `s` is a line break.
pub open spec fn has_line_end(s: Seq<char>) -> bool {
    exists|i: int| 0 <= i < s.len() && is_line_end(#[trigger] s[i])
}

/// The characters that a run of text stops at.
pub open spec fn ends_text(c: char, escapes: bool) -> bool {
    c == '/' || c == ':' || c == ';' || c == '#' || (escapes && c == '\\')
}

/// How many characters stand before the first one that ends a text run.
pub open spec fn text_run_len(s: Seq<char>, escapes: bool) -> nat
    decreases s.len(),
{
    if s.len() == 0 || ends_text(s[0], escapes) {
        0
    } else {
        1 + text_run_len(s.drop_first(), escapes)
    }
}

/// How many characters stand before the first line break.
pub open spec fn line_len(s: Seq<char>) -> nat
    decreases s.len(),
{
    if s.len() == 0 || is_line_end(s[0]) {
        0
    } else {
        1 + line_len(s.drop_first())
    }
}

/// The length of the token at the front of a text that is not empty.
///
/// A backslash that ends the text has nothing to escape and stands alone.
pub open spec fn first_token_len(s: Seq<char>, escapes: bool) -> nat
    recommends
        s.len() > 0,
{
    if !ends_text(s[0], escapes) {
        text_run_len(s, escapes)
    } else if s[0] == '/' && s.len() >= 2 && s[1] == '/' {
        2 + line_len(s.skip(2))
    } else if s[0] == '\\' && s.len() >= 2 {
        2
    } else {
        1
    }
}

/// The kind of the token at the front of a text that is not empty.
///
/// `inside` tells whether a parameter is open, `after_line_end` whether the
/// last `Text` token ended in a line break.
pub open spec fn first_token_kind(
    s: Seq<char>,
    escapes: bool,
    inside: bool,
    after_line_end: bool,
) -> MSDToken
    recommends
        s.len() > 0,
{
    if !ends_text(s[0], escapes) {
        MSDToken::Text
    } else if s[0] == '#' {
        if inside && !after_line_end {
            MSDToken::Text
        } else {
            MSDToken::StartParameter
        }
    } else if s[0] == ':' {
        if inside {
            MSDToken::NextComponent
        } else {
            MSDToken::Text
        }
    } else if s[0] == ';' {
        if inside {
            MSDToken::EndParameter
        } else {
            MSDToken::Text
        }
    } else if s[0] == '\\' {
        if inside && s.len() >= 2 {
            MSDToken::Escape
        } else {
            MSDToken::Text
        }
    } else if s.len() >= 2 && s[1] == '/' {
        MSDToken::Comment
    } else {
        MSDToken::Text
    }
}

/// A count of leading characters is the text run's length if none of them
/// ends the run and the next one does.
pub proof fn lemma_text_run_len(s: Seq<char>, escapes: bool, n: int)
    requires
        0 <= n <= s.len(),
        forall|j: int| 0 <= j < n ==> !ends_text(#[trigger] s[j], escapes),
        n < s.len() ==> ends_text(s[n], escapes),
    ensures
        text_run_len(s, escapes) == n,
    decreases n,
{
    if n > 0 {
        let rest = s.drop_first();
        assert forall|j: int| 0 <= j < n - 1 implies !ends_text(#[trigger] rest[j], escapes) by {
            assert(rest[j] == s[j + 1]);
        }
        lemma_text_run_len(rest, escapes, n - 1);
    }
}

/// A count of leading characters is the line's length if none of them is a
/// line break and the next one is.
pub proof fn lemma_line_len(s: Seq<char>, n: int)
    requires
        0 <= n <= s.len(),
        forall|j: int| 0 <= j < n ==> !is_line_end(#[trigger] s[j]),
        n < s.len() ==> is_line_end(s[n]),
    ensures
        line_len(s) == n,
    decreases n,
{
    if n > 0 {
        let rest = s.drop_first();
        assert forall|j: int| 0 <= j < n - 1 implies !is_line_end(#[trigger] rest[j]) by {
            assert(rest[j] == s[j + 1]);
        }
        lemma_line_len(rest, n - 1);
    }
}

/// A run of text that is cut where a chunk ends goes on in the next chunk:
/// where no character of `front` ends a run, the run of `front` and `rest`
/// together is all of `front` and the run of `rest`.
pub proof fn lemma_text_run_goes_on(front: Seq<char>, rest: Seq<char>, escapes: bool)
    requires
        forall|j: int| 0 <= j < front.len() ==> !ends_text(#[trigger] front[j], escapes),
    ensures
        text_run_len(front + rest, escapes) == front.len() + text_run_len(rest, escapes),
    decreases front.len(),
{
    if front.len() == 0 {
        assert(front + rest == rest);
    } else {
        let tail = front.drop_first();
        assert forall|j: int| 0 <= j < tail.len() implies !ends_text(#[trigger] tail[j], escapes) by {
            assert(tail[j] == front[j + 1]);
        }
        assert((front + rest).drop_first() == tail + rest);
        assert((front + rest)[0] == front[0]);
        lemma_text_run_goes_on(tail, rest, escapes);
    }
}

/// A text run is no longer than its text.
pub proof fn lemma_text_run_len_bound(s: Seq<char>, escapes: bool)
    ensures
        text_run_len(s, escapes) <= s.len(),
    decreases s.len(),
{
    if s.len() > 0 && !ends_text(s[0], escapes) {
        lemma_text_run_len_bound(s.drop_first(), escapes);
    }
}

/// A line is no longer than its text.
pub proof fn lemma_line_len_bound(s: Seq<char>)
    ensures
        line_len(s) <= s.len(),
    decreases s.len(),
{
    if s.len() > 0 && !is_line_end(s[0]) {
        lemma_line_len_bound(s.drop_first());
    }
}

/// The token at the front of a text holds at least one character and no more
/// than the text has.
pub proof fn lemma_first_token_len_bounds(s: Seq<char>, escapes: bool)
    requires
        s.len() > 0,
    ensures
        1 <= first_token_len(s, escapes) <= s.len(),
{
    lemma_text_run_len_bound(s.drop_first(), escapes);
    lemma_line_len_bound(s.skip(2));
}

/// Tells whether `c` ends a run of text.
fn char_ends_text(c: char, escapes: bool) -> (b: bool)
    ensures
        b == ends_text(c, escapes),
{
    c == '/' || c == ':' || c == ';' || c == '#' || (escapes && c == '\\')
}

/// Tells whether `c` is a line break.
fn char_is_line_end(c: char) -> (b: bool)
    ensures
        b == is_line_end(c),
{
    c == '\n' || c == '\r'
}

/// Tells whether some character of `buffer` is a line break.
fn contains_line_end(buffer: &VecDeque<char>) -> (found: bool)
    ensures
        found == has_line_end(buffer@),
{
    let mut i: usize = 0;
    while i < buffer.len()
        invariant
            i <= buffer@.len(),
            forall|j: int| 0 <= j < i ==> !is_line_end(#[trigger] buffer@[j]),
        decreases buffer@.len() - i,
    {
        if char_is_line_end(buffer[i]) {
            return true;
        }
        i = i + 1;
    }
    false
}

/// Counts the characters of `buffer` before the first one that ends a text
/// run.
fn text_run_length(buffer: &VecDeque<char>, escapes: bool) -> (n: usize)
    ensures
        n == text_run_len(buffer@, escapes),
{
    let mut n: usize = 0;
    while n < buffer.len() && !char_ends_text(buffer[n], escapes)
        invariant
            n <= buffer@.len(),
            forall|j: int| 0 <= j < n ==> !ends_text(#[trigger] buffer@[j], escapes),
        decreases buffer@.len() - n,
    {
        n = n + 1;
    }
    proof {
        lemma_text_run_len(buffer@, escapes, n as int);
    }
    n
}

/// Counts the characters of `buffer` from index `from` to the first line
/// break after it.
fn line_length(buffer: &VecDeque<char>, from: usize) -> (n: usize)
    requires
        from <= buffer@.len(),
    ensures
        n == line_len(buffer@.skip(from as int)),
        from + n <= buffer@.len(),
{
    let len = buffer.len();
    let mut n: usize = 0;
    while from + n < len && !char_is_line_end(buffer[from + n])
        invariant
            from + n <= len == buffer@.len(),
            forall|j: int| 0 <= j < n ==> !is_line_end(#[trigger] buffer@.skip(from as int)[j]),
        decreases buffer@.len() - n,
    {
        n = n + 1;
    }
    proof {
        lemma_line_len(buffer@.skip(from as int), n as int);
    }
    n
}

/// Finds the kind and the length of the token at the front of `buffer`.
fn match_front(buffer: &VecDeque<char>, escapes: bool, inside: bool, after_line_end: bool) -> (m: (
    MSDToken,
    usize,
))
    requires
        buffer@.len() > 0,
    ensures
        m.0 == first_token_kind(buffer@, escapes, inside, after_line_end),
        m.1 == first_token_len(buffer@, escapes),
{
    let len = buffer.len();
    let first = buffer[0];
    if !char_ends_text(first, escapes) {
        (MSDToken::Text, text_run_length(buffer, escapes))
    } else if first == '#' {
        if inside && !after_line_end {
            (MSDToken::Text, 1)
        } else {
            (MSDToken::StartParameter, 1)
        }
    } else if first == ':' {
        if inside {
            (MSDToken::NextComponent, 1)
        } else {
            (MSDToken::Text, 1)
        }
    } else if first == ';' {
        if inside {
            (MSDToken::EndParameter, 1)
        } else {
            (MSDToken::Text, 1)
        }
    } else if first == '\\' {
        if len < 2 {
            (MSDToken::Text, 1)
        } else if inside {
            (MSDToken::Escape, 2)
        } else {
            (MSDToken::Text, 2)
        }
    } else if len >= 2 && buffer[1] == '/' {
        (MSDToken::Comment, 2 + line_length(buffer, 2))
    } else {
        (MSDToken::Text, 1)
    }
}

/// Takes the first `n` characters off `buffer`.
fn take_front(buffer: &mut VecDeque<char>, n: usize) -> (text: String)
    requires
        n <= old(buffer)@.len(),
    ensures
        text@ == old(buffer)@.take(n as int),
        final(buffer)@ == old(buffer)@.skip(n as int),
{
    let mut text = String::new();
    let mut taken: usize = 0;
    while taken < n
        invariant
            taken <= n <= old(buffer)@.len(),
            text@ == old(buffer)@.take(taken as int),
            buffer@ == old(buffer)@.skip(taken as int),
        decreases n - taken,
    {
        match buffer.pop_front() {
            Some(c) => {
                text.push(c);
                taken = taken + 1;
            },
            None => {
                return text;
            },
        }
    }
    text
}

/// Puts the characters of `text` at the end of `buffer`.
fn put_back(buffer: &mut VecDeque<char>, text: &str)
    ensures
        final(buffer)@ == old(buffer)@ + text@,
{
    let mut chars = text.chars();
    let ghost mut put: int = 0;
    loop
        invariant
            0 <= put <= text@.len(),
            chars.obeys_prophetic_iter_laws(),
            chars.remaining() == text@.skip(put),
            buffer@ == old(buffer)@ + text@.take(put),
        decreases text@.len() - put,
    {
        match chars.next() {
            Some(c) => {
                buffer.push_back(c);
                proof {
                    assert(text@.take(put + 1) == text@.take(put).push(c));
                    put = put + 1;
                }
            },
            None => {
                assert(text@.take(put) == text@);
                return ;
            },
        }
    }
}

/// What a [`Tokenizer`] holds, as specifications see it.
pub struct TokenizerState {
    /// Whether a backslash escapes the character after it.
    pub escapes: bool,
    /// The text that was handed over and not yet cut into tokens.
    pub buffer: Seq<char>,
    /// The bytes at the end of the last chunk that begin a character and do
    /// not complete it. They wait for the next chunk.
    pub held: Seq<u8>,
    /// Whether a parameter is open.
    pub inside_parameter: bool,
    /// Whether the end of the input was announced.
    pub done_reading: bool,
    /// Whether the last `Text` token ended in a line break.
    pub after_line_end: bool,
}

impl TokenizerState {
    /// The state before any input.
    pub open spec fn initial(escapes: bool) -> TokenizerState {
        TokenizerState {
            escapes,
            buffer: Seq::empty(),
            held: Seq::empty(),
            inside_parameter: false,
            done_reading: false,
            after_line_end: false,
        }
    }

    /// A token can be cut off: the buffer holds a line break, or all that is
    /// left of the input.
    pub open spec fn ready(self) -> bool {
        has_line_end(self.buffer) || (self.done_reading && self.buffer.len() > 0)
    }

    /// No token will come any more.
    pub open spec fn exhausted(self) -> bool {
        self.done_reading && self.buffer.len() == 0
    }

    /// The state after a chunk of input. The chunk is read as text together
    /// with the bytes that were held back, but for a character that its end
    /// begins and does not complete: those bytes are held back in turn. An
    /// empty chunk announces the end: what was held back is read as text.
    pub open spec fn fed(self, chunk: Seq<u8>) -> TokenizerState {
        if chunk.len() == 0 {
            TokenizerState {
                buffer: self.buffer + decoded_text(self.held),
                held: Seq::empty(),
                done_reading: true,
                ..self
            }
        } else {
            let bytes = self.held + chunk;
            TokenizerState {
                buffer: self.buffer + decoded_text(bytes.take(finished_len(bytes))),
                held: bytes.skip(finished_len(bytes)),
                ..self
            }
        }
    }

    /// The token at the front of the buffer.
    pub open spec fn front_token(self) -> TokenView
        recommends
            self.buffer.len() > 0,
    {
        TokenView {
            kind: first_token_kind(
                self.buffer,
                self.escapes,
                self.inside_parameter,
                self.after_line_end,
            ),
            text: self.buffer.take(first_token_len(self.buffer, self.escapes) as int),
        }
    }

    /// What cutting off a token gives: the token at the front and the state
    /// after it where one can be cut off, else nothing and the same state.
    pub open spec fn take(self) -> (TokenizerState, Option<TokenView>) {
        if self.ready() {
            (self.after_token(), Some(self.front_token()))
        } else {
            (self, None)
        }
    }

    /// The state after the token at the front of the buffer was cut off.
    pub open spec fn after_token(self) -> TokenizerState
        recommends
            self.buffer.len() > 0,
    {
        let token = self.front_token();
        TokenizerState {
            buffer: self.buffer.skip(token.text.len() as int),
            inside_parameter: match token.kind {
                MSDToken::StartParameter => true,
                MSDToken::EndParameter => false,
                _ => self.inside_parameter,
            },
            after_line_end: if token.kind == MSDToken::Text {
                is_line_end(token.text.last())
            } else {
                self.after_line_end
            },
            ..self
        }
    }
}

/// Nothing is lost or added where a tokenizer cuts off a token: the token
/// holds text, and its text and the buffer after it are the buffer before.
/// Where no token is cut off, nothing changes.
pub proof fn lemma_take_lossless(state: TokenizerState)
    ensures
        state.take().1 matches Some(token) ==> token.text.len() > 0 && state.buffer == token.text
            + state.take().0.buffer,
        state.take().1 is None ==> state.take().0 == state,
{
    if state.ready() {
        lemma_first_token_len_bounds(state.buffer, state.escapes);
    }
}

/// A comment at the front of the buffer is cut off whole, up to the line
/// break or the end of the buffer, and leaves the tokenizer as it was but
/// for the buffer: it neither opens nor closes a parameter, and it does not
/// count as text before a `#`.
pub proof fn lemma_comment_is_cut_off_whole(
    state: TokenizerState,
    comment: Seq<char>,
    rest: Seq<char>,
)
    requires
        state.buffer == seq!['/', '/'] + comment + rest,
        !has_line_end(comment),
        rest.len() == 0 || is_line_end(rest[0]),
    ensures
        state.front_token() == (TokenView {
            kind: MSDToken::Comment,
            text: seq!['/', '/'] + comment,
        }),
        state.after_token() == (TokenizerState { buffer: rest, ..state }),
{
    let line = state.buffer.skip(2);
    assert(line =~= comment + rest);
    assert forall|j: int| 0 <= j < comment.len() implies !is_line_end(#[trigger] line[j]) by {
        assert(line[j] == comment[j]);
    }
    lemma_line_len(line, comment.len() as int);
    assert(state.buffer.take(2 + comment.len() as int) =~= seq!['/', '/'] + comment);
    assert(state.buffer.skip(2 + comment.len() as int) =~= rest);
}

/// The tokenizer as a state machine: input is handed over in chunks with
/// [`Tokenizer::feed`], and tokens are cut off with [`Tokenizer::take_token`].
///
/// A token is cut off only when the buffer holds a line break or the end of
/// the input was announced, so that an escape or a comment is never cut in
/// two where one chunk ends and the next begins.
#[derive(Debug, Clone)]
pub struct Tokenizer {
    escapes: bool,
    msd_buffer: VecDeque<char>,
    held: Vec<u8>,
    inside_parameter: bool,
    done_reading: bool,
    after_line_end: bool,
}

impl View for Tokenizer {
    type V = TokenizerState;

    closed spec fn view(&self) -> TokenizerState {
        TokenizerState {
            escapes: self.escapes,
            buffer: self.msd_buffer@,
            held: self.held@,
            inside_parameter: self.inside_parameter,
            done_reading: self.done_reading,
            after_line_end: self.after_line_end,
        }
    }
}

impl Tokenizer {
    /// A tokenizer that has seen no input.
    pub fn new(escapes: bool) -> (tokenizer: Self)
        ensures
            tokenizer@ == TokenizerState::initial(escapes),
    {
        Tokenizer {
            escapes,
            msd_buffer: VecDeque::new(),
            held: Vec::new(),
            inside_parameter: false,
            done_reading: false,
            after_line_end: false,
        }
    }

    /// Hands over the bytes that a read returned. An empty chunk announces
    /// the end of the input.
    ///
    /// A character whose bytes are parted by the end of a chunk is read
    /// whole when the next chunk brings the rest.
    pub fn feed(&mut self, chunk: &[u8])
        ensures
            final(self)@ == old(self)@.fed(chunk@),
    {
        if chunk.len() == 0 {
            let text = decode(self.held.as_slice());
            put_back(&mut self.msd_buffer, text.as_str());
            self.held = Vec::new();
            self.done_reading = true;
        } else {
            let mut bytes: Vec<u8> = Vec::new();
            bytes.append(&mut self.held);
            let mut rest = slice_to_vec(chunk);
            bytes.append(&mut rest);
            let complete = finished_length(&bytes);
            let text = decode(slice_subrange(bytes.as_slice(), 0, complete));
            put_back(&mut self.msd_buffer, text.as_str());
            self.held = bytes.split_off(complete);
        }
    }

    /// Tells whether the input has ended and every token was cut off.
    pub fn is_exhausted(&self) -> (b: bool)
        ensures
            b == self@.exhausted(),
    {
        self.done_reading && self.msd_buffer.len() == 0
    }

    /// Cuts the next token off the buffer, if one can be cut off yet.
    pub fn take_token(&mut self) -> (token: Option<MSDTokenMatch>)
        ensures
            (final(self)@, token_view(token)) == old(self)@.take(),
    {
        if !((self.done_reading && self.msd_buffer.len() > 0) || contains_line_end(
            &self.msd_buffer,
        )) {
            return None;
        }
        let (token, n) = match_front(
            &self.msd_buffer,
            self.escapes,
            self.inside_parameter,
            self.after_line_end,
        );
        proof {
            lemma_first_token_len_bounds(self.msd_buffer@, self.escapes);
        }
        let last = self.msd_buffer[n - 1];
        let text = take_front(&mut self.msd_buffer, n);
        match token {
            MSDToken::StartParameter => {
                self.inside_parameter = true;
            },
            MSDToken::EndParameter => {
                self.inside_parameter = false;
            },
            MSDToken::Text => {
                self.after_line_end = char_is_line_end(last);
            },
            _ => {},
        }
        Some(MSDTokenMatch { token, text })
    }
}

/// How many bytes a lexer reads at a time, at most.
pub const BUFFER_SIZE: usize = 4096;

/// The length of the next chunk that is read from `unread`.
pub open spec fn chunk_len(unread: Seq<u8>) -> int {
    if unread.len() < BUFFER_SIZE {
        unread.len() as int
    } else {
        BUFFER_SIZE as int
    }
}

/// The text that is read from a document chunk by chunk, after the bytes in
/// `held` that an earlier chunk left unfinished.
pub open spec fn streamed_text(held: Seq<u8>, unread: Seq<u8>) -> Seq<char>
    decreases unread.len(),
{
    if unread.len() == 0 {
        decoded_text(held)
    } else {
        let bytes = held + unread.take(chunk_len(unread));
        decoded_text(bytes.take(finished_len(bytes))) + streamed_text(
            bytes.skip(finished_len(bytes)),
            unread.skip(chunk_len(unread)),
        )
    }
}

/// The texts of a sequence of tokens, one after the other.
pub open spec fn joined_text(tokens: Seq<TokenView>) -> Seq<char>
    decreases tokens.len(),
{
    if tokens.len() == 0 {
        Seq::empty()
    } else {
        tokens[0].text + joined_text(tokens.drop_first())
    }
}

/// A sequence of tokens as specifications see it.
pub open spec fn token_views(tokens: Seq<MSDTokenMatch>) -> Seq<TokenView> {
    Seq::new(tokens.len(), |i: int| tokens[i]@)
}

/// What an [`MSDLexer`] holds, as specifications see it.
pub struct LexerState {
    /// The bytes of the document that were not read yet.
    pub unread: Seq<u8>,
    /// The tokenizer that the bytes are fed to.
    pub tokenizer: TokenizerState,
}

impl LexerState {
    /// The state of a lexer that has read nothing of `document`.
    pub open spec fn initial(document: Seq<u8>, escapes: bool) -> LexerState {
        LexerState { unread: document, tokenizer: TokenizerState::initial(escapes) }
    }

    /// The end of the input is announced only when the document is read up,
    /// and no bytes are held back after it.
    pub open spec fn wf(self) -> bool {
        self.tokenizer.done_reading ==> self.unread.len() == 0 && self.tokenizer.held.len() == 0
    }

    /// The text that is still to be cut into tokens.
    pub open spec fn pending_text(self) -> Seq<char> {
        self.tokenizer.buffer + streamed_text(self.tokenizer.held, self.unread)
    }

    /// The state after one read: the next chunk went to the tokenizer.
    pub open spec fn after_read(self) -> LexerState {
        LexerState {
            unread: self.unread.skip(chunk_len(self.unread)),
            tokenizer: self.tokenizer.fed(self.unread.take(chunk_len(self.unread))),
        }
    }

    /// The state after the token at the front was cut off.
    pub open spec fn after_token(self) -> LexerState {
        LexerState { unread: self.unread, tokenizer: self.tokenizer.after_token() }
    }

    /// What asking for a token gives. Where the tokenizer can cut one off,
    /// it does, and nothing is read. Else chunks are read, one by one, until
    /// it can, or until nothing is left.
    pub open spec fn next_token(self) -> (LexerState, Option<TokenView>)
        decreases self.unread.len(), (if self.tokenizer.done_reading { 0nat } else { 1nat }),
    {
        if self.tokenizer.ready() {
            (self.after_token(), Some(self.tokenizer.front_token()))
        } else if self.tokenizer.exhausted() {
            (self, None)
        } else {
            self.after_read().next_token()
        }
    }

    /// `self` is nearer to the end of its work than `other`.
    pub open spec fn precedes(self, other: LexerState) -> bool {
        ||| self.unread.len() < other.unread.len()
        ||| self.unread.len() == other.unread.len() && self.tokenizer.done_reading
            && !other.tokenizer.done_reading
        ||| self.unread.len() == other.unread.len() && self.tokenizer.done_reading
            == other.tokenizer.done_reading && self.tokenizer.buffer.len()
            < other.tokenizer.buffer.len()
    }

    /// `self` is as near to the end of its work as `other`, or nearer.
    pub open spec fn not_behind(self, other: LexerState) -> bool {
        ||| self.precedes(other)
        ||| self.unread.len() == other.unread.len() && self.tokenizer.done_reading
            == other.tokenizer.done_reading && self.tokenizer.buffer.len()
            == other.tokenizer.buffer.len()
    }

    /// All the tokens that are still to come.
    pub open spec fn tokens(self) -> Seq<TokenView>
        decreases
            self.unread.len(),
            (if self.tokenizer.done_reading { 0nat } else { 1nat }),
            self.tokenizer.buffer.len(),
    {
        let (next, token) = self.next_token();
        match token {
            Some(token) => {
                proof {
                    lemma_next_token_precedes(self);
                }
                seq![token] + next.tokens()
            },
            None => Seq::empty(),
        }
    }
}

/// A token that a lexer gives brings it nearer to the end of its work.
pub proof fn lemma_next_token_precedes(state: LexerState)
    ensures
        state.next_token().1 is Some ==> state.next_token().0.precedes(state),
    decreases state.unread.len(), (if state.tokenizer.done_reading { 0nat } else { 1nat }),
{
    if state.tokenizer.ready() {
        lemma_first_token_len_bounds(state.tokenizer.buffer, state.tokenizer.escapes);
    } else if !state.tokenizer.exhausted() {
        lemma_next_token_precedes(state.after_read());
    }
}

/// Asking a lexer for a token never takes it further from the end of its
/// work.
pub proof fn lemma_next_token_not_behind(state: LexerState)
    ensures
        state.next_token().0.not_behind(state),
    decreases state.unread.len(), (if state.tokenizer.done_reading { 0nat } else { 1nat }),
{
    if state.tokenizer.ready() {
        lemma_next_token_precedes(state);
    } else if !state.tokenizer.exhausted() {
        lemma_next_token_not_behind(state.after_read());
    }
}

/// What holds of a lexer's state before a token is asked for that holds
/// after it too: the end is announced only when the document is read up.
pub proof fn lemma_next_token_wf(state: LexerState)
    requires
        state.wf(),
    ensures
        state.next_token().0.wf(),
    decreases state.unread.len(), (if state.tokenizer.done_reading { 0nat } else { 1nat }),
{
    if !state.tokenizer.ready() && !state.tokenizer.exhausted() {
        lemma_next_token_wf(state.after_read());
    }
}

/// Nothing is lost or added where a token is cut off: the token's text and
/// the text still pending are the text that was pending before. A token holds
/// text, and none comes exactly when no text is pending.
pub proof fn lemma_next_token_lossless(state: LexerState)
    requires
        state.wf(),
    ensures
        state.next_token().1 matches Some(token) ==> state.pending_text() == token.text
            + state.next_token().0.pending_text(),
        state.next_token().1 matches Some(token) ==> token.text.len() > 0,
        state.next_token().1 is None ==> state.next_token().0.tokenizer.exhausted(),
        state.next_token().1 is None <==> state.pending_text() == Seq::<char>::empty(),
    decreases state.unread.len(), (if state.tokenizer.done_reading { 0nat } else { 1nat }),
{
    if state.tokenizer.ready() {
        lemma_first_token_len_bounds(state.tokenizer.buffer, state.tokenizer.escapes);
        let token = state.tokenizer.front_token();
        assert(state.tokenizer.buffer =~= token.text + state.tokenizer.after_token().buffer);
        assert(state.pending_text() =~= token.text + state.after_token().pending_text());
    } else if state.tokenizer.exhausted() {
        assert(state.pending_text() =~= Seq::<char>::empty());
    } else {
        let read = state.after_read();
        assert(read.pending_text() =~= state.pending_text());
        lemma_next_token_lossless(read);
    }
}

/// The tokens of a document hold its text: joined one after the other, their
/// texts are the text that was pending, with no gap, overlap or change.
pub proof fn lemma_tokens_lossless(state: LexerState)
    requires
        state.wf(),
    ensures
        joined_text(state.tokens()) == state.pending_text(),
    decreases
        state.unread.len(),
        (if state.tokenizer.done_reading { 0nat } else { 1nat }),
        state.tokenizer.buffer.len(),
{
    let (next, token) = state.next_token();
    lemma_next_token_lossless(state);
    lemma_next_token_precedes(state);
    lemma_next_token_wf(state);
    if token is Some {
        lemma_tokens_lossless(next);
        assert(state.tokens().drop_first() == next.tokens());
    }
}

/// Where a document is valid UTF-8, the text that is read from it chunk by
/// chunk is the text that it encodes, wherever the chunks end.
pub proof fn lemma_streamed_text_decodes(held: Seq<u8>, unread: Seq<u8>)
    requires
        valid_utf8(held + unread),
    ensures
        streamed_text(held, unread) == decode_utf8(held + unread),
    decreases unread.len(),
{
    broadcast use {vstd::utf8::valid_utf8_split, vstd::utf8::decode_utf8_split};

    let whole = held + unread;
    if unread.len() == 0 {
        assert(whole == held);
    } else {
        let chunk = unread.take(chunk_len(unread));
        let rest = unread.skip(chunk_len(unread));
        let bytes = held + chunk;
        let k = finished_len(bytes);
        assert(whole.take(bytes.len() as int) == bytes);
        lemma_finished_len_is_boundary(whole, bytes.len() as int);
        assert(whole.subrange(0, k) == bytes.take(k));
        assert(whole.subrange(k, whole.len() as int) == bytes.skip(k) + rest);
        assert(valid_utf8(whole.subrange(0, k)));
        assert(valid_utf8(whole.subrange(k, whole.len() as int)));
        assert(decode_utf8(whole) == decode_utf8(whole.subrange(0, k)) + decode_utf8(
            whole.subrange(k, whole.len() as int),
        ));
        lemma_streamed_text_decodes(bytes.skip(k), rest);
    }
}

/// The tokens of a document that is valid UTF-8 hold the document's bytes
/// exactly: their texts, joined and encoded, are the bytes.
pub proof fn lemma_tokens_hold_document(document: Seq<u8>, escapes: bool)
    requires
        valid_utf8(document),
    ensures
        joined_text(LexerState::initial(document, escapes).tokens()) == decode_utf8(document),
        encode_utf8(joined_text(LexerState::initial(document, escapes).tokens())) == document,
{
    broadcast use vstd::utf8::decode_utf8_encode_utf8;

    let state = LexerState::initial(document, escapes);
    lemma_tokens_lossless(state);
    assert(Seq::<u8>::empty() + document == document);
    lemma_streamed_text_decodes(Seq::empty(), document);
    assert(state.pending_text() == streamed_text(Seq::empty(), document));
}

/// A lexer over a document held in memory. It reads the document in chunks
/// of at most [`BUFFER_SIZE`] bytes and gives its tokens one by one.
#[derive(Debug, Clone)]
pub struct MSDLexer<'a> {
    reader: &'a [u8],
    tokenizer: Tokenizer,
}

impl<'a> View for MSDLexer<'a> {
    type V = LexerState;

    closed spec fn view(&self) -> LexerState {
        LexerState { unread: self.reader@, tokenizer: self.tokenizer@ }
    }
}

impl<'a> MSDLexer<'a> {
    /// A lexer that has read nothing of the document in `reader`; `escapes`
    /// tells whether a backslash escapes the character after it.
    pub fn new(reader: &'a [u8], escapes: bool) -> (lexer: Self)
        ensures
            lexer@ == LexerState::initial(reader@, escapes),
    {
        MSDLexer { reader, tokenizer: Tokenizer::new(escapes) }
    }

    /// Gives the next token. Reads from the document only when no token can
    /// be cut off what was read before. Gives `None` once the document is
    /// read up and all of its text was given out in tokens.
    pub fn next_token(&mut self) -> (token: Option<MSDTokenMatch>)
        ensures
            (final(self)@, token_view(token)) == old(self)@.next_token(),
    {
        loop
            invariant
                self@.next_token() == old(self)@.next_token(),
            decreases
                self@.unread.len(),
                (if self@.tokenizer.done_reading { 0nat } else { 1nat }),
        {
            match self.tokenizer.take_token() {
                Some(token) => {
                    return Some(token);
                },
                None => {},
            }
            if self.tokenizer.is_exhausted() {
                return None;
            }
            let n = if self.reader.len() < BUFFER_SIZE {
                self.reader.len()
            } else {
                BUFFER_SIZE
            };
            let (chunk, rest) = self.reader.split_at(n);
            self.reader = rest;
            self.tokenizer.feed(chunk);
        }
    }

    /// Reads the next token, as [`MSDLexer::next_token`] does.
    pub fn next(&mut self) -> (token: Option<MSDTokenMatch>)
        ensures
            (final(self)@, token_view(token)) == old(self)@.next_token(),
    {
        self.next_token()
    }

    /// Reads all the tokens that are left.
    ///
    /// Where the lexer has read nothing yet, or kept to its own reads, the
    /// texts of the tokens are, one after the other, the text that was
    /// pending.
    pub fn collect(self) -> (tokens: Vec<MSDTokenMatch>)
        ensures
            token_views(tokens@) == self@.tokens(),
            self@.wf() ==> joined_text(token_views(tokens@)) == self@.pending_text(),
    {
        let mut lexer = self;
        let mut tokens: Vec<MSDTokenMatch> = Vec::new();
        loop
            invariant
                self@.tokens() == token_views(tokens@) + lexer@.tokens(),
            decreases
                lexer@.unread.len(),
                (if lexer@.tokenizer.done_reading { 0nat } else { 1nat }),
                lexer@.tokenizer.buffer.len(),
        {
            let ghost before = lexer@;
            let ghost taken = token_views(tokens@);
            proof {
                lemma_next_token_precedes(before);
            }
            match lexer.next_token() {
                Some(token) => {
                    tokens.push(token);
                    assert(token_views(tokens@) == taken + seq![token@]);
                    assert(before.tokens() == seq![token@] + lexer@.tokens());
                },
                None => {
                    assert(before.tokens() == Seq::<TokenView>::empty());
                    proof {
                        if self@.wf() {
                            lemma_tokens_lossless(self@);
                        }
                    }
                    return tokens;
                },
            }
        }
    }
}

/// A lexer over the document in `reader`; `escapes` tells whether a
/// backslash escapes the character after it.
pub fn lex_msd<'a>(reader: &'a [u8], escapes: bool) -> (lexer: MSDLexer<'a>)
    ensures
        lexer@ == LexerState::initial(reader@, escapes),
{
    MSDLexer::new(reader, escapes)
}

} // verus!
