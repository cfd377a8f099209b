//! The parser: it assembles tokens into parameters.
//!
//! Outside a parameter `#` opens one. Inside, text and escapes add to the
//! last component, `:` begins a new component, and `;`, the next `#` or the
//! end of the document closes the parameter. Comments are dropped. Text
//! outside a parameter is stray: it is passed over if it is blank or a
//! byte-order mark, or if stray text is to be ignored, and is an error
//! otherwise.

use vstd::prelude::*;
use crate::lexer::{
    lemma_next_token_not_behind, lemma_next_token_precedes, lemma_next_token_wf, lex_msd, LexerState, MSDLexer, MSDToken, MSDTokenMatch, TokenView,
    TokenizerState,
};
use crate::parameter::{component_at, MSDParameter};
use crate::text::{char_is_whitespace, chars_of, is_whitespace, option_text, texts};

verus! {

/// The error for stray text: text outside any parameter.
#[derive(Debug, PartialEq, Clone, Hash, PartialOrd)]
pub struct MSDParserError(pub String);

impl View for MSDParserError {
    type V = Seq<char>;

    open spec fn view(&self) -> Seq<char> {
        self.0@
    }
}

impl MSDParserError {
    /// The error in words.
    pub fn to_string(&self) -> (s: String)
        ensures
            s@ == "MSDParserError: "@ + self@,
    {
        String::from_str("MSDParserError: ").concat(self.0.as_str())
    }
}

/// What a parser gives when it is asked for a parameter, as specifications
/// see it: a parameter's components, an error's text, or nothing.
pub type Outcome = Option<Result<Seq<Seq<char>>, Seq<char>>>;

/// What a parser gave in a row, as specifications see it.
pub open spec fn outcome_views(outcomes: Seq<Result<MSDParameter, MSDParserError>>) -> Seq<
    Result<Seq<Seq<char>>, Seq<char>>,
> {
    Seq::new(outcomes.len(), |i: int| outcome_view(Some(outcomes[i])).unwrap())
}

/// What a parser gives, as specifications see it.
pub open spec fn outcome_view(outcome: Option<Result<MSDParameter, MSDParserError>>) -> Outcome {
    match outcome {
        Some(Ok(parameter)) => Some(Ok(parameter@)),
        Some(Err(error)) => Some(Err(error@)),
        None => None,
    }
}

/// The first character of `text` that is not whitespace, if there is one.
pub open spec fn first_visible(text: Seq<char>) -> Option<char>
    decreases text.len(),
{
    if text.len() == 0 {
        None
    } else if !is_whitespace(text[0]) {
        Some(text[0])
    } else {
        first_visible(text.drop_first())
    }
}

/// The text is a byte-order mark and nothing else.
pub open spec fn is_byte_order_mark(text: Seq<char>) -> bool {
    text == seq!['\u{feff}']
}

/// Text outside a parameter that is not passed over in silence: it holds
/// more than whitespace and is not a byte-order mark.
pub open spec fn is_stray(text: Seq<char>) -> bool {
    first_visible(text) is Some && !is_byte_order_mark(text)
}

/// What is said of stray text: its first visible character, and the place,
/// which is the key of the parameter before it or the start of the document.
pub open spec fn stray_message(text: Seq<char>, last_key: Option<Seq<char>>) -> Seq<char> {
    "stray '"@.push(first_visible(text).unwrap()) + "' encountered "@ + (match last_key {
        Some(key) => "after '"@ + key + "' parameter"@,
        None => "at start of document"@,
    })
}

/// Text has no visible character exactly if all of it is whitespace.
pub proof fn lemma_first_visible(text: Seq<char>)
    ensures
        first_visible(text) is None <==> forall|i: int|
            0 <= i < text.len() ==> is_whitespace(#[trigger] text[i]),
        first_visible(text) matches Some(c) ==> !is_whitespace(c) && text.contains(c),
    decreases text.len(),
{
    if text.len() > 0 {
        let rest = text.drop_first();
        lemma_first_visible(rest);
        if is_whitespace(text[0]) {
            if first_visible(rest) is None {
                assert forall|i: int| 0 <= i < text.len() implies is_whitespace(
                    #[trigger] text[i],
                ) by {
                    if i > 0 {
                        assert(text[i] == rest[i - 1]);
                    }
                }
            } else {
                let c = first_visible(rest).unwrap();
                let i = choose|i: int| 0 <= i < rest.len() && rest[i] == c;
                assert(text[i + 1] == c);
            }
            if forall|i: int| 0 <= i < text.len() ==> is_whitespace(#[trigger] text[i]) {
                assert forall|i: int| 0 <= i < rest.len() implies is_whitespace(
                    #[trigger] rest[i],
                ) by {
                    assert(rest[i] == text[i + 1]);
                }
            }
        } else {
            assert(text[0] == first_visible(text).unwrap());
        }
    }
}

/// What an [`Assembler`] holds, as specifications see it.
pub struct AssemblerState {
    /// Whether stray text is passed over in silence.
    pub ignore_stray_text: bool,
    /// The components of the parameter that is open.
    pub components: Seq<Seq<char>>,
    /// Whether a parameter is open.
    pub inside_parameter: bool,
    /// The key of the last parameter that was given out.
    pub last_key: Option<Seq<char>>,
}

impl AssemblerState {
    /// The state before any token.
    pub open spec fn initial(ignore_stray_text: bool) -> AssemblerState {
        AssemblerState {
            ignore_stray_text,
            components: Seq::empty(),
            inside_parameter: false,
            last_key: None,
        }
    }

    /// Components are held exactly while a parameter is open.
    pub open spec fn wf(self) -> bool {
        self.inside_parameter <==> self.components.len() > 0
    }

    /// The state after `piece` was added to the last component.
    pub open spec fn with_text(self, piece: Seq<char>) -> AssemblerState {
        if self.components.len() > 0 {
            AssemblerState {
                components: self.components.drop_last().push(self.components.last() + piece),
                ..self
            }
        } else {
            self
        }
    }

    /// The state after a new, empty component was begun.
    pub open spec fn with_component(self) -> AssemblerState {
        AssemblerState {
            components: self.components.push(Seq::empty()),
            inside_parameter: true,
            ..self
        }
    }

    /// The state after the open parameter was given out.
    pub open spec fn closed(self) -> AssemblerState {
        AssemblerState {
            components: Seq::empty(),
            inside_parameter: false,
            last_key: component_at(self.components, 0),
            ..self
        }
    }

    /// What a token does: the state after it, and what is given out.
    pub open spec fn accept(self, token: TokenView) -> (AssemblerState, Outcome) {
        match token.kind {
            MSDToken::Text | MSDToken::Escape => {
                if self.inside_parameter {
                    (self.with_text(token.meaning()), None)
                } else if !self.ignore_stray_text && is_stray(token.text) {
                    (self, Some(Err(stray_message(token.text, self.last_key))))
                } else {
                    (self, None)
                }
            },
            MSDToken::StartParameter => {
                if self.inside_parameter {
                    (self.closed().with_component(), Some(Ok(self.components)))
                } else {
                    (self.with_component(), None)
                }
            },
            MSDToken::EndParameter => {
                if self.inside_parameter {
                    (self.closed(), Some(Ok(self.components)))
                } else {
                    (self, None)
                }
            },
            MSDToken::NextComponent => {
                if self.inside_parameter {
                    (self.with_component(), None)
                } else {
                    (self, None)
                }
            },
            MSDToken::Comment => (self, None),
        }
    }

    /// What the end of the tokens does: a parameter that is still open is
    /// closed and given out.
    pub open spec fn finish(self) -> (AssemblerState, Outcome) {
        if self.inside_parameter {
            (self.closed(), Some(Ok(self.components)))
        } else {
            (self, None)
        }
    }
}

impl TokenView {
    /// The text that a token stands for: an escape stands for what follows
    /// its backslash, any other token for its own text.
    pub open spec fn meaning(self) -> Seq<char> {
        if self.kind == MSDToken::Escape && self.text.len() > 0 {
            self.text.skip(1)
        } else {
            self.text
        }
    }
}

/// A token keeps a state in order, and a parameter that is given out has a
/// component: its key.
pub proof fn lemma_accept_wf(state: AssemblerState, token: TokenView)
    requires
        state.wf(),
    ensures
        state.accept(token).0.wf(),
        state.accept(token).1 matches Some(Ok(components)) ==> components.len() > 0,
{
}

/// A comment changes nothing: the assembler is after it as it was before,
/// and nothing is given out.
pub proof fn lemma_comment_changes_nothing(state: AssemblerState, text: Seq<char>)
    ensures
        state.accept(TokenView { kind: MSDToken::Comment, text }) == (state, None::<
            Result<Seq<Seq<char>>, Seq<char>>,
        >),
{
}

/// Where text is cut in two does not matter inside a parameter, nor where
/// stray text is ignored: two `Text` tokens do what one token with the text
/// of both does.
pub proof fn lemma_text_in_two_tokens(state: AssemblerState, first: Seq<char>, second: Seq<char>)
    requires
        state.inside_parameter || state.ignore_stray_text,
    ensures
        state.accept(TokenView { kind: MSDToken::Text, text: first }).1 is None,
        state.accept(TokenView { kind: MSDToken::Text, text: first }).0.accept(
            TokenView { kind: MSDToken::Text, text: second },
        ) == state.accept(TokenView { kind: MSDToken::Text, text: first + second }),
{
    if state.inside_parameter && state.components.len() > 0 {
        let last = state.components.last();
        assert((last + first) + second =~= last + (first + second));
        assert(state.with_text(first).with_text(second).components =~= state.with_text(
            first + second,
        ).components);
    }
}

/// The tokenizer and the assembler agree on whether a parameter is open:
/// where they agree before a token is cut off and taken, they agree after.
pub proof fn lemma_lockstep(tokenizer: TokenizerState, assembler: AssemblerState)
    requires
        tokenizer.inside_parameter == assembler.inside_parameter,
    ensures
        tokenizer.after_token().inside_parameter == assembler.accept(
            tokenizer.front_token(),
        ).0.inside_parameter,
{
}

/// The end of the tokens keeps a state in order and leaves no parameter
/// open, and a parameter that is given out has a component: its key.
pub proof fn lemma_finish_wf(state: AssemblerState)
    requires
        state.wf(),
    ensures
        state.finish().0.wf(),
        !state.finish().0.inside_parameter,
        state.finish().1 matches Some(Ok(components)) ==> components.len() > 0,
{
}

/// Finds the first character of `chars` that is not whitespace.
fn find_visible(chars: &Vec<char>) -> (found: Option<char>)
    ensures
        found == first_visible(chars@),
{
    let mut i: usize = 0;
    assert(chars@.skip(0) == chars@);
    while i < chars.len()
        invariant
            i <= chars.len(),
            first_visible(chars@.skip(i as int)) == first_visible(chars@),
        decreases chars.len() - i,
    {
        let ghost rest = chars@.skip(i as int);
        let c = chars[i];
        assert(rest[0] == c);
        if !char_is_whitespace(c) {
            return Some(c);
        }
        i = i + 1;
        assert(rest.drop_first() == chars@.skip(i as int));
    }
    None
}

/// The parser as a state machine: tokens are handed over with
/// [`Assembler::accept`], and the end of the tokens is announced with
/// [`Assembler::finish`].
#[derive(Debug, Clone)]
pub struct Assembler {
    ignore_stray_text: bool,
    components: Vec<String>,
    inside_parameter: bool,
    last_key: Option<String>,
}

impl View for Assembler {
    type V = AssemblerState;

    closed spec fn view(&self) -> AssemblerState {
        AssemblerState {
            ignore_stray_text: self.ignore_stray_text,
            components: texts(self.components@),
            inside_parameter: self.inside_parameter,
            last_key: option_text(self.last_key),
        }
    }
}

impl Assembler {
    /// An assembler that has seen no token; `ignore_stray_text` tells
    /// whether text outside parameters is passed over in silence.
    pub fn new(ignore_stray_text: bool) -> (assembler: Self)
        ensures
            assembler@ == AssemblerState::initial(ignore_stray_text),
    {
        let assembler = Assembler {
            ignore_stray_text,
            components: Vec::new(),
            inside_parameter: false,
            last_key: None,
        };
        assert(assembler@.components =~= Seq::empty());
        assembler
    }

    /// Tells whether stray text is passed over in silence.
    pub fn ignores_stray_text(&self) -> (b: bool)
        ensures
            b == self@.ignore_stray_text,
    {
        self.ignore_stray_text
    }

    /// Tells whether a parameter is open.
    pub fn is_inside_parameter(&self) -> (b: bool)
        ensures
            b == self@.inside_parameter,
    {
        self.inside_parameter
    }

    /// The components of the parameter that is open.
    pub fn components(&self) -> (components: &Vec<String>)
        ensures
            texts(components@) == self@.components,
    {
        &self.components
    }

    /// The key of the last parameter that was given out.
    pub fn last_key(&self) -> (key: &Option<String>)
        ensures
            option_text(*key) == self@.last_key,
    {
        &self.last_key
    }

    /// Begins a new, empty component.
    fn begin_component(&mut self)
        ensures
            final(self)@ == old(self)@.with_component(),
    {
        self.inside_parameter = true;
        self.components.push(String::new());
        assert(self@.components =~= old(self)@.components.push(Seq::empty()));
    }

    /// Gives the open parameter out.
    fn close(&mut self) -> (parameter: MSDParameter)
        ensures
            final(self)@ == old(self)@.closed(),
            parameter@ == old(self)@.components,
    {
        let mut components: Vec<String> = Vec::new();
        components.append(&mut self.components);
        let parameter = MSDParameter::new(components);
        self.last_key = parameter.key();
        self.inside_parameter = false;
        assert(self@.components =~= Seq::empty());
        assert(parameter@ =~= old(self)@.components);
        parameter
    }

    /// Adds text to the last component.
    fn add_text(&mut self, piece: &str)
        ensures
            final(self)@ == old(self)@.with_text(piece@),
    {
        match self.components.pop() {
            Some(last) => {
                self.components.push(last.concat(piece));
                assert(self@.components =~= old(self)@.components.drop_last().push(
                    old(self)@.components.last() + piece@,
                ));
            },
            None => {
                assert(self@.components =~= old(self)@.components);
            },
        }
    }

    /// Says what is wrong with stray text.
    fn stray_error(&self, first: char) -> (error: MSDParserError)
        ensures
            error@ == "stray '"@.push(first) + "' encountered "@ + (match self@.last_key {
                Some(key) => "after '"@ + key + "' parameter"@,
                None => "at start of document"@,
            }),
    {
        let mut message = String::from_str("stray '");
        message.push(first);
        message.append("' encountered ");
        let ghost head = message@;
        match &self.last_key {
            Some(key) => {
                message.append("after '");
                message.append(key.as_str());
                message.append("' parameter");
                assert(message@ =~= head + ("after '"@ + key@ + "' parameter"@));
            },
            None => {
                message.append("at start of document");
            },
        }
        MSDParserError(message)
    }

    /// Takes the next token. Gives a parameter where the token closes one,
    /// an error where it is stray text that is not ignored, else nothing.
    pub fn accept(&mut self, token: MSDTokenMatch) -> (outcome: Option<
        Result<MSDParameter, MSDParserError>,
    >)
        ensures
            (final(self)@, outcome_view(outcome)) == old(self)@.accept(token@),
    {
        match token.token {
            MSDToken::Text | MSDToken::Escape => {
                if self.inside_parameter {
                    let text = token.text.as_str();
                    let len = text.unicode_len();
                    if token.token == MSDToken::Escape && len > 0 {
                        self.add_text(text.substring_char(1, len));
                    } else {
                        self.add_text(text);
                    }
                    None
                } else if !self.ignore_stray_text {
                    let chars = chars_of(token.text.as_str());
                    let is_mark = chars.len() == 1 && chars[0] == '\u{feff}';
                    assert(is_mark == is_byte_order_mark(chars@)) by {
                        if is_mark {
                            assert(chars@ =~= seq!['\u{feff}']);
                        }
                    }
                    match find_visible(&chars) {
                        Some(first) if !is_mark => Some(Err(self.stray_error(first))),
                        _ => None,
                    }
                } else {
                    None
                }
            },
            MSDToken::StartParameter => {
                if self.inside_parameter {
                    let parameter = self.close();
                    self.begin_component();
                    Some(Ok(parameter))
                } else {
                    self.begin_component();
                    None
                }
            },
            MSDToken::EndParameter => {
                if self.inside_parameter {
                    Some(Ok(self.close()))
                } else {
                    None
                }
            },
            MSDToken::NextComponent => {
                if self.inside_parameter {
                    self.begin_component();
                }
                None
            },
            MSDToken::Comment => None,
        }
    }

    /// Takes the end of the tokens: gives the parameter that is still open,
    /// if there is one.
    pub fn finish(&mut self) -> (outcome: Option<Result<MSDParameter, MSDParserError>>)
        ensures
            (final(self)@, outcome_view(outcome)) == old(self)@.finish(),
    {
        if self.inside_parameter {
            Some(Ok(self.close()))
        } else {
            None
        }
    }
}

/// What an [`MSDParser`] holds, as specifications see it.
pub struct ParserState {
    /// The lexer that the tokens come from.
    pub lexer: LexerState,
    /// The assembler that the tokens go to.
    pub assembler: AssemblerState,
}

impl ParserState {
    /// The state of a parser that has read nothing of `document`.
    pub open spec fn initial(
        document: Seq<u8>,
        escapes: bool,
        ignore_stray_text: bool,
    ) -> ParserState {
        ParserState {
            lexer: LexerState::initial(document, escapes),
            assembler: AssemblerState::initial(ignore_stray_text),
        }
    }

    /// Both parts are in order.
    pub open spec fn wf(self) -> bool {
        self.lexer.wf() && self.assembler.wf()
    }

    /// `self` is nearer to the end of its work than `other`.
    pub open spec fn precedes(self, other: ParserState) -> bool {
        ||| self.lexer.precedes(other.lexer)
        ||| self.lexer.not_behind(other.lexer) && !self.assembler.inside_parameter
            && other.assembler.inside_parameter
    }

    /// All that is still to be given out: parameters and errors for stray
    /// text, in the order of the document.
    pub open spec fn outcomes(self) -> Seq<Result<Seq<Seq<char>>, Seq<char>>>
        decreases
            self.lexer.unread.len(),
            (if self.lexer.tokenizer.done_reading { 0nat } else { 1nat }),
            self.lexer.tokenizer.buffer.len(),
            (if self.assembler.inside_parameter { 1nat } else { 0nat }),
    {
        let (next, outcome) = self.next_parameter();
        match outcome {
            Some(outcome) => {
                proof {
                    lemma_next_parameter_progress(self);
                }
                seq![outcome] + next.outcomes()
            },
            None => Seq::empty(),
        }
    }

    /// What asking for a parameter gives: tokens are taken until one makes
    /// the assembler give something out, or until they end.
    pub open spec fn next_parameter(self) -> (ParserState, Outcome)
        decreases
            self.lexer.unread.len(),
            (if self.lexer.tokenizer.done_reading { 0nat } else { 1nat }),
            self.lexer.tokenizer.buffer.len(),
    {
        let (lexer, token) = self.lexer.next_token();
        match token {
            Some(token) => {
                let (assembler, outcome) = self.assembler.accept(token);
                if outcome is Some {
                    (ParserState { lexer, assembler }, outcome)
                } else {
                    proof {
                        lemma_next_token_precedes(self.lexer);
                    }
                    ParserState { lexer, assembler }.next_parameter()
                }
            },
            None => {
                let (assembler, outcome) = self.assembler.finish();
                (ParserState { lexer, assembler }, outcome)
            },
        }
    }
}

/// Every outcome that a parser gives brings it nearer to the end of its
/// work: its lexer gets nearer, or stays where it is while the parameter
/// that was open is closed.
pub proof fn lemma_next_parameter_progress(state: ParserState)
    ensures
        state.next_parameter().1 is Some ==> state.next_parameter().0.precedes(state),
    decreases
        state.lexer.unread.len(),
        (if state.lexer.tokenizer.done_reading { 0nat } else { 1nat }),
        state.lexer.tokenizer.buffer.len(),
{
    let (lexer, token) = state.lexer.next_token();
    lemma_next_token_precedes(state.lexer);
    lemma_next_token_not_behind(state.lexer);
    match token {
        Some(token) => {
            let (assembler, outcome) = state.assembler.accept(token);
            if outcome is None {
                lemma_next_parameter_progress(ParserState { lexer, assembler });
            }
        },
        None => {},
    }
}

/// A parser that is in order stays in order, and every parameter that it
/// gives has a component: its key.
pub proof fn lemma_next_parameter_wf(state: ParserState)
    requires
        state.wf(),
    ensures
        state.next_parameter().0.wf(),
        state.next_parameter().1 matches Some(Ok(components)) ==> components.len() > 0,
    decreases
        state.lexer.unread.len(),
        (if state.lexer.tokenizer.done_reading { 0nat } else { 1nat }),
        state.lexer.tokenizer.buffer.len(),
{
    let (lexer, token) = state.lexer.next_token();
    lemma_next_token_wf(state.lexer);
    lemma_next_token_precedes(state.lexer);
    match token {
        Some(token) => {
            let (assembler, outcome) = state.assembler.accept(token);
            lemma_accept_wf(state.assembler, token);
            if outcome is None {
                lemma_next_parameter_wf(ParserState { lexer, assembler });
            }
        },
        None => {
            lemma_finish_wf(state.assembler);
        },
    }
}

/// A parser over a document held in memory. It gives the document's
/// parameters one by one, and an error for each piece of stray text.
#[derive(Debug, Clone)]
pub struct MSDParser<'a> {
    tokens: MSDLexer<'a>,
    assembler: Assembler,
}

impl<'a> View for MSDParser<'a> {
    type V = ParserState;

    closed spec fn view(&self) -> ParserState {
        ParserState { lexer: self.tokens@, assembler: self.assembler@ }
    }
}

impl<'a> MSDParser<'a> {
    /// A parser that has read nothing of the document in `reader`.
    ///
    /// `escapes` tells whether a backslash escapes the character after it,
    /// `ignore_stray_text` whether text outside parameters is passed over.
    pub fn new(reader: &'a [u8], escapes: bool, ignore_stray_text: bool) -> (parser: Self)
        ensures
            parser@ == ParserState::initial(reader@, escapes, ignore_stray_text),
    {
        MSDParser { tokens: lex_msd(reader, escapes), assembler: Assembler::new(ignore_stray_text) }
    }

    /// Reads the next parameter. Gives an error for stray text, where it is
    /// not ignored; the parameters after it can still be read. Gives `None`
    /// once the document is read up.
    pub fn next_parameter(&mut self) -> (outcome: Option<Result<MSDParameter, MSDParserError>>)
        ensures
            (final(self)@, outcome_view(outcome)) == old(self)@.next_parameter(),
    {
        loop
            invariant
                self@.next_parameter() == old(self)@.next_parameter(),
            decreases
                self@.lexer.unread.len(),
                (if self@.lexer.tokenizer.done_reading { 0nat } else { 1nat }),
                self@.lexer.tokenizer.buffer.len(),
        {
            proof {
                lemma_next_token_precedes(self@.lexer);
            }
            match self.tokens.next_token() {
                Some(token) => {
                    match self.assembler.accept(token) {
                        Some(outcome) => {
                            return Some(outcome);
                        },
                        None => {},
                    }
                },
                None => {
                    return self.assembler.finish();
                },
            }
        }
    }

    /// Reads all that is left: the parameters, and an error for each piece of
    /// stray text that is not ignored.
    pub fn collect(self) -> (outcomes: Vec<Result<MSDParameter, MSDParserError>>)
        ensures
            outcome_views(outcomes@) == self@.outcomes(),
    {
        let mut parser = self;
        let mut outcomes: Vec<Result<MSDParameter, MSDParserError>> = Vec::new();
        loop
            invariant
                self@.outcomes() == outcome_views(outcomes@) + parser@.outcomes(),
            decreases
                parser@.lexer.unread.len(),
                (if parser@.lexer.tokenizer.done_reading { 0nat } else { 1nat }),
                parser@.lexer.tokenizer.buffer.len(),
                (if parser@.assembler.inside_parameter { 1nat } else { 0nat }),
        {
            let ghost before = parser@;
            let ghost given = outcome_views(outcomes@);
            proof {
                lemma_next_parameter_progress(before);
            }
            match parser.next_parameter() {
                Some(outcome) => {
                    outcomes.push(outcome);
                    assert(outcome_views(outcomes@) == given + seq![
                        outcome_view(Some(outcome)).unwrap(),
                    ]);
                    assert(before.outcomes() == seq![outcome_view(Some(outcome)).unwrap()]
                        + parser@.outcomes());
                },
                None => {
                    assert(before.outcomes() == Seq::<Result<Seq<Seq<char>>, Seq<char>>>::empty());
                    return outcomes;
                },
            }
        }
    }

    /// Reads the next parameter, as [`MSDParser::next_parameter`] does.
    pub fn next(&mut self) -> (outcome: Option<Result<MSDParameter, MSDParserError>>)
        ensures
            (final(self)@, outcome_view(outcome)) == old(self)@.next_parameter(),
    {
        self.next_parameter()
    }
}

/// A parser over the MSD document in `input`.
///
/// `escapes` tells whether a backslash escapes the character after it,
/// `ignore_stray_text` whether text outside parameters is passed over.
pub fn parse_msd<'a>(input: &'a [u8], escapes: bool, ignore_stray_text: bool) -> (parser:
    MSDParser<'a>)
    ensures
        parser@ == ParserState::initial(input@, escapes, ignore_stray_text),
{
    MSDParser::new(input, escapes, ignore_stray_text)
}

} // verus!
