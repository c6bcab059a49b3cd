//! The tokenizer, the grammar check over nesting frames, and the lazy
//! list and dict readers.
use vstd::prelude::*;
use crate::model::{
    ascii_chars, digits_value, fail, int_scan, is_failed, is_digit, is_int_prefix, is_int_text, lex,
    lex_less, lex_less_from, next_token_step, nonzero_digits_from, read_at, scan_end, skip_to,
    step, unexpected_at, validate, DecoderModel, Fault, Frame, IntScan, Lexed, TokenView,
    dict_next, list_next, next_object_step, object_step, read_object, NestedView, ObjectView,
};

verus! {

/// Text of a syntax error about byte `byte` at `offset`.
pub uninterp spec fn unexpected_text(byte: u8, offset: usize) -> Seq<char>;

/// Relies on `format!`: the text depends on the byte and the offset alone.
#[verifier::external_body]
fn describe_unexpected(byte: u8, offset: usize) -> (r: String)
    ensures
        r@ == unexpected_text(byte, offset),
{
    format!("Unexpected {:?} at offset {}", byte as char, offset)
}

/// Relies on `std::str::from_utf8`: ASCII bytes are valid UTF-8 and read as
/// the same characters, one per byte.
#[verifier::external_body]
fn ascii_text<'a>(b: &'a [u8]) -> (r: &'a str)
    requires
        forall|i: int| 0 <= i < b@.len() ==> b@[i] < 128,
    ensures
        r@ == ascii_chars(b@),
{
    std::str::from_utf8(b).unwrap()
}

#[derive(Clone, PartialEq, Eq, PartialOrd, Ord, Debug)]
pub enum Error {
    /// Saw the wrong type of token
    InvalidState(String),
    /// Keys were not sorted
    UnsortedKeys,
    /// Reached EOF in the middle of a message
    UnexpectedEof,
    /// Malformed number or unexpected character
    SyntaxError(String),
}

pub open spec fn top_level_end_text() -> Seq<char> {
    "End not allowed at top level"@
}

pub open spec fn key_not_string_text() -> Seq<char> {
    "Map keys must be strings"@
}

pub open spec fn missing_value_text() -> Seq<char> {
    "Map key has no value"@
}

/// `e` is the error that reports `f`.
pub open spec fn reports(e: Error, f: Fault) -> bool {
    match f {
        Fault::TopLevelEnd => e matches Error::InvalidState(m) && m@ == top_level_end_text(),
        Fault::KeyNotString => e matches Error::InvalidState(m) && m@ == key_not_string_text(),
        Fault::MissingValue => e matches Error::InvalidState(m) && m@ == missing_value_text(),
        Fault::UnsortedKeys => e is UnsortedKeys,
        Fault::UnexpectedEof => e is UnexpectedEof,
        Fault::Unexpected(b, o) => e matches Error::SyntaxError(m) && m@ == unexpected_text(b, o),
    }
}

impl Fault {
    pub fn to_error(self) -> (e: Error)
        ensures
            reports(e, self),
    {
        match self {
            Fault::TopLevelEnd => Error::InvalidState("End not allowed at top level".to_owned()),
            Fault::KeyNotString => Error::InvalidState("Map keys must be strings".to_owned()),
            Fault::MissingValue => Error::InvalidState("Map key has no value".to_owned()),
            Fault::UnsortedKeys => Error::UnsortedKeys,
            Fault::UnexpectedEof => Error::UnexpectedEof,
            Fault::Unexpected(b, o) => Error::SyntaxError(describe_unexpected(b, o)),
        }
    }
}

#[derive(Clone, Copy, PartialEq, Eq, PartialOrd, Ord, Debug)]
pub enum Token<'a> {
    List,
    Dict,
    String(&'a [u8]),
    /// A number; we explicitly *don't* parse it here, as it could be signed, unsigned, or a bignum
    Num(&'a str),
    End,
}

impl<'a> View for Token<'a> {
    type V = TokenView;

    open spec fn view(&self) -> TokenView {
        match *self {
            Token::List => TokenView::List,
            Token::Dict => TokenView::Dict,
            Token::String(b) => TokenView::Bytes(b@),
            Token::Num(n) => TokenView::Num(n@),
            Token::End => TokenView::End,
        }
    }
}

enum IntState {
    Start,
    Sign,
    Zero,
    Digits,
}

/// `state` is where the integer automaton stands after reading `t`.
spec fn int_state_of(state: IntState, t: Seq<u8>) -> bool {
    match state {
        IntState::Start => t.len() == 0,
        IntState::Sign => t.len() == 1 && t[0] == 45u8,
        IntState::Zero => t.len() == 1 && t[0] == 48u8,
        IntState::Digits => nonzero_digits_from(t, 0) || (t.len() > 0 && t[0] == 45u8
            && nonzero_digits_from(t, 1)),
    }
}

#[derive(Clone, Copy)]
enum DecodeState<'a> {
    /// An inner list. Allows any token
    InList,
    /// Inside a map, expecting a key. Contains the last key read, so sorting can be validated
    MapKey(Option<&'a [u8]>),
    /// Inside a map, expecting a value. Contains the key just read
    MapValue(&'a [u8]),
    /// Received an error while decoding
    Failed(Fault),
}

spec fn frame_of(s: DecodeState) -> Frame {
    match s {
        DecodeState::InList => Frame::InList,
        DecodeState::MapKey(k) => Frame::AwaitKey(
            match k {
                Some(b) => Some(b@),
                None => None,
            },
        ),
        DecodeState::MapValue(k) => Frame::AwaitValue(k@),
        DecodeState::Failed(f) => Frame::Failed(f),
    }
}

pub struct Decoder<'a> {
    source: &'a [u8],
    offset: usize,
    state: Vec<DecodeState<'a>>,
    level: usize,
    starts: Vec<usize>,
}

impl<'a> View for Decoder<'a> {
    type V = DecoderModel;

    closed spec fn view(&self) -> DecoderModel {
        DecoderModel {
            source: self.source@,
            offset: self.offset as int,
            frames: self.state@.map_values(|s: DecodeState| frame_of(s)),
            level: self.level as int,
            starts: self.starts@.map_values(|x: usize| x as int),
        }
    }
}

/// A token outcome as plain values.
pub open spec fn token_outcome<'a>(r: Result<Option<Token<'a>>, Fault>) -> Result<Option<TokenView>, Fault> {
    match r {
        Ok(Some(t)) => Ok(Some(t@)),
        Ok(None) => Ok(None),
        Err(f) => Err(f),
    }
}

/// `r` answers for outcome `o`.
pub open spec fn answers<'a>(r: Result<Option<Token<'a>>, Error>, o: Result<Option<TokenView>, Fault>) -> bool {
    match o {
        Ok(Some(t)) => r matches Ok(Some(tok)) && tok@ == t,
        Ok(None) => r matches Ok(None),
        Err(f) => r matches Err(e) && reports(e, f),
    }
}

/// `a` comes strictly before `b` in byte-lexicographic order.
fn key_less(a: &[u8], b: &[u8]) -> (r: bool)
    ensures
        r == lex_less(a@, b@),
{
    let mut i: usize = 0;
    while i < a.len() && i < b.len()
        invariant
            i <= a@.len(),
            i <= b@.len(),
            lex_less_from(a@, b@, i as int) == lex_less(a@, b@),
        decreases a@.len() - i,
    {
        if a[i] != b[i] {
            return a[i] < b[i];
        }
        i = i + 1;
    }
    i < b.len()
}

impl<'a> Decoder<'a> {
    pub fn new(buffer: &'a [u8]) -> (d: Self)
        ensures
            d@ == (DecoderModel {
                source: buffer@,
                offset: 0,
                frames: seq![],
                level: 0,
                starts: seq![],
            }),
    {
        let d = Decoder {
            source: buffer,
            offset: 0,
            state: Vec::new(),
            level: 0,
            starts: Vec::new(),
        };
        assert(d@.frames =~= seq![]);
        assert(d@.starts =~= seq![]);
        d
    }

    /// Byte offset of the next unread byte.
    pub fn offset(&self) -> (r: usize)
        ensures
            r as int == self@.offset,
    {
        self.offset
    }

    /// Reads integer text from `start` up to the terminator `term`; returns
    /// the offset of the terminator.
    fn take_int(&self, start: usize, term: u8) -> (r: Result<usize, Fault>)
        requires
            start <= self@.source.len(),
            term == 101u8 || term == 58u8,
        ensures
            match int_scan(self@.source, start as int, term) {
                IntScan::Eof => r == Err::<usize, Fault>(Fault::UnexpectedEof),
                IntScan::Bad(e) => r == Err::<usize, Fault>(unexpected_at(self@.source, e)),
                IntScan::Good(e) => r == Ok::<usize, Fault>(e as usize),
            },
            r matches Ok(e) ==> start <= e < self@.source.len() && is_int_text(
                self@.source.subrange(start as int, e as int),
            ) && self@.source[e as int] == term && int_scan(self@.source, start as int, term)
                == IntScan::Good(e as int),
    {
        let s = self.source;
        let ghost src = s@;
        let mut endpos: usize = start;
        let mut state = IntState::Start;
        while endpos < s.len()
            invariant
                src == s@,
                start <= endpos <= src.len(),
                scan_end(src, start as int, endpos as int) == scan_end(src, start as int, start as int),
                is_int_prefix(src.subrange(start as int, endpos as int)),
                int_state_of(state, src.subrange(start as int, endpos as int)),
            ensures
                start <= endpos <= src.len(),
                scan_end(src, start as int, start as int) == endpos as int,
                int_state_of(state, src.subrange(start as int, endpos as int)),
            decreases src.len() - endpos,
        {
            let c = s[endpos];
            let ghost t = src.subrange(start as int, endpos as int);
            let ghost t2 = src.subrange(start as int, endpos + 1);
            assert(t2 =~= t.push(c));
            let next = match state {
                IntState::Start => if c == 45u8 {
                    Some(IntState::Sign)
                } else if c == 48u8 {
                    Some(IntState::Zero)
                } else if 49u8 <= c && c <= 57u8 {
                    Some(IntState::Digits)
                } else {
                    None
                },
                IntState::Sign => if 49u8 <= c && c <= 57u8 {
                    Some(IntState::Digits)
                } else {
                    None
                },
                IntState::Zero => None,
                IntState::Digits => if 48u8 <= c && c <= 57u8 {
                    Some(IntState::Digits)
                } else {
                    None
                },
            };
            match next {
                Some(n) => {
                    assert(int_state_of(n, t2));
                    assert(is_int_prefix(t2));
                    state = n;
                    endpos = endpos + 1;
                },
                None => {
                    assert(t2[t2.len() - 1] == c);
                    assert(t.len() > 0 ==> t2[0] == t[0]);
                    assert(!is_int_prefix(t2));
                    assert(scan_end(src, start as int, endpos as int) == endpos as int);
                    break;
                },
            }
        }
        let ghost t = src.subrange(start as int, endpos as int);
        if endpos >= s.len() {
            return Err(Fault::UnexpectedEof);
        }
        let c = s[endpos];
        let complete = match state {
            IntState::Zero => true,
            IntState::Digits => true,
            _ => false,
        };
        assert(complete == is_int_text(t));
        if complete && c == term {
            Ok(endpos)
        } else {
            Err(Fault::Unexpected(c, endpos))
        }
    }

    /// The byte at `at`, if there is one.
    fn take_byte(&self, at: usize) -> (r: Option<u8>)
        ensures
            at < self@.source.len() ==> r == Some(self@.source[at as int]),
            at >= self@.source.len() ==> r is None,
            r is Some ==> at < self@.source.len(),
    {
        if at < self.source.len() {
            Some(self.source[at])
        } else {
            None
        }
    }

    /// The `count` bytes from `start`, if the input holds them all.
    fn take_chunk(&self, start: usize, count: usize) -> (r: Option<&'a [u8]>)
        requires
            start <= self@.source.len(),
        ensures
            count <= self@.source.len() - start ==> (r matches Some(c) && c@
                == self@.source.subrange(start as int, start + count)),
            count > self@.source.len() - start ==> r is None,
    {
        if count <= self.source.len() - start {
            Some(&self.source[start..start + count])
        } else {
            None
        }
    }

    /// Value of the digits in `source[start..end]`, if it is at most `limit`.
    fn length_within(&self, start: usize, end: usize, limit: usize) -> (r: Option<usize>)
        requires
            start <= end <= self@.source.len(),
            forall|i: int| start <= i < end ==> is_digit(#[trigger] self@.source[i]),
        ensures
            r matches Some(v) ==> v as nat == digits_value(
                self@.source.subrange(start as int, end as int),
            ) && v <= limit,
            r is None ==> digits_value(self@.source.subrange(start as int, end as int)) > limit,
    {
        let s = self.source;
        let mut acc: u128 = 0;
        let mut over = false;
        let mut i: usize = start;
        assert(s@.subrange(start as int, start as int).len() == 0);
        while i < end
            invariant
                start <= i <= end <= s@.len(),
                s@ == self@.source,
                forall|j: int| start <= j < end ==> is_digit(#[trigger] s@[j]),
                !over ==> acc as nat == digits_value(s@.subrange(start as int, i as int)) && acc
                    <= limit,
                over ==> digits_value(s@.subrange(start as int, i as int)) > limit,
            decreases end - i,
        {
            let ghost prev = s@.subrange(start as int, i as int);
            let ghost cur = s@.subrange(start as int, i + 1);
            assert(cur.drop_last() =~= prev);
            assert(cur.last() == s@[i as int]);
            assert(is_digit(s@[i as int]));
            let d = (s[i] - 48u8) as u128;
            if !over {
                assert(acc * 10 <= 0xffff_ffff_ffff_ffffu128 * 10) by (nonlinear_arith)
                    requires
                        acc <= 0xffff_ffff_ffff_ffffu128,
                ;
                let v = acc * 10 + d;
                if v > limit as u128 {
                    over = true;
                } else {
                    acc = v;
                }
            }
            i = i + 1;
        }
        if over {
            None
        } else {
            Some(acc as usize)
        }
    }

    /// The token that starts at the cursor and the offset just past it; the
    /// cursor itself does not move.
    fn raw_next_token(&self) -> (r: Result<(Token<'a>, usize), Fault>)
        ensures
            self@.offset < self@.source.len() ==> match lex(self@.source, self@.offset) {
                Lexed::Tok(t, end) => r matches Ok((tok, e)) && tok@ == t && e as int == end,
                Lexed::Fail(f) => r == Err::<(Token<'a>, usize), Fault>(f),
            },
            self@.offset >= self@.source.len() ==> r == Err::<(Token<'a>, usize), Fault>(
                Fault::UnexpectedEof,
            ),
    {
        let s = self.source;
        let p = self.offset;
        if p >= s.len() {
            return Err(Fault::UnexpectedEof);
        }
        let b = match self.take_byte(p) {
            Some(b) => b,
            None => return Err(Fault::UnexpectedEof),
        };
        if b == 101u8 {
            Ok((Token::End, p + 1))
        } else if b == 108u8 {
            Ok((Token::List, p + 1))
        } else if b == 100u8 {
            Ok((Token::Dict, p + 1))
        } else if b == 105u8 {
            let e = match self.take_int(p + 1, 101u8) {
                Ok(e) => e,
                Err(f) => return Err(f),
            };
            let text = &s[p + 1..e];
            assert forall|i: int| 0 <= i < text@.len() implies text@[i] < 128 by {
                assert(text@[i] == s@.subrange(p + 1, e as int)[i]);
            }
            Ok((Token::Num(ascii_text(text)), e + 1))
        } else if 48u8 <= b && b <= 57u8 {
            let e = match self.take_int(p, 58u8) {
                Ok(e) => e,
                Err(f) => return Err(f),
            };
            let ghost t = s@.subrange(p as int, e as int);
            assert forall|i: int| p <= i < e implies is_digit(#[trigger] s@[i]) by {
                assert(s@[i] == t[i - p]);
                assert(t[0] == b);
            }
            let n = match self.length_within(p, e, s.len() - (e + 1)) {
                Some(n) => n,
                None => return Err(Fault::UnexpectedEof),
            };
            match self.take_chunk(e + 1, n) {
                Some(c) => Ok((Token::String(c), e + 1 + n)),
                None => Err(Fault::UnexpectedEof),
            }
        } else {
            Err(Fault::Unexpected(b, p))
        }
    }

    /// Records `f` as the decoder's final state.
    fn latch_err(&mut self, f: Fault) -> (r: Result<Option<Token<'a>>, Fault>)
        ensures
            final(self)@ == fail(old(self)@, f).0,
            r == Err::<Option<Token<'a>>, Fault>(f),
    {
        self.state.push(DecodeState::Failed(f));
        assert(self@.frames =~= old(self)@.frames.push(Frame::Failed(f)));
        Err(f)
    }

    /// The error the decoder stopped on, if it did.
    fn check_error(&self) -> (r: Result<(), Fault>)
        ensures
            is_failed(self@) ==> r == Err::<(), Fault>(
                self@.frames.last()->Failed_0,
            ),
            !is_failed(self@) ==> r is Ok,
    {
        let n = self.state.len();
        if n > 0 {
            match self.state[n - 1] {
                DecodeState::Failed(f) => {
                    return Err(f);
                },
                _ => {},
            }
        }
        Ok(())
    }

    /// Reads one token and checks it against the top frame.
    fn step(&mut self) -> (r: Result<Option<Token<'a>>, Fault>)
        ensures
            (final(self)@, token_outcome(r)) == step(old(self)@),
    {
        match self.check_error() {
            Err(f) => return Err(f),
            Ok(()) => {},
        }
        let n = self.state.len();
        if self.offset >= self.source.len() {
            if n == 0 {
                return Ok(None);
            } else {
                return self.latch_err(Fault::UnexpectedEof);
            }
        }
        let (tok, end) = match self.raw_next_token() {
            Ok(x) => x,
            Err(f) => return self.latch_err(f),
        };
        if n == 0 {
            match tok {
                Token::End => return self.latch_err(Fault::TopLevelEnd),
                Token::List => self.state.push(DecodeState::InList),
                Token::Dict => self.state.push(DecodeState::MapKey(None)),
                _ => {},
            }
        } else {
            let top = self.state[n - 1];
            match top {
                DecodeState::InList => match tok {
                    Token::End => {
                        self.state.pop();
                    },
                    Token::List => self.state.push(DecodeState::InList),
                    Token::Dict => self.state.push(DecodeState::MapKey(None)),
                    _ => {},
                },
                DecodeState::MapKey(prev) => match tok {
                    Token::End => {
                        self.state.pop();
                    },
                    Token::String(k) => {
                        match prev {
                            Some(p) => if !key_less(p, k) {
                                return self.latch_err(Fault::UnsortedKeys);
                            },
                            None => {},
                        }
                        self.state.set(n - 1, DecodeState::MapValue(k));
                    },
                    _ => return self.latch_err(Fault::KeyNotString),
                },
                DecodeState::MapValue(k) => match tok {
                    Token::End => return self.latch_err(Fault::MissingValue),
                    _ => {
                        self.state.set(n - 1, DecodeState::MapKey(Some(k)));
                        match tok {
                            Token::List => self.state.push(DecodeState::InList),
                            Token::Dict => self.state.push(DecodeState::MapKey(None)),
                            _ => {},
                        }
                    },
                },
                DecodeState::Failed(f) => return Err(f),
            }
        }
        match tok {
            Token::List => self.starts.push(self.offset),
            Token::Dict => self.starts.push(self.offset),
            Token::End => {
                self.starts.pop();
            },
            _ => {},
        }
        self.offset = end;
        assert(self@.frames =~= validate(old(self)@, tok@, end as int).0.frames);
        assert(self@.starts =~= validate(old(self)@, tok@, end as int).0.starts);
        Ok(Some(tok))
    }

    /// Reads and discards tokens until the depth is at most `level`.
    fn skip_to(&mut self, level: usize) -> (r: Result<(), Fault>)
        ensures
            (final(self)@, r) == skip_to(old(self)@, level as int),
    {
        let ghost target = skip_to(self@, level as int);
        while self.state.len() > level
            invariant
                skip_to(self@, level as int) == target,
                target == skip_to(old(self)@, level as int),
            decreases self@.source.len() - self@.offset,
        {
            let before = self.offset;
            let ghost d0 = self@;
            assert(d0.frames.len() == self.state@.len());
            match self.step() {
                Err(f) => {
                    assert(skip_to(d0, level as int) == (self@, Err::<(), Fault>(f)));
                    return Err(f);
                },
                Ok(_) => {
                    if !(self.offset > before && before < self.source.len()) {
                        assert(skip_to(d0, level as int) == (self@, Ok::<(), Fault>(())));
                        return Ok(());
                    }
                },
            }
        }
        assert(self@.frames.len() == self.state@.len());
        Ok(())
    }

    /// Skips what lies deeper than `level`, then reads one token.
    fn read_at(&mut self, level: usize) -> (r: Result<Option<Token<'a>>, Fault>)
        ensures
            (final(self)@, token_outcome(r)) == read_at(old(self)@, level as int),
    {
        match self.skip_to(level) {
            Err(f) => Err(f),
            Ok(()) => self.step(),
        }
    }

    /// Read the next token. Returns Ok(Some(token)) if a token was successfully read,
    /// Ok(None) at the clean end of the input, and the first error ever met otherwise.
    /// Content of a list or dict that was handed out by [`Decoder::next`] and
    /// left unread is skipped first.
    pub fn next_token(&mut self) -> (r: Result<Option<Token<'a>>, Error>)
        ensures
            final(self)@ == next_token_step(old(self)@).0,
            answers(r, next_token_step(old(self)@).1),
    {
        match self.read_at(self.level) {
            Ok(t) => {
                self.level = self.state.len();
                Ok(t)
            },
            Err(f) => Err(f.to_error()),
        }
    }
}

/// An iterator-like reader of the tokens of a decoder.
pub struct Tokens<'a>(pub Decoder<'a>);

impl<'a> Tokens<'a> {
    /// The next token, `None` at the clean end of input, or the error the
    /// decoder stopped on.
    pub fn next(&mut self) -> (r: Option<Result<Token<'a>, Error>>)
        ensures
            final(self).0@ == next_token_step(old(self).0@).0,
            match next_token_step(old(self).0@).1 {
                Ok(Some(t)) => r matches Some(Ok(tok)) && tok@ == t,
                Ok(None) => r is None,
                Err(f) => r matches Some(Err(e)) && reports(e, f),
            },
    {
        match self.0.next_token() {
            Ok(Some(token)) => Some(Ok(token)),
            Ok(None) => None,
            Err(err) => Some(Err(err)),
        }
    }
}

/// An object read from a decoder
pub enum Object<'a> {
    List(ListDecoder),
    Dict(DictDecoder),
    Integer(&'a str),
    Bytes(&'a [u8]),
}

/// Lazy reader of the elements of a list, over the decoder it was read from.
pub struct ListDecoder {
    depth: usize,
    start: usize,
    finished: bool,
}

/// Lazy reader of the entries of a dict, over the decoder it was read from.
pub struct DictDecoder {
    depth: usize,
    start: usize,
    finished: bool,
}

impl View for ListDecoder {
    type V = NestedView;

    closed spec fn view(&self) -> NestedView {
        NestedView {
            depth: self.depth as int,
            start: self.start as int,
            finished: self.finished,
        }
    }
}

impl View for DictDecoder {
    type V = NestedView;

    closed spec fn view(&self) -> NestedView {
        NestedView {
            depth: self.depth as int,
            start: self.start as int,
            finished: self.finished,
        }
    }
}

impl<'a> View for Object<'a> {
    type V = ObjectView;

    open spec fn view(&self) -> ObjectView {
        match *self {
            Object::List(l) => ObjectView::List(l@.depth, l@.start),
            Object::Dict(m) => ObjectView::Dict(m@.depth, m@.start),
            Object::Integer(n) => ObjectView::Integer(n@),
            Object::Bytes(b) => ObjectView::Bytes(b@),
        }
    }
}

/// A list or dict reader that has read nothing yet.
pub open spec fn is_fresh<'a>(o: Object<'a>) -> bool {
    match o {
        Object::List(l) => !l@.finished,
        Object::Dict(m) => !m@.finished,
        _ => true,
    }
}

pub open spec fn object_outcome<'a>(r: Result<Option<Object<'a>>, Fault>) -> Result<Option<ObjectView>, Fault> {
    match r {
        Ok(Some(o)) => Ok(Some(o@)),
        Ok(None) => Ok(None),
        Err(f) => Err(f),
    }
}

/// `r` answers for outcome `o`.
pub open spec fn object_answers<'a>(r: Result<Option<Object<'a>>, Error>, o: Result<Option<ObjectView>, Fault>) -> bool {
    match o {
        Ok(Some(v)) => r matches Ok(Some(x)) && x@ == v && is_fresh(x),
        Ok(None) => r matches Ok(None),
        Err(f) => r matches Err(e) && reports(e, f),
    }
}

/// `r` answers for a dict entry outcome `o`.
pub open spec fn entry_answers<'a>(r: Result<Option<(&'a [u8], Object<'a>)>, Error>, o: Result<Option<(Seq<u8>, ObjectView)>, Fault>) -> bool {
    match o {
        Ok(Some((k, v))) => r matches Ok(Some((key, x))) && key@ == k && x@ == v && is_fresh(x),
        Ok(None) => r matches Ok(None),
        Err(f) => r matches Err(e) && reports(e, f),
    }
}

impl<'a> Object<'a> {
    fn into_token(self) -> (t: Token<'a>)
        ensures
            t@ == match self@ {
                ObjectView::List(_, _) => TokenView::List,
                ObjectView::Dict(_, _) => TokenView::Dict,
                ObjectView::Integer(n) => TokenView::Num(n),
                ObjectView::Bytes(b) => TokenView::Bytes(b),
            },
    {
        match self {
            Object::List(_) => Token::List,
            Object::Dict(_) => Token::Dict,
            Object::Bytes(bytes) => Token::String(bytes),
            Object::Integer(num) => Token::Num(num),
        }
    }
}

impl<'a> Decoder<'a> {
    /// Reads one token and turns it into a value.
    fn object_step(&mut self) -> (r: Result<Option<Object<'a>>, Fault>)
        ensures
            (final(self)@, object_outcome(r)) == object_step(old(self)@),
            r matches Ok(Some(o)) ==> is_fresh(o),
    {
        let start = self.offset;
        let t = self.step();
        let depth = self.state.len();
        assert(self@.frames.len() == depth);
        match t {
            Err(f) => Err(f),
            Ok(None) => Ok(None),
            Ok(Some(Token::End)) => Ok(None),
            Ok(Some(Token::List)) => Ok(
                Some(Object::List(ListDecoder { depth, start, finished: false })),
            ),
            Ok(Some(Token::Dict)) => Ok(
                Some(Object::Dict(DictDecoder { depth, start, finished: false })),
            ),
            Ok(Some(Token::String(b))) => Ok(Some(Object::Bytes(b))),
            Ok(Some(Token::Num(n))) => Ok(Some(Object::Integer(n))),
        }
    }

    /// The list or dict opened at `start` is still open at `depth`.
    fn is_live(&self, depth: usize, start: usize) -> (r: bool)
        ensures
            r == crate::model::is_live(
                NestedView { depth: depth as int, start: start as int, finished: false },
                self@,
            ),
    {
        depth >= 1 && depth <= self.starts.len() && self.starts[depth - 1] == start
    }

    /// Skips what lies deeper than `level`, then reads one value.
    fn read_object(&mut self, level: usize) -> (r: Result<Option<Object<'a>>, Fault>)
        ensures
            (final(self)@, object_outcome(r)) == read_object(old(self)@, level as int),
            r matches Ok(Some(o)) ==> is_fresh(o),
    {
        match self.skip_to(level) {
            Err(f) => Err(f),
            Ok(()) => self.object_step(),
        }
    }

    /// Reads the next value. A list or dict comes as a lazy reader over this
    /// decoder; what it leaves unread is skipped on the next read here. An
    /// end, or the clean end of input, gives `None`.
    pub fn next(&mut self) -> (r: Result<Option<Object<'a>>, Error>)
        ensures
            final(self)@ == next_object_step(old(self)@).0,
            object_answers(r, next_object_step(old(self)@).1),
    {
        match self.read_object(self.level) {
            Ok(Some(o)) => {
                let n = self.state.len();
                assert(self@.frames.len() == n);
                self.level = match o {
                    Object::List(ref l) => l.depth - 1,
                    Object::Dict(ref m) => m.depth - 1,
                    _ => n,
                };
                Ok(Some(o))
            },
            Ok(None) => {
                self.level = self.state.len();
                Ok(None)
            },
            Err(f) => Err(f.to_error()),
        }
    }
}

impl ListDecoder {
    /// The next element of the list, read from `decoder`; `None` once the
    /// list has ended.
    pub fn next<'a>(&mut self, decoder: &mut Decoder<'a>) -> (r: Result<Option<Object<'a>>, Error>)
        ensures
            final(self)@ == list_next(old(self)@, old(decoder)@).0,
            final(decoder)@ == list_next(old(self)@, old(decoder)@).1,
            object_answers(r, list_next(old(self)@, old(decoder)@).2),
    {
        if self.finished {
            return Ok(None);
        }
        if !decoder.is_live(self.depth, self.start) {
            self.finished = true;
            return Ok(None);
        }
        match decoder.read_object(self.depth) {
            Ok(item) => {
                if item.is_none() {
                    self.finished = true;
                }
                Ok(item)
            },
            Err(f) => Err(f.to_error()),
        }
    }
}

impl DictDecoder {
    /// The next entry of the dict, read from `decoder`: a key and its value;
    /// `None` once the dict has ended.
    pub fn next<'a>(&mut self, decoder: &mut Decoder<'a>) -> (r: Result<Option<(&'a [u8], Object<'a>)>, Error>)
        ensures
            final(self)@ == dict_next(old(self)@, old(decoder)@).0,
            final(decoder)@ == dict_next(old(self)@, old(decoder)@).1,
            entry_answers(r, dict_next(old(self)@, old(decoder)@).2),
    {
        if self.finished {
            return Ok(None);
        }
        if !decoder.is_live(self.depth, self.start) {
            self.finished = true;
            return Ok(None);
        }
        let key = match decoder.read_object(self.depth) {
            Ok(k) => k,
            Err(f) => return Err(f.to_error()),
        };
        let key = match key {
            Some(o) => Some(o.into_token()),
            None => None,
        };
        match key {
            Some(Token::String(k)) => match decoder.object_step() {
                Ok(Some(v)) => Ok(Some((k, v))),
                Ok(None) => {
                    self.finished = true;
                    Ok(None)
                },
                Err(f) => Err(f.to_error()),
            },
            _ => {
                self.finished = true;
                Ok(None)
            },
        }
    }
}

} // verus!
