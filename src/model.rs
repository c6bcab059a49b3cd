//! Mathematical model of the decoder: the token grammar over bytes, the
//! nesting frames, and one read step as a function of the decoder state.
use vstd::prelude::*;

verus! {

/// Why a decoder stopped; kept in its final frame so that every later call
/// reports the same thing.
#[derive(Clone, Copy, PartialEq, Eq, Debug)]
pub enum Fault {
    /// `e` with no open list or dict.
    TopLevelEnd,
    /// A dict key position held something other than a byte string.
    KeyNotString,
    /// A dict closed right after a key, with no value for it.
    MissingValue,
    /// A key not strictly greater than the key before it.
    UnsortedKeys,
    /// Input ended inside a token or an open structure.
    UnexpectedEof,
    /// The byte at the given offset cannot stand there.
    Unexpected(u8, usize),
}

/// A token as plain values.
pub enum TokenView {
    List,
    Dict,
    Bytes(Seq<u8>),
    Num(Seq<char>),
    End,
}

/// One nesting frame as plain values.
pub enum Frame {
    InList,
    AwaitKey(Option<Seq<u8>>),
    AwaitValue(Seq<u8>),
    Failed(Fault),
}

/// The whole state of a decoder.
pub struct DecoderModel {
    pub source: Seq<u8>,
    pub offset: int,
    pub frames: Seq<Frame>,
    /// Nesting depth at which the owner of the decoder reads next; deeper
    /// content that was handed out and abandoned is skipped first.
    pub level: int,
    /// For each open list or dict, outermost first, the offset of the token
    /// that opened it; a lazy reader is live while its frame is still there.
    pub starts: Seq<int>,
}

pub open spec fn is_digit(b: u8) -> bool {
    48 <= b <= 57
}

/// `t[k..]` is a nonzero digit followed by digits.
pub open spec fn nonzero_digits_from(t: Seq<u8>, k: int) -> bool {
    &&& 0 <= k < t.len()
    &&& 49 <= t[k] <= 57
    &&& forall|i: int| k < i < t.len() ==> is_digit(#[trigger] t[i])
}

/// Integer text: `0`, or an optional `-` and a nonzero digit and digits.
pub open spec fn is_int_text(t: Seq<u8>) -> bool {
    ||| (t.len() == 1 && t[0] == 48u8)
    ||| nonzero_digits_from(t, 0)
    ||| (t.len() > 0 && t[0] == 45u8 && nonzero_digits_from(t, 1))
}

/// `t` can still be extended to integer text.
pub open spec fn is_int_prefix(t: Seq<u8>) -> bool {
    ||| t.len() == 0
    ||| (t.len() == 1 && t[0] == 45u8)
    ||| is_int_text(t)
}

/// End of the longest stretch from `start` that is a prefix of integer text,
/// looking from `e` on.
pub open spec fn scan_end(s: Seq<u8>, start: int, e: int) -> int
    decreases s.len() - e,
{
    if 0 <= start <= e < s.len() && is_int_prefix(s.subrange(start, e + 1)) {
        scan_end(s, start, e + 1)
    } else {
        e
    }
}

pub enum IntScan {
    /// Input ran out before the terminator.
    Eof,
    /// The byte at this offset breaks the grammar.
    Bad(int),
    /// Integer text ends at this offset, where the terminator stands.
    Good(int),
}

/// Reads integer text from `start`, closed by the byte `term`.
pub open spec fn int_scan(s: Seq<u8>, start: int, term: u8) -> IntScan {
    let e = scan_end(s, start, start);
    if e >= s.len() {
        IntScan::Eof
    } else if is_int_text(s.subrange(start, e)) && s[e] == term {
        IntScan::Good(e)
    } else {
        IntScan::Bad(e)
    }
}

/// Value of a run of decimal digits.
pub open spec fn digits_value(t: Seq<u8>) -> nat
    decreases t.len(),
{
    if t.len() == 0 {
        0
    } else {
        digits_value(t.drop_last()) * 10 + (t.last() - 48) as nat
    }
}

pub open spec fn ascii_chars(t: Seq<u8>) -> Seq<char> {
    Seq::new(t.len(), |i: int| t[i] as char)
}

pub enum Lexed {
    Tok(TokenView, int),
    Fail(Fault),
}

pub open spec fn unexpected_at(s: Seq<u8>, e: int) -> Fault {
    Fault::Unexpected(s[e], e as usize)
}

/// The token that starts at `p` (with `p < s.len()`) and the offset just
/// past it, or why there is none.
pub open spec fn lex(s: Seq<u8>, p: int) -> Lexed {
    let b = s[p];
    if b == 101u8 {
        Lexed::Tok(TokenView::End, p + 1)
    } else if b == 108u8 {
        Lexed::Tok(TokenView::List, p + 1)
    } else if b == 100u8 {
        Lexed::Tok(TokenView::Dict, p + 1)
    } else if b == 105u8 {
        match int_scan(s, p + 1, 101u8) {
            IntScan::Eof => Lexed::Fail(Fault::UnexpectedEof),
            IntScan::Bad(e) => Lexed::Fail(unexpected_at(s, e)),
            IntScan::Good(e) => Lexed::Tok(
                TokenView::Num(ascii_chars(s.subrange(p + 1, e))),
                e + 1,
            ),
        }
    } else if is_digit(b) {
        match int_scan(s, p, 58u8) {
            IntScan::Eof => Lexed::Fail(Fault::UnexpectedEof),
            IntScan::Bad(e) => Lexed::Fail(unexpected_at(s, e)),
            IntScan::Good(e) => {
                let n = digits_value(s.subrange(p, e)) as int;
                if n <= s.len() - (e + 1) {
                    Lexed::Tok(TokenView::Bytes(s.subrange(e + 1, e + 1 + n)), e + 1 + n)
                } else {
                    Lexed::Fail(Fault::UnexpectedEof)
                }
            },
        }
    } else {
        Lexed::Fail(Fault::Unexpected(b, p as usize))
    }
}

/// `a` comes strictly before `b` in byte-lexicographic order, comparing
/// from index `i` on.
pub open spec fn lex_less_from(a: Seq<u8>, b: Seq<u8>, i: int) -> bool
    decreases a.len() - i,
{
    if i < 0 || i >= a.len() {
        i < b.len()
    } else if i >= b.len() {
        false
    } else if a[i] != b[i] {
        a[i] < b[i]
    } else {
        lex_less_from(a, b, i + 1)
    }
}

pub open spec fn lex_less(a: Seq<u8>, b: Seq<u8>) -> bool {
    lex_less_from(a, b, 0)
}

pub open spec fn is_failed(d: DecoderModel) -> bool {
    d.frames.len() > 0 && d.frames.last() is Failed
}

pub open spec fn fail(d: DecoderModel, f: Fault) -> (DecoderModel, Result<Option<TokenView>, Fault>) {
    (DecoderModel { frames: d.frames.push(Frame::Failed(f)), ..d }, Err(f))
}

pub open spec fn with_top(frames: Seq<Frame>, f: Frame) -> Seq<Frame> {
    frames.drop_last().push(f)
}

/// Frames after a valid token that opens a structure or not.
pub open spec fn open_frames(frames: Seq<Frame>, t: TokenView) -> Seq<Frame> {
    match t {
        TokenView::List => frames.push(Frame::InList),
        TokenView::Dict => frames.push(Frame::AwaitKey(None)),
        _ => frames,
    }
}

/// Opening offsets after valid token `t`, which starts at `at`.
pub open spec fn next_starts(starts: Seq<int>, t: TokenView, at: int) -> Seq<int> {
    match t {
        TokenView::List => starts.push(at),
        TokenView::Dict => starts.push(at),
        TokenView::End => if starts.len() > 0 {
            starts.drop_last()
        } else {
            starts
        },
        _ => starts,
    }
}

/// Checks token `t`, lexed from `d.offset` up to `end`, against the top frame.
pub open spec fn validate(d: DecoderModel, t: TokenView, end: int) -> (DecoderModel, Result<Option<TokenView>, Fault>) {
    let ok = |frames: Seq<Frame>|
        (
            DecoderModel {
                offset: end,
                frames: frames,
                starts: next_starts(d.starts, t, d.offset),
                ..d
            },
            Ok(Some(t)),
        );
    if d.frames.len() == 0 {
        if t is End {
            fail(d, Fault::TopLevelEnd)
        } else {
            ok(open_frames(d.frames, t))
        }
    } else {
        match d.frames.last() {
            Frame::InList => if t is End {
                ok(d.frames.drop_last())
            } else {
                ok(open_frames(d.frames, t))
            },
            Frame::AwaitKey(prev) => match t {
                TokenView::End => ok(d.frames.drop_last()),
                TokenView::Bytes(k) => match prev {
                    Some(p) => if lex_less(p, k) {
                        ok(with_top(d.frames, Frame::AwaitValue(k)))
                    } else {
                        fail(d, Fault::UnsortedKeys)
                    },
                    None => ok(with_top(d.frames, Frame::AwaitValue(k))),
                },
                _ => fail(d, Fault::KeyNotString),
            },
            Frame::AwaitValue(k) => if t is End {
                fail(d, Fault::MissingValue)
            } else {
                ok(open_frames(with_top(d.frames, Frame::AwaitKey(Some(k))), t))
            },
            Frame::Failed(f) => (d, Err(f)),
        }
    }
}

/// One read of a token, without the skip of abandoned content.
pub open spec fn step(d: DecoderModel) -> (DecoderModel, Result<Option<TokenView>, Fault>) {
    if is_failed(d) {
        (d, Err(d.frames.last()->Failed_0))
    } else if d.offset >= d.source.len() {
        if d.frames.len() == 0 {
            (d, Ok(None))
        } else {
            fail(d, Fault::UnexpectedEof)
        }
    } else {
        match lex(d.source, d.offset) {
            Lexed::Fail(f) => fail(d, f),
            Lexed::Tok(t, end) => validate(d, t, end),
        }
    }
}

/// Reads and discards tokens until the depth is at most `level`.
pub open spec fn skip_to(d: DecoderModel, level: int) -> (DecoderModel, Result<(), Fault>)
    decreases d.source.len() - d.offset,
{
    if d.frames.len() <= level {
        (d, Ok(()))
    } else {
        let (d2, r) = step(d);
        match r {
            Err(f) => (d2, Err(f)),
            Ok(_) => if d2.offset > d.offset && d.offset < d.source.len() {
                skip_to(d2, level)
            } else {
                (d2, Ok(()))
            },
        }
    }
}

/// Skips what lies deeper than `level`, then reads one token.
pub open spec fn read_at(d: DecoderModel, level: int) -> (DecoderModel, Result<Option<TokenView>, Fault>) {
    let (d1, r) = skip_to(d, level);
    match r {
        Err(f) => (d1, Err(f)),
        Ok(_) => step(d1),
    }
}

/// What the owner of a decoder sees on its own next token read.
pub open spec fn next_token_step(d: DecoderModel) -> (DecoderModel, Result<Option<TokenView>, Fault>) {
    let (d1, r) = read_at(d, d.level);
    match r {
        Ok(_) => (DecoderModel { level: d1.frames.len() as int, ..d1 }, r),
        Err(_) => (d1, r),
    }
}

/// A value as plain data; a list or dict is known by the depth of its frame
/// and the offset of the token that opened it.
pub enum ObjectView {
    List(int, int),
    Dict(int, int),
    Integer(Seq<char>),
    Bytes(Seq<u8>),
}

/// The value that token `t`, read at offset `at`, starts, where `depth` is
/// the depth after it.
pub open spec fn object_of(t: TokenView, depth: int, at: int) -> Option<ObjectView> {
    match t {
        TokenView::List => Some(ObjectView::List(depth, at)),
        TokenView::Dict => Some(ObjectView::Dict(depth, at)),
        TokenView::Bytes(b) => Some(ObjectView::Bytes(b)),
        TokenView::Num(n) => Some(ObjectView::Integer(n)),
        TokenView::End => None,
    }
}

/// Reads one token and turns it into a value; an end or the end of input
/// gives none.
pub open spec fn object_step(d: DecoderModel) -> (DecoderModel, Result<Option<ObjectView>, Fault>) {
    let (d1, r) = step(d);
    match r {
        Err(f) => (d1, Err(f)),
        Ok(None) => (d1, Ok(None)),
        Ok(Some(t)) => (d1, Ok(object_of(t, d1.frames.len() as int, d.offset))),
    }
}

/// Skips what lies deeper than `level`, then reads one value.
pub open spec fn read_object(d: DecoderModel, level: int) -> (DecoderModel, Result<Option<ObjectView>, Fault>) {
    let (d1, r) = skip_to(d, level);
    match r {
        Err(f) => (d1, Err(f)),
        Ok(_) => object_step(d1),
    }
}

/// What the owner of a decoder sees on its own next value read. A list or
/// dict handed out lies one level deeper than where the owner goes on.
pub open spec fn next_object_step(d: DecoderModel) -> (DecoderModel, Result<Option<ObjectView>, Fault>) {
    let (d1, r) = read_object(d, d.level);
    match r {
        Ok(Some(ObjectView::List(n, _))) => (DecoderModel { level: n - 1, ..d1 }, r),
        Ok(Some(ObjectView::Dict(n, _))) => (DecoderModel { level: n - 1, ..d1 }, r),
        Ok(_) => (DecoderModel { level: d1.frames.len() as int, ..d1 }, r),
        Err(_) => (d1, r),
    }
}

/// A lazy reader of a list or a dict: the depth of its frame, the offset of
/// the token that opened it, and whether it has stopped.
pub struct NestedView {
    pub depth: int,
    pub start: int,
    pub finished: bool,
}

/// The frame of reader `n` is still open in `d`: no reader that has gone
/// past its structure's end, or belongs to another structure, reads on.
pub open spec fn is_live(n: NestedView, d: DecoderModel) -> bool {
    1 <= n.depth <= d.starts.len() && d.starts[n.depth - 1] == n.start
}

/// One element of a list.
pub open spec fn list_next(l: NestedView, d: DecoderModel) -> (NestedView, DecoderModel, Result<Option<ObjectView>, Fault>) {
    if l.finished {
        (l, d, Ok(None))
    } else if !is_live(l, d) {
        (NestedView { finished: true, ..l }, d, Ok(None))
    } else {
        let (d1, r) = read_object(d, l.depth);
        (NestedView { finished: r == Ok::<Option<ObjectView>, Fault>(None), ..l }, d1, r)
    }
}

/// One entry of a dict: a key and the value after it.
pub open spec fn dict_next(m: NestedView, d: DecoderModel) -> (NestedView, DecoderModel, Result<Option<(Seq<u8>, ObjectView)>, Fault>) {
    let done = NestedView { finished: true, ..m };
    if m.finished {
        (m, d, Ok(None))
    } else if !is_live(m, d) {
        (done, d, Ok(None))
    } else {
        let (d1, r1) = read_object(d, m.depth);
        match r1 {
            Err(f) => (m, d1, Err(f)),
            Ok(Some(ObjectView::Bytes(k))) => {
                let (d2, r2) = object_step(d1);
                match r2 {
                    Err(f) => (m, d2, Err(f)),
                    Ok(Some(v)) => (m, d2, Ok(Some((k, v)))),
                    Ok(None) => (done, d2, Ok(None)),
                }
            },
            Ok(_) => (done, d1, Ok(None)),
        }
    }
}

} // verus!
