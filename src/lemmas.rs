//! Laws of the decoder, stated over its model and proved.
use vstd::prelude::*;
use crate::model::{
    ascii_chars, digits_value, is_digit, is_failed, is_int_prefix, is_int_text, int_scan, lex,
    lex_less, next_object_step, next_token_step, scan_end, skip_to, step, with_top,
    DecoderModel, Fault, Frame, IntScan, Lexed, ObjectView, TokenView,
};

verus! {

/// `w` is the text of token `t` in the input.
pub open spec fn token_text(t: TokenView, w: Seq<u8>) -> bool {
    match t {
        TokenView::List => w == seq![108u8],
        TokenView::Dict => w == seq![100u8],
        TokenView::End => w == seq![101u8],
        TokenView::Num(x) => {
            &&& w.len() >= 3
            &&& w[0] == 105u8
            &&& w[w.len() - 1] == 101u8
            &&& is_int_text(w.subrange(1, w.len() - 1))
            &&& x == ascii_chars(w.subrange(1, w.len() - 1))
        },
        TokenView::Bytes(b) => exists|k: int|
            {
                &&& 0 < k < w.len()
                &&& #[trigger] w[k] == 58u8
                &&& is_digit(w[0])
                &&& is_int_text(w.subrange(0, k))
                &&& digits_value(w.subrange(0, k)) == b.len()
                &&& w.subrange(k + 1, w.len() as int) == b
            },
    }
}

/// The input from the cursor on, as the concatenation of the texts of the
/// tokens that the owner of `d` reads up to the clean end; `None` where a
/// read fails first.
pub open spec fn covered(d: DecoderModel) -> Option<Seq<u8>>
    decreases d.source.len() - d.offset,
{
    let (d1, r) = next_token_step(d);
    match r {
        Err(_) => None,
        Ok(None) => Some(Seq::<u8>::empty()),
        Ok(Some(t)) => {
            let w = d.source.subrange(d.offset, d1.offset);
            if d1.source == d.source && d.offset < d1.offset <= d.source.len() && token_text(t, w) {
                match covered(d1) {
                    Some(rest) => Some(w + rest),
                    None => None,
                }
            } else {
                None
            }
        },
    }
}

/// Nothing was handed out deeper than where the owner reads.
pub open spec fn reads_in_place(d: DecoderModel) -> bool {
    &&& d.level >= d.frames.len()
    &&& 0 <= d.offset <= d.source.len()
}

proof fn lemma_scan_end_ge(s: Seq<u8>, start: int, e: int)
    ensures
        scan_end(s, start, e) >= e,
    decreases s.len() - e,
{
    if 0 <= start <= e < s.len() && is_int_prefix(s.subrange(start, e + 1)) {
        lemma_scan_end_ge(s, start, e + 1);
    }
}

/// A lexed token spans its own text, and at least one byte.
proof fn lemma_lex_span(s: Seq<u8>, p: int)
    requires
        0 <= p < s.len(),
    ensures
        lex(s, p) matches Lexed::Tok(t, end) ==> p < end <= s.len() && token_text(
            t,
            s.subrange(p, end),
        ),
{
    let b = s[p];
    if b == 101u8 || b == 108u8 || b == 100u8 {
        assert(s.subrange(p, p + 1) =~= seq![b]);
    } else if b == 105u8 {
        lemma_scan_end_ge(s, p + 1, p + 1);
        if let IntScan::Good(e) = int_scan(s, p + 1, 101u8) {
            let w = s.subrange(p, e + 1);
            assert(w.subrange(1, w.len() - 1) =~= s.subrange(p + 1, e));
            assert(s.subrange(p + 1, e).len() > 0);
        }
    } else if is_digit(b) {
        lemma_scan_end_ge(s, p, p);
        if let IntScan::Good(e) = int_scan(s, p, 58u8) {
            let n = digits_value(s.subrange(p, e)) as int;
            if n <= s.len() - (e + 1) {
                let w = s.subrange(p, e + 1 + n);
                let k = e - p;
                assert(s.subrange(p, e).len() > 0);
                assert(w.subrange(0, k) =~= s.subrange(p, e));
                assert(w.subrange(k + 1, w.len() as int) =~= s.subrange(e + 1, e + 1 + n));
                assert(w[k] == 58u8);
            }
        }
    }
}

/// A failed read leaves the decoder failed on the same fault, at the same
/// offset.
proof fn lemma_step_latches(d: DecoderModel)
    ensures
        step(d).1 matches Err(f) ==> is_failed(step(d).0) && step(d).0.frames.last()
            == Frame::Failed(f) && step(d).0.offset == d.offset && step(d).0.source == d.source,
        is_failed(d) ==> step(d) == (d, Err::<Option<TokenView>, Fault>(
            d.frames.last()->Failed_0,
        )),
{
}

proof fn lemma_skip_latches(d: DecoderModel, level: int)
    ensures
        skip_to(d, level).1 matches Err(f) ==> is_failed(skip_to(d, level).0) && skip_to(
            d,
            level,
        ).0.frames.last() == Frame::Failed(f),
        is_failed(d) ==> skip_to(d, level).0 == d,
    decreases d.source.len() - d.offset,
{
    lemma_step_latches(d);
    if d.frames.len() > level {
        let (d2, r) = step(d);
        if r is Ok && d2.offset > d.offset && d.offset < d.source.len() {
            lemma_skip_latches(d2, level);
        }
    }
}

/// Every read on a failed decoder fails with its fault and changes nothing.
proof fn lemma_failed_stays(d: DecoderModel)
    requires
        is_failed(d),
    ensures
        next_token_step(d) == (d, Err::<Option<TokenView>, Fault>(d.frames.last()->Failed_0)),
        next_object_step(d) == (d, Err::<Option<ObjectView>, Fault>(
            d.frames.last()->Failed_0,
        )),
{
    lemma_step_latches(d);
    lemma_skip_latches(d, d.level);
}

/// Once a read fails, every further read returns the same error and leaves
/// the decoder, its cursor included, as it is.
pub proof fn lemma_failure_is_sticky(d: DecoderModel)
    ensures
        next_token_step(d).1 matches Err(f) ==> next_token_step(next_token_step(d).0) == (
            next_token_step(d).0,
            Err::<Option<TokenView>, Fault>(f),
        ) && next_object_step(next_token_step(d).0) == (next_token_step(d).0, Err::<
            Option<ObjectView>,
            Fault,
        >(f)),
        next_object_step(d).1 matches Err(f) ==> next_token_step(next_object_step(d).0) == (
            next_object_step(d).0,
            Err::<Option<TokenView>, Fault>(f),
        ) && next_object_step(next_object_step(d).0) == (next_object_step(d).0, Err::<
            Option<ObjectView>,
            Fault,
        >(f)),
{
    lemma_skip_latches(d, d.level);
    lemma_step_latches(skip_to(d, d.level).0);
    if next_token_step(d).1 is Err {
        lemma_failed_stays(next_token_step(d).0);
    }
    if next_object_step(d).1 is Err {
        lemma_failed_stays(next_object_step(d).0);
    }
}

/// A token read by the owner spans its own text, right at the cursor; the
/// clean end comes only at the end of the input.
pub proof fn lemma_token_spans_its_text(d: DecoderModel)
    requires
        reads_in_place(d),
    ensures
        next_token_step(d).1 matches Ok(Some(t)) ==> {
            let d1 = next_token_step(d).0;
            &&& d.offset < d1.offset <= d.source.len()
            &&& d1.source == d.source
            &&& token_text(t, d.source.subrange(d.offset, d1.offset))
            &&& reads_in_place(d1)
        },
        next_token_step(d).1 is Ok && next_token_step(d).1->Ok_0 is None ==> d.offset
            == d.source.len(),
{
    assert(skip_to(d, d.level) == (d, Ok::<(), Fault>(())));
    if !is_failed(d) && d.offset < d.source.len() {
        lemma_lex_span(d.source, d.offset);
    }
}

/// On input that reads cleanly to its end, the texts of the tokens, one
/// after the other, make up the input exactly.
pub proof fn lemma_tokens_cover_input(d: DecoderModel)
    requires
        reads_in_place(d),
        covered(d) is Some,
    ensures
        covered(d) == Some(d.source.subrange(d.offset, d.source.len() as int)),
    decreases d.source.len() - d.offset,
{
    lemma_token_spans_its_text(d);
    let (d1, r) = next_token_step(d);
    match r {
        Ok(Some(t)) => {
            lemma_tokens_cover_input(d1);
            assert(d.source.subrange(d.offset, d1.offset) + d.source.subrange(
                d1.offset,
                d.source.len() as int,
            ) =~= d.source.subrange(d.offset, d.source.len() as int));
        },
        Ok(None) => {
            assert(d.source.subrange(d.offset, d.source.len() as int) =~= Seq::<u8>::empty());
        },
        Err(_) => {},
    }
}

/// A new decoder reads in place; on input that it reads cleanly to its end,
/// the token texts make up the whole input.
pub proof fn lemma_new_decoder_covers_input(s: Seq<u8>)
    ensures
        ({
            let d = DecoderModel {
                source: s,
                offset: 0,
                frames: seq![],
                level: 0,
                starts: seq![],
            };
            covered(d) is Some ==> covered(d) == Some(s)
        }),
{
    let d = DecoderModel {
                source: s,
                offset: 0,
                frames: seq![],
                level: 0,
                starts: seq![],
            };
    if covered(d) is Some {
        lemma_tokens_cover_input(d);
        assert(s.subrange(0, s.len() as int) =~= s);
    }
}

/// End of the value whose first token is at `p`, where the input holds
/// one: an integer, a byte string, a list, or a dict with keys in strictly
/// increasing byte order.
pub open spec fn value_end(s: Seq<u8>, p: int) -> Option<int>
    decreases s.len() - p, 0int,
{
    if 0 <= p < s.len() {
        match lex(s, p) {
            Lexed::Tok(t, e) => if p < e <= s.len() {
                match t {
                    TokenView::List => list_items_end(s, e),
                    TokenView::Dict => dict_items_end(s, e, None),
                    TokenView::End => None,
                    _ => Some(e),
                }
            } else {
                None
            },
            Lexed::Fail(_) => None,
        }
    } else {
        None
    }
}

/// End of the elements of a list from `p` on, its closing `e` included.
pub open spec fn list_items_end(s: Seq<u8>, p: int) -> Option<int>
    decreases s.len() - p, 1int,
{
    if 0 <= p < s.len() {
        match lex(s, p) {
            Lexed::Tok(TokenView::End, e) => Some(e),
            _ => match value_end(s, p) {
                Some(q) => if p < q <= s.len() {
                    list_items_end(s, q)
                } else {
                    None
                },
                None => None,
            },
        }
    } else {
        None
    }
}

/// End of the entries of a dict from `p` on, its closing `e` included;
/// each key comes after `prev`, the key before it.
pub open spec fn dict_items_end(s: Seq<u8>, p: int, prev: Option<Seq<u8>>) -> Option<int>
    decreases s.len() - p, 1int,
{
    if 0 <= p < s.len() {
        match lex(s, p) {
            Lexed::Tok(TokenView::End, e) => Some(e),
            Lexed::Tok(TokenView::Bytes(k), e) => if p < e <= s.len() && (prev matches Some(
                pk,
            ) ==> lex_less(pk, k)) {
                match value_end(s, e) {
                    Some(q) => if e < q <= s.len() {
                        dict_items_end(s, q, Some(k))
                    } else {
                        None
                    },
                    None => None,
                }
            } else {
                None
            },
            _ => None,
        }
    } else {
        None
    }
}

/// The input from `p` on is zero or more complete values, one after another.
pub open spec fn values_to_end(s: Seq<u8>, p: int) -> bool
    decreases s.len() - p,
{
    if p >= s.len() {
        p == s.len()
    } else {
        match value_end(s, p) {
            Some(q) => if p < q <= s.len() {
                values_to_end(s, q)
            } else {
                false
            },
            None => false,
        }
    }
}

/// The input from `p` on closes each open frame, innermost first, as the
/// grammar asks, and then holds complete values up to its end.
pub open spec fn completes(s: Seq<u8>, p: int, frames: Seq<Frame>) -> bool
    decreases frames.len(),
{
    if frames.len() == 0 {
        values_to_end(s, p)
    } else {
        let rest = frames.drop_last();
        match frames.last() {
            Frame::InList => match list_items_end(s, p) {
                Some(q) => completes(s, q, rest),
                None => false,
            },
            Frame::AwaitKey(prev) => match dict_items_end(s, p, prev) {
                Some(q) => completes(s, q, rest),
                None => false,
            },
            Frame::AwaitValue(k) => match value_end(s, p) {
                Some(q) => match dict_items_end(s, q, Some(k)) {
                    Some(r) => completes(s, r, rest),
                    None => false,
                },
                None => false,
            },
            Frame::Failed(_) => false,
        }
    }
}

/// On input that the grammar accepts from where the decoder stands, a read
/// by the owner does not fail, and the grammar still accepts what is left.
proof fn lemma_read_keeps_grammar(d: DecoderModel)
    requires
        reads_in_place(d),
        completes(d.source, d.offset, d.frames),
    ensures
        next_token_step(d).1 is Ok,
        next_token_step(d).1 matches Ok(Some(_)) ==> completes(
            next_token_step(d).0.source,
            next_token_step(d).0.offset,
            next_token_step(d).0.frames,
        ),
{
    let s = d.source;
    let p = d.offset;
    assert(skip_to(d, d.level) == (d, Ok::<(), Fault>(())));
    if d.frames.len() > 0 {
        assert(!(d.frames.last() is Failed));
    }
    if p < s.len() {
        lemma_lex_span(s, p);
        if let Lexed::Tok(t, e) = lex(s, p) {
            let d1 = next_token_step(d).0;
            let f = d.frames;
            if f.len() == 0 {
                let q = value_end(s, p)->Some_0;
                assert(values_to_end(s, q));
                if t is List {
                    assert(d1.frames =~= seq![Frame::InList]);
                    assert(d1.frames.drop_last() =~= f);
                    assert(list_items_end(s, e) == Some(q));
                    assert(completes(s, q, d1.frames.drop_last()));
                    assert(completes(s, e, d1.frames));
                } else if t is Dict {
                    assert(d1.frames =~= seq![Frame::AwaitKey(None)]);
                    assert(d1.frames.drop_last() =~= f);
                    assert(dict_items_end(s, e, None) == Some(q));
                    assert(completes(s, q, d1.frames.drop_last()));
                    assert(completes(s, e, d1.frames));
                } else if !(t is End) {
                    assert(q == e);
                    assert(d1.frames =~= f);
                    assert(completes(s, e, d1.frames));
                }
                assert(next_token_step(d).1 is Ok ==> d1.offset == e);
                assert(next_token_step(d).1 is Ok ==> completes(s, d1.offset, d1.frames));
            } else {
                let rest = f.drop_last();
                match f.last() {
                    Frame::InList => {
                        if !(t is End) {
                            let q1 = value_end(s, p)->Some_0;
                            assert(completes(s, q1, f));
                            if t is List {
                                assert(d1.frames =~= f.push(Frame::InList));
                                assert(d1.frames.drop_last() =~= f);
                                assert(list_items_end(s, e) == Some(q1));
                            } else if t is Dict {
                                assert(d1.frames =~= f.push(Frame::AwaitKey(None)));
                                assert(d1.frames.drop_last() =~= f);
                                assert(dict_items_end(s, e, None) == Some(q1));
                            } else {
                                assert(q1 == e);
                                assert(d1.frames =~= f);
                            }
                        } else {
                            assert(d1.frames =~= rest);
                        }
                        assert(next_token_step(d).1 is Ok ==> completes(s, d1.offset, d1.frames));
                    },
                    Frame::AwaitKey(prev) => {
                        if let TokenView::Bytes(k) = t {
                            assert(d1.frames =~= rest.push(Frame::AwaitValue(k)));
                            assert(d1.frames.drop_last() =~= rest);
                        }
                        assert(next_token_step(d).1 is Ok ==> completes(s, d1.offset, d1.frames));
                    },
                    Frame::AwaitValue(k) => {
                        let top = rest.push(Frame::AwaitKey(Some(k)));
                        assert(top.drop_last() =~= rest);
                        if t is List {
                            assert(d1.frames =~= top.push(Frame::InList));
                            assert(d1.frames.drop_last() =~= top);
                            assert(completes(s, value_end(s, p)->Some_0, top));
                        } else if t is Dict {
                            assert(d1.frames =~= top.push(Frame::AwaitKey(None)));
                            assert(d1.frames.drop_last() =~= top);
                            assert(completes(s, value_end(s, p)->Some_0, top));
                        } else if !(t is End) {
                            assert(d1.frames =~= top);
                        }
                        assert(next_token_step(d).1 is Ok ==> completes(s, d1.offset, d1.frames));
                    },
                    Frame::Failed(_) => {},
                }
            }
        }
    }
}

/// On input that the grammar accepts from where the decoder stands, the
/// owner reads it to its clean end without an error.
proof fn lemma_grammar_reads_cleanly(d: DecoderModel)
    requires
        reads_in_place(d),
        completes(d.source, d.offset, d.frames),
    ensures
        covered(d) is Some,
    decreases d.source.len() - d.offset,
{
    lemma_read_keeps_grammar(d);
    lemma_token_spans_its_text(d);
    let (d1, r) = next_token_step(d);
    if let Ok(Some(t)) = r {
        lemma_grammar_reads_cleanly(d1);
    }
}

/// Input that is zero or more well-formed values, one after another, reads
/// without an error, and the texts of its tokens make up the whole input.
pub proof fn lemma_well_formed_input_covered(s: Seq<u8>)
    requires
        values_to_end(s, 0),
    ensures
        covered(
            DecoderModel { source: s, offset: 0, frames: seq![], level: 0, starts: seq![] },
        ) == Some(s),
{
    let d = DecoderModel { source: s, offset: 0, frames: seq![], level: 0, starts: seq![] };
    lemma_grammar_reads_cleanly(d);
    lemma_new_decoder_covers_input(s);
}

} // verus!
