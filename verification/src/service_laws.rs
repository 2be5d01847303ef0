//! What reading a service file gives, stated over whole lines: a section
//! header names the entries below it, `key=value` lines come out as entries,
//! commas make lists, quotes keep text as it is, and the end of the file and
//! a NUL end the search. The text comes out in UTF-8, each byte read
//! standing for the character of the same code ([`encode`]).
use vstd::prelude::*;

use crate::service::{
    can_read, char_boundary, drained, encode, fresh, is_continuation, is_wild, pushed, pushed_char, step, utf8,
    ReaderState, Read, Scan, StepView, COMMA, DOT, EQ, LBRACKET, NL, NUL, QUOTE, RBRACKET,
};
use crate::text::{first_index, join, lemma_first_index_is_least, split, split_of_join, split_once};

verus! {

/// Feeding the bytes `bs` to the reader one read at a time, until the search
/// for an entry is over or the bytes run out.
pub open spec fn feed(r: ReaderState, sc: Scan, bs: Seq<u8>) -> (ReaderState, Scan, StepView)
    decreases bs.len(),
{
    if bs.len() == 0 {
        (r, sc, StepView::More)
    } else {
        let (r1, sc1, st) = step(r, sc, Read::Byte(bs[0]));
        match st {
            StepView::More => feed(r1, sc1, bs.drop_first()),
            _ => (r1, sc1, st),
        }
    }
}

/// Feeding one byte is one step.
pub proof fn feed_one(r: ReaderState, sc: Scan, b: u8)
    ensures
        feed(r, sc, seq![b]) == step(r, sc, Read::Byte(b)),
{
    reveal_with_fuel(feed, 2);
    assert(seq![b].drop_first() =~= Seq::<u8>::empty());
}

/// A byte that is taken as it is outside quotes.
pub open spec fn is_plain(b: u8) -> bool {
    b != NUL && b != NL && b != QUOTE && b != COMMA && !is_wild(b)
}

/// Text made of plain bytes only.
pub open spec fn plain_text(s: Seq<u8>) -> bool {
    forall|i: int| 0 <= i < s.len() ==> is_plain(#[trigger] s[i])
}

/// The state with `s` added to the text.
pub open spec fn appended(r: ReaderState, s: Seq<u8>) -> ReaderState {
    ReaderState { buffer: r.buffer + s, drain: r.drain, label: r.label }
}

/// Feeding bytes in two parts is feeding them at once.
pub proof fn feed_concat(r: ReaderState, sc: Scan, a: Seq<u8>, b: Seq<u8>)
    ensures
        feed(r, sc, a + b) == (match feed(r, sc, a).2 {
            StepView::More => feed(feed(r, sc, a).0, feed(r, sc, a).1, b),
            _ => feed(r, sc, a),
        }),
    decreases a.len(),
{
    if a.len() == 0 {
        assert(a + b =~= b);
    } else {
        let (r1, sc1, st) = step(r, sc, Read::Byte(a[0]));
        assert((a + b)[0] == a[0]);
        assert((a + b).drop_first() =~= a.drop_first() + b);
        feed_concat(r1, sc1, a.drop_first(), b);
    }
}

/// Encoding text in two parts is encoding it at once.
pub proof fn lemma_encode_concat(a: Seq<u8>, b: Seq<u8>)
    ensures
        encode(a + b) == encode(a) + encode(b),
    decreases a.len(),
{
    if a.len() == 0 {
        assert(a + b =~= b);
        assert(encode(a) + encode(b) =~= encode(b));
    } else {
        assert((a + b)[0] == a[0]);
        assert((a + b).drop_first() =~= a.drop_first() + b);
        lemma_encode_concat(a.drop_first(), b);
        assert(encode(a + b) =~= encode(a) + encode(b));
    }
}

/// One character is encoded by itself.
pub proof fn lemma_encode_one(b: u8)
    ensures
        encode(seq![b]) == utf8(b),
{
    assert(seq![b].drop_first() =~= Seq::<u8>::empty());
    assert(seq![b][0] == b);
    assert(encode(Seq::<u8>::empty()) == Seq::<u8>::empty());
    assert(encode(seq![b]) == utf8(b) + encode(Seq::<u8>::empty()));
    assert(encode(seq![b]) =~= utf8(b));
}

/// An ASCII byte that the text lacks is lacking from its encoding too.
pub proof fn lemma_encode_lacks(s: Seq<u8>, x: u8)
    requires
        x < 0x80,
        !s.contains(x),
    ensures
        !encode(s).contains(x),
    decreases s.len(),
{
    if s.len() > 0 {
        let rest = s.drop_first();
        assert(!rest.contains(x)) by {
            if rest.contains(x) {
                let j = choose|j: int| 0 <= j < rest.len() && rest[j] == x;
                assert(s[j + 1] == x);
            }
        }
        lemma_encode_lacks(rest, x);
        assert(s[0] != x) by {
            assert(s.contains(s[0]));
        }
        let e = encode(s);
        let u = utf8(s[0]);
        if e.contains(x) {
            let j = choose|j: int| 0 <= j < e.len() && e[j] == x;
            if j < u.len() {
                assert(e[j] == u[j]);
            } else {
                assert(e[j] == encode(rest)[j - u.len()]);
            }
        }
    }
}

/// The encoding of nonempty text starts a character.
pub proof fn lemma_encode_first(s: Seq<u8>)
    requires
        s.len() > 0,
    ensures
        encode(s).len() > 0,
        !is_continuation(encode(s)[0]),
{
    assert(encode(s)[0] == utf8(s[0])[0]);
}

/// The encoding of nonempty text ends in `.` just where the text does.
pub proof fn lemma_encode_last(s: Seq<u8>)
    requires
        s.len() > 0,
    ensures
        encode(s).len() > 0,
        (encode(s).last() == DOT) == (s.last() == DOT),
{
    assert(s =~= s.drop_last() + seq![s.last()]);
    lemma_encode_concat(s.drop_last(), seq![s.last()]);
    lemma_encode_one(s.last());
}

/// Plain text outside quotes, with no drop pending, is added to the text,
/// encoded, and the search goes on.
pub proof fn plain_text_is_kept(r: ReaderState, sc: Scan, s: Seq<u8>)
    requires
        !r.drain,
        !sc.isquote,
        plain_text(s),
    ensures
        feed(r, sc, s) == (
            appended(r, encode(s)),
            Scan { last: if s.len() == 0 { sc.last } else { s.last() }, isquote: false },
            StepView::More,
        ),
    decreases s.len(),
{
    if s.len() == 0 {
        assert(r.buffer + encode(s) =~= r.buffer);
    } else {
        let b = s[0];
        assert(is_plain(b));
        let r1 = pushed_char(r, b);
        let sc1 = Scan { last: b, isquote: false };
        assert(step(r, sc, Read::Byte(b)) == (r1, sc1, StepView::More));
        assert forall|i: int| 0 <= i < s.drop_first().len() implies is_plain(
            #[trigger] s.drop_first()[i],
        ) by {
            assert(s.drop_first()[i] == s[i + 1]);
        }
        plain_text_is_kept(r1, sc1, s.drop_first());
        assert(r1.buffer + encode(s.drop_first()) =~= r.buffer + encode(s));
        if s.len() > 1 {
            assert(s.drop_first().last() == s.last());
        }
    }
}

/// The prefix that the header `[h]` puts before the keys below it: `h`
/// and a `.`, unless `h` ends in one already.
pub open spec fn section_prefix(h: Seq<u8>) -> Seq<u8> {
    if h.last() == DOT {
        h
    } else {
        h.push(DOT)
    }
}

/// The reader at the start of a line, with the prefix `p` in effect.
pub open spec fn at_line_start(r: ReaderState, p: Seq<u8>) -> bool {
    &&& can_read(r)
    &&& drained(r).buffer == p
    &&& drained(r).label == p.len()
    &&& !p.contains(EQ)
    &&& p.len() > 0 ==> p.last() == DOT
}

/// A header line `[h]` read at the start of a line makes the encoded `h`,
/// ending in `.`, the prefix of the keys that follow, whatever prefix was in
/// effect before.
pub proof fn header_sets_prefix(r: ReaderState, sc: Scan, p: Seq<u8>, h: Seq<u8>)
    requires
        at_line_start(r, p),
        !sc.isquote,
        h.len() > 0,
        plain_text(h),
        !h.contains(EQ),
    ensures
        feed(r, sc, seq![LBRACKET] + h + seq![RBRACKET, NL]) == (
            ReaderState {
                buffer: section_prefix(encode(h)),
                drain: false,
                label: section_prefix(encode(h)).len(),
            },
            Scan { last: NL, isquote: false },
            StepView::More,
        ),
        at_line_start(
            ReaderState {
                buffer: section_prefix(encode(h)),
                drain: false,
                label: section_prefix(encode(h)).len(),
            },
            section_prefix(encode(h)),
        ),
{
    let r1 = step(r, sc, Read::Byte(LBRACKET)).0;
    let sc1 = Scan { last: LBRACKET, isquote: false };
    assert(r1.buffer =~= Seq::<u8>::empty() && !r1.drain);
    assert(step(r, sc, Read::Byte(LBRACKET)) == (r1, sc1, StepView::More));
    feed_one(r, sc, LBRACKET);
    let bytes = seq![LBRACKET] + h + seq![RBRACKET, NL];
    assert(bytes =~= seq![LBRACKET] + (h + seq![RBRACKET, NL]));
    feed_concat(r, sc, seq![LBRACKET], h + seq![RBRACKET, NL]);
    plain_text_is_kept(r1, sc1, h);
    feed_concat(r1, sc1, h, seq![RBRACKET, NL]);
    let e = encode(h);
    lemma_encode_last(h);
    lemma_encode_lacks(h, EQ);
    let r2 = appended(r1, e);
    assert(r2.buffer =~= e);
    let sc2 = Scan { last: h.last(), isquote: false };
    let sc3 = Scan { last: RBRACKET, isquote: false };
    assert(step(r2, sc2, Read::Byte(RBRACKET)) == (r2, sc3, StepView::More));
    let r4 = ReaderState { buffer: section_prefix(e), drain: false, label: section_prefix(e).len() };
    assert(step(r2, sc3, Read::Byte(NL)) == (r4, Scan { last: NL, isquote: false }, StepView::More));
    assert(seq![RBRACKET, NL] =~= seq![RBRACKET] + seq![NL]);
    feed_concat(r2, sc2, seq![RBRACKET], seq![NL]);
    feed_one(r2, sc2, RBRACKET);
    feed_one(r2, sc3, NL);
    let q = section_prefix(e);
    assert(!q.contains(EQ)) by {
        if q.contains(EQ) {
            let j = choose|j: int| 0 <= j < q.len() && q[j] == EQ;
            if j < e.len() {
                assert(e[j] == EQ);
            }
        }
    }
}

/// Where the first `=` of `p + k + "=" + v` stands when `p` and `k` hold
/// none.
pub proof fn lemma_split_entry(p: Seq<u8>, k: Seq<u8>, v: Seq<u8>)
    requires
        !p.contains(EQ),
        !k.contains(EQ),
    ensures
        split_once(p + k + seq![EQ] + v, EQ) == Some((p + k, v)),
        (p + k + seq![EQ] + v).contains(EQ),
{
    let t = p + k + seq![EQ] + v;
    let i: int = (p.len() + k.len()) as int;
    assert forall|j: int| 0 <= j < i implies t[j] != EQ by {
        if j < p.len() {
            assert(t[j] == p[j]);
        } else {
            assert(t[j] == k[j - p.len()]);
        }
    }
    assert(t[i] == EQ);
    lemma_first_index_is_least(t, EQ, i);
    assert(t.take(i) =~= p + k);
    assert(t.skip(i + 1) =~= v);
}

/// A plain line body with its line feed kept: the pending drop is made and
/// the body is added, encoded.
pub proof fn plain_after_drain(r: ReaderState, sc: Scan, s: Seq<u8>)
    requires
        can_read(r),
        !sc.isquote,
        s.len() > 0,
        plain_text(s),
    ensures
        feed(r, sc, s) == (
            ReaderState { buffer: drained(r).buffer + encode(s), drain: false, label: drained(r).label },
            Scan { last: s.last(), isquote: false },
            StepView::More,
        ),
{
    let b = s[0];
    let d = drained(r);
    let r1 = ReaderState { buffer: d.buffer + utf8(b), drain: false, label: d.label };
    let sc1 = Scan { last: b, isquote: false };
    assert(step(r, sc, Read::Byte(b)) == (r1, sc1, StepView::More));
    feed_one(r, sc, b);
    let rest = s.drop_first();
    assert forall|i: int| 0 <= i < rest.len() implies is_plain(#[trigger] rest[i]) by {
        assert(rest[i] == s[i + 1]);
    }
    plain_text_is_kept(r1, sc1, rest);
    assert(s =~= seq![b] + rest);
    feed_concat(r, sc, seq![b], rest);
    assert(r1.buffer + encode(rest) =~= d.buffer + encode(s));
    if rest.len() > 0 {
        assert(rest.last() == s.last());
    }
}

/// A line `key=value` read after the section prefix `p` comes out as the
/// entry `p + key` with the value, both encoded, whatever text after the
/// prefix the last entry left; the text after the prefix is dropped at the
/// next read.
pub proof fn line_gives_entry(r: ReaderState, sc0: Scan, p: Seq<u8>, k: Seq<u8>, v: Seq<u8>)
    requires
        can_read(r),
        !sc0.isquote,
        drained(r).buffer == p,
        !p.contains(EQ),
        plain_text(k),
        !k.contains(EQ),
        plain_text(v),
    ensures
        feed(r, sc0, k + seq![EQ] + v + seq![NL]) == (
            ReaderState {
                buffer: p + encode(k) + seq![EQ] + encode(v),
                drain: true,
                label: drained(r).label,
            },
            Scan { last: NL, isquote: false },
            StepView::Done(Some((p + encode(k), encode(v)))),
        ),
{
    let body = k + seq![EQ] + v;
    assert(plain_text(body)) by {
        assert forall|i: int| 0 <= i < body.len() implies is_plain(#[trigger] body[i]) by {
            if i < k.len() {
                assert(body[i] == k[i]);
            } else if i > k.len() {
                assert(body[i] == v[i - k.len() - 1]);
            }
        }
    }
    plain_after_drain(r, sc0, body);
    lemma_encode_concat(k, seq![EQ] + v);
    lemma_encode_concat(seq![EQ], v);
    lemma_encode_one(EQ);
    assert(body =~= k + (seq![EQ] + v));
    assert(encode(body) =~= encode(k) + seq![EQ] + encode(v));
    lemma_encode_lacks(k, EQ);
    lemma_split_entry(p, encode(k), encode(v));
    let r2 = feed(r, sc0, body).0;
    let sc2 = feed(r, sc0, body).1;
    assert(r2.buffer =~= p + encode(k) + seq![EQ] + encode(v));
    assert(drained(r2) == r2);
    assert(body + seq![NL] =~= k + seq![EQ] + v + seq![NL]);
    feed_concat(r, sc0, body, seq![NL]);
    feed_one(r2, sc2, NL);
}

/// A section header names the entries below it: reading `[name]`, a line
/// feed and `k1=v1` with a line feed from a file just opened gives the entry
/// `name.k1` with value `v1`, and the next search, on `k2=v2` and a line
/// feed, gives `name.k2` with value `v2` (all encoded).
pub proof fn section_names_its_entries(
    name: Seq<u8>,
    k1: Seq<u8>,
    v1: Seq<u8>,
    k2: Seq<u8>,
    v2: Seq<u8>,
)
    requires
        name.len() > 0,
        plain_text(name),
        !name.contains(EQ),
        name.last() != DOT,
        plain_text(k1),
        !k1.contains(EQ),
        plain_text(v1),
        plain_text(k2),
        !k2.contains(EQ),
        plain_text(v2),
    ensures
        ({
            let header = seq![LBRACKET] + name + seq![RBRACKET, NL];
            let first = feed(
                fresh(),
                Scan { last: NUL, isquote: false },
                header + (k1 + seq![EQ] + v1 + seq![NL]),
            );
            let second = feed(first.0, Scan { last: NUL, isquote: false }, k2 + seq![EQ] + v2 + seq![NL]);
            let p = encode(name).push(DOT);
            &&& first.2 == StepView::Done(Some((p + encode(k1), encode(v1))))
            &&& second.2 == StepView::Done(Some((p + encode(k2), encode(v2))))
        }),
{
    let header = seq![LBRACKET] + name + seq![RBRACKET, NL];
    let sc0 = Scan { last: NUL, isquote: false };
    assert(drained(fresh()) == fresh());
    assert(!Seq::<u8>::empty().contains(EQ));
    header_sets_prefix(fresh(), sc0, Seq::empty(), name);
    lemma_encode_last(name);
    let p = section_prefix(encode(name));
    assert(p == encode(name).push(DOT));
    let r1 = ReaderState { buffer: p, drain: false, label: p.len() };
    let sc1 = Scan { last: NL, isquote: false };
    feed_concat(fresh(), sc0, header, k1 + seq![EQ] + v1 + seq![NL]);
    line_gives_entry(r1, sc1, p, k1, v1);
    let r2 = ReaderState { buffer: p + encode(k1) + seq![EQ] + encode(v1), drain: true, label: p.len() };
    assert(drained(r2).buffer =~= p);
    assert(char_boundary(r2.buffer, r2.label as int)) by {
        if k1.len() > 0 {
            lemma_encode_first(k1);
            assert(r2.buffer[p.len() as int] == encode(k1)[0]);
        } else {
            assert(encode(k1) =~= Seq::<u8>::empty());
            assert(r2.buffer[p.len() as int] == EQ);
        }
    }
    line_gives_entry(r2, sc0, p, k2, v2);
}

/// Items separated by commas outside quotes come out, encoded, separated by
/// `'`, so that splitting the value at `'` gives the encoded items back.
pub proof fn list_gives_items(r: ReaderState, sc0: Scan, p: Seq<u8>, k: Seq<u8>, items: Seq<Seq<u8>>)
    requires
        can_read(r),
        !sc0.isquote,
        drained(r).buffer == p,
        !p.contains(EQ),
        plain_text(k),
        !k.contains(EQ),
        items.len() >= 1,
        forall|i: int| 0 <= i < items.len() ==> plain_text(#[trigger] items[i]),
    ensures
        ({
            let enc = items.map_values(|s: Seq<u8>| encode(s));
            &&& feed(r, sc0, k + seq![EQ] + join(items, COMMA) + seq![NL]) == (
                ReaderState {
                    buffer: p + encode(k) + seq![EQ] + join(enc, QUOTE),
                    drain: true,
                    label: drained(r).label,
                },
                Scan { last: NL, isquote: false },
                StepView::Done(Some((p + encode(k), join(enc, QUOTE)))),
            )
            &&& split(join(enc, QUOTE), QUOTE) == enc
        }),
{
    let enc = items.map_values(|s: Seq<u8>| encode(s));
    assert forall|i: int| 0 <= i < enc.len() implies !(#[trigger] enc[i]).contains(QUOTE) by {
        assert(!items[i].contains(QUOTE)) by {
            if items[i].contains(QUOTE) {
                let j = choose|j: int| 0 <= j < items[i].len() && items[i][j] == QUOTE;
                assert(plain_text(items[i]));
                assert(is_plain(items[i][j]));
            }
        }
        lemma_encode_lacks(items[i], QUOTE);
    }
    split_of_join(enc, QUOTE);
    let head = k + seq![EQ];
    assert(plain_text(head)) by {
        assert forall|i: int| 0 <= i < head.len() implies is_plain(#[trigger] head[i]) by {
            if i < k.len() {
                assert(head[i] == k[i]);
            }
        }
    }
    lemma_encode_concat(k, seq![EQ]);
    lemma_encode_one(EQ);
    lemma_encode_lacks(k, EQ);
    lemma_split_entry(p, encode(k), join(enc, QUOTE));
    plain_after_drain(r, sc0, head);
    let r2 = feed(r, sc0, head).0;
    let sc2 = feed(r, sc0, head).1;
    assert(r2.buffer =~= p + encode(k) + seq![EQ]);
    list_is_kept(r2, sc2, items);
    let r3 = appended(r2, join(enc, QUOTE));
    assert(r3.buffer =~= p + encode(k) + seq![EQ] + join(enc, QUOTE));
    let all = k + seq![EQ] + join(items, COMMA) + seq![NL];
    assert(all =~= head + (join(items, COMMA) + seq![NL]));
    feed_concat(r, sc0, head, join(items, COMMA) + seq![NL]);
    feed_concat(r2, sc2, join(items, COMMA), seq![NL]);
    let sc3 = feed(r2, sc2, join(items, COMMA)).1;
    assert(!sc3.isquote);
    assert(drained(r3) == r3);
    feed_one(r3, sc3, NL);
}

/// Feeding items joined by commas, outside quotes and with no drop pending,
/// adds them, encoded, joined by `'`.
proof fn list_is_kept(r: ReaderState, sc: Scan, items: Seq<Seq<u8>>)
    requires
        !r.drain,
        !sc.isquote,
        items.len() >= 1,
        forall|i: int| 0 <= i < items.len() ==> plain_text(#[trigger] items[i]),
    ensures
        feed(r, sc, join(items, COMMA)).0 == appended(
            r,
            join(items.map_values(|s: Seq<u8>| encode(s)), QUOTE),
        ),
        !feed(r, sc, join(items, COMMA)).1.isquote,
        feed(r, sc, join(items, COMMA)).2 == StepView::More,
    decreases items.len(),
{
    let enc = items.map_values(|s: Seq<u8>| encode(s));
    if items.len() == 1 {
        assert(plain_text(items[0]));
        plain_text_is_kept(r, sc, items[0]);
        assert(enc[0] == encode(items[0]));
    } else {
        let init = items.drop_last();
        assert forall|i: int| 0 <= i < init.len() implies plain_text(#[trigger] init[i]) by {
            assert(init[i] == items[i]);
        }
        list_is_kept(r, sc, init);
        let enc_init = init.map_values(|s: Seq<u8>| encode(s));
        assert(enc.drop_last() =~= enc_init);
        assert(enc.last() == encode(items.last()));
        let (r1, sc1, _) = feed(r, sc, join(init, COMMA));
        feed_concat(r, sc, join(init, COMMA), seq![COMMA] + items.last());
        assert(join(items, COMMA) =~= join(init, COMMA) + (seq![COMMA] + items.last()));
        let r2 = pushed(r1, QUOTE);
        let sc2 = Scan { last: COMMA, isquote: false };
        assert(step(r1, sc1, Read::Byte(COMMA)) == (r2, sc2, StepView::More));
        feed_one(r1, sc1, COMMA);
        feed_concat(r1, sc1, seq![COMMA], items.last());
        assert(plain_text(items[items.len() - 1]));
        plain_text_is_kept(r2, sc2, items.last());
        assert(r2.buffer + encode(items.last()) =~= r.buffer + join(enc, QUOTE));
    }
}

/// Inside quotes every byte but a NUL and the closing quote is kept, encoded:
/// blanks, commas, brackets and line feeds included.
pub proof fn quoted_text_is_kept(r: ReaderState, sc: Scan, q: Seq<u8>)
    requires
        !r.drain,
        !sc.isquote,
        !q.contains(QUOTE),
        !q.contains(NUL),
    ensures
        feed(r, sc, seq![QUOTE] + q + seq![QUOTE]) == (
            appended(r, encode(q)),
            Scan { last: QUOTE, isquote: false },
            StepView::More,
        ),
{
    let sc1 = Scan { last: QUOTE, isquote: true };
    assert(step(r, sc, Read::Byte(QUOTE)) == (r, sc1, StepView::More));
    feed_one(r, sc, QUOTE);
    assert(seq![QUOTE] + q + seq![QUOTE] =~= seq![QUOTE] + (q + seq![QUOTE]));
    feed_concat(r, sc, seq![QUOTE], q + seq![QUOTE]);
    quoted_bytes_are_kept(r, sc1, q);
    feed_concat(r, sc1, q, seq![QUOTE]);
    let r2 = appended(r, encode(q));
    let sc2 = Scan { last: if q.len() == 0 { QUOTE } else { q.last() }, isquote: true };
    assert(step(r2, sc2, Read::Byte(QUOTE)) == (r2, Scan { last: QUOTE, isquote: false }, StepView::More));
    feed_one(r2, sc2, QUOTE);
}

proof fn quoted_bytes_are_kept(r: ReaderState, sc: Scan, q: Seq<u8>)
    requires
        !r.drain,
        sc.isquote,
        !q.contains(QUOTE),
        !q.contains(NUL),
    ensures
        feed(r, sc, q) == (
            appended(r, encode(q)),
            Scan { last: if q.len() == 0 { sc.last } else { q.last() }, isquote: true },
            StepView::More,
        ),
    decreases q.len(),
{
    if q.len() == 0 {
        assert(r.buffer + encode(q) =~= r.buffer);
    } else {
        let b = q[0];
        assert(b != QUOTE && b != NUL) by {
            assert(q.contains(q[0]));
        }
        let r1 = pushed_char(r, b);
        let sc1 = Scan { last: b, isquote: true };
        assert(step(r, sc, Read::Byte(b)) == (r1, sc1, StepView::More));
        let rest = q.drop_first();
        assert(!rest.contains(QUOTE) && !rest.contains(NUL)) by {
            if rest.contains(QUOTE) {
                let j = choose|j: int| 0 <= j < rest.len() && rest[j] == QUOTE;
                assert(q[j + 1] == QUOTE);
            }
            if rest.contains(NUL) {
                let j = choose|j: int| 0 <= j < rest.len() && rest[j] == NUL;
                assert(q[j + 1] == NUL);
            }
        }
        quoted_bytes_are_kept(r1, sc1, rest);
        assert(r1.buffer + encode(rest) =~= r.buffer + encode(q));
        if q.len() > 1 {
            assert(rest.last() == q.last());
        }
    }
}

/// The character of a two-byte UTF-8 sequence: the low five bits of the
/// first byte, then the low six bits of the second.
pub open spec fn decode2(first: u8, second: u8) -> u32 {
    (((first as u32) & 0x1F) << 6) | ((second as u32) & 0x3F)
}

/// Each byte read stands for the character of the same code, given out in
/// UTF-8: a byte below 0x80 as itself; a byte from 0x80 on as a lead byte
/// (0xC2 below 0xC0, 0xC3 from there) and a continuation byte, which decode
/// back to the byte.
pub proof fn bytes_come_out_as_their_characters(b: u8)
    ensures
        b < 0x80 ==> utf8(b) == seq![b],
        b >= 0x80 ==> {
            &&& utf8(b).len() == 2
            &&& utf8(b)[0] == (if b < 0xC0 { 0xC2u8 } else { 0xC3u8 })
            &&& is_continuation(utf8(b)[1])
            &&& decode2(utf8(b)[0], utf8(b)[1]) == b as u32
        },
{
    if b >= 0x80 {
        let c0: u8 = (0xC0 + b / 64) as u8;
        let c1: u8 = (0x80 + b % 64) as u8;
        assert(c0 == (if b < 0xC0 { 0xC2u8 } else { 0xC3u8 }) && 0x80 <= c1 < 0xC0 && (((c0 as u32) & 0x1F)
            << 6) | ((c1 as u32) & 0x3F) == b as u32) by (bit_vector)
            requires
                b >= 0x80,
                c0 == (0xC0 + b / 64) as u8,
                c1 == (0x80 + b % 64) as u8,
        ;
    }
}

/// A byte from 0x80 on, read outside quotes or inside, adds to the text
/// the two bytes of its character, which decode back to it; a byte below
/// 0x80 that is taken as it is adds itself.
pub proof fn read_byte_adds_its_character(r: ReaderState, sc: Scan, b: u8)
    requires
        !r.drain,
    ensures
        b >= 0x80 ==> {
            let t = step(r, sc, Read::Byte(b)).0.buffer;
            let n = r.buffer.len() as int;
            &&& step(r, sc, Read::Byte(b)).2 == StepView::More
            &&& t.len() == n + 2
            &&& t.take(n) == r.buffer
            &&& decode2(t[n], t[n + 1]) == b as u32
        },
        b < 0x80 && is_plain(b) && !sc.isquote ==> step(r, sc, Read::Byte(b)).0.buffer == r.buffer.push(b),
{
    bytes_come_out_as_their_characters(b);
    if b >= 0x80 {
        let t = step(r, sc, Read::Byte(b)).0.buffer;
        assert(t == r.buffer + utf8(b));
        assert(t.take(r.buffer.len() as int) =~= r.buffer);
    }
}

/// A `[` or `]` outside quotes after the `=` of an entry opens no section:
/// it is left out, and the line `key=[value]` gives the same entry as
/// `key=value`.
pub proof fn brackets_in_value_are_left_out(r: ReaderState, sc0: Scan, p: Seq<u8>, k: Seq<u8>, v: Seq<u8>)
    requires
        can_read(r),
        !sc0.isquote,
        drained(r).buffer == p,
        !p.contains(EQ),
        plain_text(k),
        !k.contains(EQ),
        plain_text(v),
    ensures
        feed(r, sc0, k + seq![EQ, LBRACKET] + v + seq![RBRACKET, NL]).2 == StepView::Done(
            Some((p + encode(k), encode(v))),
        ),
        feed(r, sc0, k + seq![EQ, LBRACKET] + v + seq![RBRACKET, NL]).2 == feed(
            r,
            sc0,
            k + seq![EQ] + v + seq![NL],
        ).2,
{
    line_gives_entry(r, sc0, p, k, v);
    let head = k + seq![EQ];
    assert(plain_text(head)) by {
        assert forall|i: int| 0 <= i < head.len() implies is_plain(#[trigger] head[i]) by {
            if i < k.len() {
                assert(head[i] == k[i]);
            }
        }
    }
    plain_after_drain(r, sc0, head);
    lemma_encode_concat(k, seq![EQ]);
    lemma_encode_one(EQ);
    lemma_encode_lacks(k, EQ);
    let r1 = feed(r, sc0, head).0;
    let sc1 = feed(r, sc0, head).1;
    let e = p + encode(k) + seq![EQ];
    assert(r1.buffer =~= e);
    assert(e.contains(EQ)) by {
        assert(e[e.len() - 1] == EQ);
    }
    // The `[` is skipped: the text holds `=`.
    let sc2 = Scan { last: LBRACKET, isquote: false };
    assert(step(r1, sc1, Read::Byte(LBRACKET)) == (r1, sc2, StepView::More));
    feed_one(r1, sc1, LBRACKET);
    plain_text_is_kept(r1, sc2, v);
    let r3 = appended(r1, encode(v));
    let sc3 = Scan { last: if v.len() == 0 { LBRACKET } else { v.last() }, isquote: false };
    let sc4 = Scan { last: RBRACKET, isquote: false };
    assert(step(r3, sc3, Read::Byte(RBRACKET)) == (r3, sc4, StepView::More));
    feed_one(r3, sc3, RBRACKET);
    lemma_split_entry(p, encode(k), encode(v));
    assert(r3.buffer =~= p + encode(k) + seq![EQ] + encode(v));
    feed_one(r3, sc4, NL);
    let all = k + seq![EQ, LBRACKET] + v + seq![RBRACKET, NL];
    assert(all =~= head + (seq![LBRACKET] + (v + (seq![RBRACKET] + seq![NL]))));
    feed_concat(r, sc0, head, seq![LBRACKET] + (v + (seq![RBRACKET] + seq![NL])));
    feed_concat(r1, sc1, seq![LBRACKET], v + (seq![RBRACKET] + seq![NL]));
    feed_concat(r1, sc2, v, seq![RBRACKET] + seq![NL]);
    feed_concat(r3, sc3, seq![RBRACKET], seq![NL]);
}

/// Once the end of the file has been reached, reading on gives no more
/// entries.
pub proof fn nothing_after_end(r: ReaderState, sc: Scan, sc2: Scan)
    ensures
        step(step(r, sc, Read::End).0, sc2, Read::End).2 == StepView::Done(None),
{
    let r1 = step(r, sc, Read::End).0;
    assert(drained(r1).buffer =~= Seq::<u8>::empty());
}

/// A NUL byte ends the search with no entry, inside quotes or not.
pub proof fn nul_ends_search(r: ReaderState, sc: Scan)
    ensures
        step(r, sc, Read::Byte(NUL)).2 == StepView::Done(None),
{
}

/// At the end of the file, the text gathered so far comes out as an entry
/// when it holds `=`, split at the first one.
pub proof fn end_gives_pending_entry(r: ReaderState, sc: Scan)
    ensures
        step(r, sc, Read::End).2 == StepView::Done(split_once(drained(r).buffer, EQ)),
        split_once(drained(r).buffer, EQ) is Some <==> drained(r).buffer.contains(EQ),
{
    let t = drained(r).buffer;
    crate::text::lemma_first_index(t, EQ);
    match first_index(t, EQ) {
        Some(i) => {
            assert(t.contains(EQ)) by {
                assert(t[i] == EQ);
            }
        },
        None => {},
    }
}

} // verus!
