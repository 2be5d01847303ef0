//! What reading a whole service file gives: for a file of empty lines,
//! section headers and `key=value` lines, the searches for entries yield
//! the entries in file order, each key behind the prefix of the last header
//! above it, and then no entry ever again; and the reader can take every
//! read on the way.
use vstd::prelude::*;

use crate::service::{
    can_read, char_boundary, drained, encode, fresh, step, ReaderState, Read, Scan, StepView, EQ, LBRACKET, NL,
    NUL, RBRACKET,
};
use crate::service_laws::{
    at_line_start, feed, feed_one, header_sets_prefix, is_plain, lemma_encode_concat, lemma_encode_first,
    lemma_encode_lacks, lemma_encode_one, lemma_split_entry, plain_after_drain, plain_text, section_prefix,
};
use crate::text::{lemma_first_index_is_least, split_once};

verus! {

/// One line of a service file.
pub enum Line {
    /// An empty line.
    Blank,
    /// A section header `[h]`.
    Header(Seq<u8>),
    /// An entry line `k=v`.
    Pair(Seq<u8>, Seq<u8>),
}

/// The bytes of a line, its line feed included.
pub open spec fn line_bytes(l: Line) -> Seq<u8> {
    match l {
        Line::Blank => seq![NL],
        Line::Header(h) => seq![LBRACKET] + h + seq![RBRACKET, NL],
        Line::Pair(k, v) => k + seq![EQ] + v + seq![NL],
    }
}

/// The bytes of a file of lines.
pub open spec fn file_bytes(ls: Seq<Line>) -> Seq<u8>
    decreases ls.len(),
{
    if ls.len() == 0 {
        Seq::empty()
    } else {
        line_bytes(ls[0]) + file_bytes(ls.drop_first())
    }
}

/// A line of the kind this law is about: a header names a nonempty section
/// of plain bytes without `=`; an entry has a key of plain bytes without
/// `=` and a value of plain bytes.
pub open spec fn line_ok(l: Line) -> bool {
    match l {
        Line::Blank => true,
        Line::Header(h) => h.len() > 0 && plain_text(h) && !h.contains(EQ),
        Line::Pair(k, v) => plain_text(k) && !k.contains(EQ) && plain_text(v),
    }
}

/// The entries of the lines `ls`, in order, the prefix in effect before
/// them being `p`.
pub open spec fn expected_entries(ls: Seq<Line>, p: Seq<u8>) -> Seq<(Seq<u8>, Seq<u8>)>
    decreases ls.len(),
{
    if ls.len() == 0 {
        Seq::empty()
    } else {
        match ls[0] {
            Line::Blank => expected_entries(ls.drop_first(), p),
            Line::Header(h) => expected_entries(ls.drop_first(), section_prefix(encode(h))),
            Line::Pair(k, v) => seq![(p + encode(k), encode(v))] + expected_entries(ls.drop_first(), p),
        }
    }
}

/// The lines after the first entry line, and the prefix in effect there.
pub open spec fn after_first_pair(ls: Seq<Line>, p: Seq<u8>) -> (Seq<Line>, Seq<u8>)
    decreases ls.len(),
{
    if ls.len() == 0 {
        (ls, p)
    } else {
        match ls[0] {
            Line::Blank => after_first_pair(ls.drop_first(), p),
            Line::Header(h) => after_first_pair(ls.drop_first(), section_prefix(encode(h))),
            Line::Pair(_, _) => (ls.drop_first(), p),
        }
    }
}

/// Whether the reader can take each read while the bytes `bs` are fed to
/// it, until the search is over.
pub open spec fn reads_fit(r: ReaderState, sc: Scan, bs: Seq<u8>) -> bool
    decreases bs.len(),
{
    if bs.len() == 0 {
        true
    } else {
        can_read(r) && {
            let (r1, sc1, st) = step(r, sc, Read::Byte(bs[0]));
            match st {
                StepView::More => reads_fit(r1, sc1, bs.drop_first()),
                _ => true,
            }
        }
    }
}

/// One search for an entry in the rest `bs` of a file: the reader's state
/// after it, the bytes left, the entry found, and whether the reader could
/// take every read. Where the bytes run out, the read gives the end of the
/// file.
pub open spec fn search(r: ReaderState, sc: Scan, bs: Seq<u8>) -> (
    ReaderState,
    Seq<u8>,
    Option<(Seq<u8>, Seq<u8>)>,
    bool,
)
    decreases bs.len(),
{
    if bs.len() == 0 {
        let (r1, _, st) = step(r, sc, Read::End);
        (r1, bs, match st {
            StepView::Done(x) => x,
            _ => None,
        }, can_read(r))
    } else {
        let (r1, sc1, st) = step(r, sc, Read::Byte(bs[0]));
        match st {
            StepView::More => {
                let s = search(r1, sc1, bs.drop_first());
                (s.0, s.1, s.2, can_read(r) && s.3)
            },
            StepView::Done(x) => (r1, bs.drop_first(), x, can_read(r)),
        }
    }
}

/// `n` searches one after the other, each from the start of a search: what
/// each found, and whether the reader could take every read.
pub open spec fn searches(r: ReaderState, bs: Seq<u8>, n: nat) -> (Seq<Option<(Seq<u8>, Seq<u8>)>>, bool)
    decreases n,
{
    if n == 0 {
        (Seq::empty(), true)
    } else {
        let s = search(r, Scan { last: NUL, isquote: false }, bs);
        let t = searches(s.0, s.1, (n - 1) as nat);
        (seq![s.2] + t.0, s.3 && t.1)
    }
}

/// The first `n` results of searching a file with the entries `es`: the
/// entries, then nothing.
pub open spec fn expected_results(es: Seq<(Seq<u8>, Seq<u8>)>, n: nat) -> Seq<Option<(Seq<u8>, Seq<u8>)>> {
    Seq::new(n, |i: int| if i < es.len() { Some(es[i]) } else { None })
}

/// The reader after the end of the file.
pub open spec fn ended(r: ReaderState) -> bool {
    r.drain && r.label == 0 && !r.buffer.contains(EQ)
}

/// Reading a file of empty lines, headers and entry lines, one search after
/// the other, gives its entries in order, each key behind the prefix of the
/// last header above it (behind nothing where there is none), and after
/// them no entry, however often it is searched again; the reader can take
/// every read.
pub proof fn file_gives_its_entries_in_order(ls: Seq<Line>, n: nat)
    requires
        forall|i: int| 0 <= i < ls.len() ==> line_ok(#[trigger] ls[i]),
    ensures
        searches(fresh(), file_bytes(ls), n) == (
            expected_results(expected_entries(ls, Seq::empty()), n),
            true,
        ),
{
    assert(drained(fresh()) == fresh());
    assert(!Seq::<u8>::empty().contains(EQ));
    lemma_searches(fresh(), Seq::empty(), ls, n);
}

proof fn lemma_searches(r: ReaderState, p: Seq<u8>, ls: Seq<Line>, n: nat)
    requires
        at_line_start(r, p),
        forall|i: int| 0 <= i < ls.len() ==> line_ok(#[trigger] ls[i]),
    ensures
        searches(r, file_bytes(ls), n) == (expected_results(expected_entries(ls, p), n), true),
    decreases n,
{
    if n > 0 {
        let sc = Scan { last: NUL, isquote: false };
        lemma_one_search(r, sc, p, ls);
        let s = search(r, sc, file_bytes(ls));
        let es = expected_entries(ls, p);
        if es.len() > 0 {
            let (ls2, p2) = after_first_pair(ls, p);
            lemma_after_first_pair_ok(ls, p);
            lemma_searches(s.0, p2, ls2, (n - 1) as nat);
            assert(expected_results(es, n) =~= seq![Some(es[0])] + expected_results(es.drop_first(), (n - 1) as nat));
        } else {
            lemma_searches_ended(s.0, (n - 1) as nat);
            assert(expected_results(es, n) =~= seq![None] + expected_results(es, (n - 1) as nat));
        }
    } else {
        assert(expected_results(expected_entries(ls, p), n) =~= Seq::empty());
    }
}

proof fn lemma_searches_ended(r: ReaderState, n: nat)
    requires
        ended(r),
    ensures
        searches(r, Seq::empty(), n) == (expected_results(Seq::empty(), n), true),
    decreases n,
{
    if n > 0 {
        let sc = Scan { last: NUL, isquote: false };
        let s = search(r, sc, Seq::empty());
        assert(drained(r).buffer =~= Seq::<u8>::empty());
        assert(!drained(r).buffer.contains(EQ));
        lemma_split_once_none(drained(r).buffer);
        assert(ended(s.0));
        lemma_searches_ended(s.0, (n - 1) as nat);
        assert(expected_results(Seq::empty(), n) =~= seq![None] + expected_results(Seq::empty(), (n - 1) as nat));
    } else {
        assert(expected_results(Seq::empty(), n) =~= Seq::empty());
    }
}

proof fn lemma_split_once_none(t: Seq<u8>)
    requires
        !t.contains(EQ),
    ensures
        split_once(t, EQ) is None,
{
    assert forall|j: int| 0 <= j < t.len() implies t[j] != EQ by {
        if t[j] == EQ {
            assert(t.contains(EQ));
        }
    }
    lemma_first_index_is_least(t, EQ, t.len() as int);
}

proof fn lemma_after_first_pair_ok(ls: Seq<Line>, p: Seq<u8>)
    requires
        forall|i: int| 0 <= i < ls.len() ==> line_ok(#[trigger] ls[i]),
    ensures
        forall|i: int|
            0 <= i < after_first_pair(ls, p).0.len() ==> line_ok(#[trigger] after_first_pair(ls, p).0[i]),
    decreases ls.len(),
{
    if ls.len() > 0 {
        let rest = ls.drop_first();
        assert forall|i: int| 0 <= i < rest.len() implies line_ok(#[trigger] rest[i]) by {
            assert(rest[i] == ls[i + 1]);
        }
        match ls[0] {
            Line::Blank => {
                lemma_after_first_pair_ok(rest, p);
                assert(after_first_pair(ls, p) == after_first_pair(rest, p));
            },
            Line::Header(h) => {
                lemma_after_first_pair_ok(rest, section_prefix(encode(h)));
                assert(after_first_pair(ls, p) == after_first_pair(rest, section_prefix(encode(h))));
            },
            Line::Pair(_, _) => {
                assert(after_first_pair(ls, p).0 == rest);
            },
        }
    }
}

/// A step that lets the search go on leaves no drop pending.
proof fn lemma_more_clears_drain(r: ReaderState, sc: Scan, read: Read)
    ensures
        step(r, sc, read).2 is More ==> !step(r, sc, read).0.drain,
{
}

/// Bytes fed without ending the search could all be read, when the first
/// could.
proof fn lemma_more_fits(r: ReaderState, sc: Scan, a: Seq<u8>)
    requires
        can_read(r),
        feed(r, sc, a).2 is More,
    ensures
        reads_fit(r, sc, a),
    decreases a.len(),
{
    if a.len() > 0 {
        let (r1, sc1, st) = step(r, sc, Read::Byte(a[0]));
        lemma_more_clears_drain(r, sc, Read::Byte(a[0]));
        if st is More {
            lemma_more_fits(r1, sc1, a.drop_first());
        }
    }
}

/// A search over bytes in two parts, the first of which does not end it.
proof fn lemma_search_concat(r: ReaderState, sc: Scan, a: Seq<u8>, b: Seq<u8>)
    requires
        feed(r, sc, a).2 is More,
    ensures
        ({
            let f = feed(r, sc, a);
            let s = search(f.0, f.1, b);
            search(r, sc, a + b) == (s.0, s.1, s.2, reads_fit(r, sc, a) && s.3)
        }),
    decreases a.len(),
{
    if a.len() == 0 {
        assert(a + b =~= b);
    } else {
        let (r1, sc1, st) = step(r, sc, Read::Byte(a[0]));
        assert((a + b)[0] == a[0]);
        assert((a + b).drop_first() =~= a.drop_first() + b);
        lemma_search_concat(r1, sc1, a.drop_first(), b);
    }
}

/// An empty line leaves the prefix as it is.
proof fn lemma_blank_line(r: ReaderState, sc: Scan, p: Seq<u8>)
    requires
        at_line_start(r, p),
        !sc.isquote,
    ensures
        feed(r, sc, seq![NL]).2 is More,
        at_line_start(feed(r, sc, seq![NL]).0, p),
        !feed(r, sc, seq![NL]).1.isquote,
        reads_fit(r, sc, seq![NL]),
{
    feed_one(r, sc, NL);
    lemma_more_clears_drain(r, sc, Read::Byte(NL));
    lemma_more_fits(r, sc, seq![NL]);
}

/// One search from the start of a line, the prefix `p` in effect.
proof fn lemma_one_search(r: ReaderState, sc: Scan, p: Seq<u8>, ls: Seq<Line>)
    requires
        at_line_start(r, p),
        !sc.isquote,
        forall|i: int| 0 <= i < ls.len() ==> line_ok(#[trigger] ls[i]),
    ensures
        ({
            let s = search(r, sc, file_bytes(ls));
            let es = expected_entries(ls, p);
            let (ls2, p2) = after_first_pair(ls, p);
            &&& s.3
            &&& es.len() > 0 ==> {
                &&& s.2 == Some(es[0])
                &&& s.1 == file_bytes(ls2)
                &&& at_line_start(s.0, p2)
                &&& expected_entries(ls2, p2) == es.drop_first()
            }
            &&& es.len() == 0 ==> s.2 is None && s.1 == Seq::<u8>::empty() && ended(s.0)
        }),
    decreases ls.len(),
{
    if ls.len() == 0 {
        assert(file_bytes(ls) =~= Seq::<u8>::empty());
        lemma_split_once_none(drained(r).buffer);
    } else {
        let rest = ls.drop_first();
        assert forall|i: int| 0 <= i < rest.len() implies line_ok(#[trigger] rest[i]) by {
            assert(rest[i] == ls[i + 1]);
        }
        assert(line_ok(ls[0]));
        let lb = line_bytes(ls[0]);
        assert(file_bytes(ls) == lb + file_bytes(rest));
        match ls[0] {
            Line::Blank => {
                lemma_blank_line(r, sc, p);
                lemma_search_concat(r, sc, lb, file_bytes(rest));
                let f = feed(r, sc, lb);
                lemma_one_search(f.0, f.1, p, rest);
            },
            Line::Header(h) => {
                header_sets_prefix(r, sc, p, h);
                lemma_search_concat(r, sc, lb, file_bytes(rest));
                let f = feed(r, sc, lb);
                lemma_more_fits(r, sc, lb);
                lemma_one_search(f.0, f.1, section_prefix(encode(h)), rest);
            },
            Line::Pair(k, v) => {
                let body = k + seq![EQ] + v;
                assert(plain_text(body)) by {
                    assert forall|i: int| 0 <= i < body.len() implies is_plain(
                        #[trigger] body[i],
                    ) by {
                        if i < k.len() {
                            assert(body[i] == k[i]);
                        } else if i > k.len() {
                            assert(body[i] == v[i - k.len() - 1]);
                        }
                    }
                }
                plain_after_drain(r, sc, body);
                lemma_more_fits(r, sc, body);
                lemma_encode_concat(k, seq![EQ] + v);
                lemma_encode_concat(seq![EQ], v);
                lemma_encode_one(EQ);
                assert(body =~= k + (seq![EQ] + v));
                assert(encode(body) =~= encode(k) + seq![EQ] + encode(v));
                lemma_encode_lacks(k, EQ);
                assert(lb + file_bytes(rest) =~= body + (seq![NL] + file_bytes(rest)));
                lemma_search_concat(r, sc, body, seq![NL] + file_bytes(rest));
                let r2 = feed(r, sc, body).0;
                let sc2 = feed(r, sc, body).1;
                assert(r2.buffer =~= p + encode(k) + seq![EQ] + encode(v));
                lemma_split_entry(p, encode(k), encode(v));
                let r3 = ReaderState { buffer: r2.buffer, drain: true, label: r2.label };
                assert(step(r2, sc2, Read::Byte(NL)) == (
                    r3,
                    Scan { last: NL, isquote: false },
                    StepView::Done(Some((p + encode(k), encode(v)))),
                ));
                assert((seq![NL] + file_bytes(rest))[0] == NL);
                assert((seq![NL] + file_bytes(rest)).drop_first() =~= file_bytes(rest));
                assert(drained(r3).buffer =~= p);
                assert(char_boundary(r3.buffer, r3.label as int)) by {
                    if k.len() > 0 {
                        lemma_encode_first(k);
                        assert(r3.buffer[p.len() as int] == encode(k)[0]);
                    } else {
                        assert(encode(k) =~= Seq::<u8>::empty());
                        assert(r3.buffer[p.len() as int] == EQ);
                    }
                }
            },
        }
    }
}

} // verus!
