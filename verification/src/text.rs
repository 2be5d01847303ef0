//! Byte-string helpers shared by the service-file reader, the dependency
//! resolver and the socket code: NUL-terminated paths, splitting on a
//! separator, and splitting once at the first occurrence of a byte.
use vstd::prelude::*;

verus! {

/// A path as the kernel reads it: the bytes of the name, then a NUL.
pub open spec fn nul_terminated(s: Seq<u8>) -> Seq<u8> {
    s.push(0u8)
}

/// The pieces of `s` between the occurrences of `sep`, in order, the way
/// `str::split` yields them: there is always one more piece than there are
/// occurrences of `sep`, and empty pieces are kept.
pub open spec fn split(s: Seq<u8>, sep: u8) -> Seq<Seq<u8>>
    decreases s.len(),
{
    if s.len() == 0 {
        seq![Seq::<u8>::empty()]
    } else {
        let init = split(s.drop_last(), sep);
        if s.last() == sep {
            init.push(Seq::<u8>::empty())
        } else {
            init.update(init.len() - 1, init.last().push(s.last()))
        }
    }
}

/// The pieces of `pieces` glued back together with `sep` between two
/// neighbours.
pub open spec fn join(pieces: Seq<Seq<u8>>, sep: u8) -> Seq<u8>
    decreases pieces.len(),
{
    if pieces.len() <= 1 {
        if pieces.len() == 0 {
            Seq::<u8>::empty()
        } else {
            pieces[0]
        }
    } else {
        join(pieces.drop_last(), sep).push(sep) + pieces.last()
    }
}

/// Position of the first `b` in `s`, if there is one.
pub open spec fn first_index(s: Seq<u8>, b: u8) -> Option<int>
    decreases s.len(),
{
    if s.len() == 0 {
        None
    } else if s[0] == b {
        Some(0)
    } else {
        match first_index(s.drop_first(), b) {
            Some(i) => Some(i + 1),
            None => None,
        }
    }
}

/// `str::split_once`: the text before the first `b` and the text after it,
/// or nothing where `b` does not occur.
pub open spec fn split_once(s: Seq<u8>, b: u8) -> Option<(Seq<u8>, Seq<u8>)> {
    match first_index(s, b) {
        Some(i) => Some((s.take(i), s.skip(i + 1))),
        None => None,
    }
}

pub proof fn lemma_first_index(s: Seq<u8>, b: u8)
    ensures
        match first_index(s, b) {
            Some(i) => 0 <= i < s.len() && s[i] == b && forall|j: int| 0 <= j < i ==> s[j] != b,
            None => !s.contains(b),
        },
    decreases s.len(),
{
    if s.len() > 0 {
        lemma_first_index(s.drop_first(), b);
        if s[0] != b {
            match first_index(s.drop_first(), b) {
                Some(i) => {
                    assert forall|j: int| 0 <= j < i + 1 implies s[j] != b by {
                        if j > 0 {
                            assert(s[j] == s.drop_first()[j - 1]);
                        }
                    }
                },
                None => {
                    assert forall|j: int| 0 <= j < s.len() implies s[j] != b by {
                        if j > 0 {
                            assert(s[j] == s.drop_first()[j - 1]);
                        }
                    }
                },
            }
        }
    }
}

/// The first index of `b` is the least index that holds `b`.
pub proof fn lemma_first_index_is_least(s: Seq<u8>, b: u8, i: int)
    requires
        0 <= i <= s.len(),
        forall|j: int| 0 <= j < i ==> s[j] != b,
        i < s.len() ==> s[i] == b,
    ensures
        i < s.len() ==> first_index(s, b) == Some(i),
        i == s.len() ==> first_index(s, b) is None,
{
    lemma_first_index(s, b);
    match first_index(s, b) {
        Some(k) => {
            if k < i {
            } else if k > i {
                assert(s[i] != b);
            }
        },
        None => {
            if i < s.len() {
                assert(s.contains(b)) by {
                    assert(s[i] == b);
                }
            }
        },
    }
}

pub proof fn lemma_split_nonempty(s: Seq<u8>, sep: u8)
    ensures
        split(s, sep).len() >= 1,
    decreases s.len(),
{
    if s.len() > 0 {
        lemma_split_nonempty(s.drop_last(), sep);
    }
}

/// No piece of a split holds the separator.
pub proof fn split_pieces_lack_separator(s: Seq<u8>, sep: u8)
    ensures
        forall|i: int| 0 <= i < split(s, sep).len() ==> !(#[trigger] split(s, sep)[i]).contains(sep),
    decreases s.len(),
{
    if s.len() > 0 {
        split_pieces_lack_separator(s.drop_last(), sep);
        lemma_split_nonempty(s.drop_last(), sep);
        let init = split(s.drop_last(), sep);
        if s.last() != sep {
            assert forall|i: int| 0 <= i < split(s, sep).len() implies !(#[trigger] split(
                s,
                sep,
            )[i]).contains(sep) by {
                if i == init.len() - 1 {
                    let p = init.last().push(s.last());
                    assert(!init[i].contains(sep));
                    if p.contains(sep) {
                        let k = choose|k: int| 0 <= k < p.len() && p[k] == sep;
                        if k < init.last().len() {
                            assert(init.last()[k] == sep);
                        }
                    }
                }
            }
        } else {
            assert forall|i: int| 0 <= i < split(s, sep).len() implies !(#[trigger] split(
                s,
                sep,
            )[i]).contains(sep) by {
                if i < init.len() {
                    assert(!init[i].contains(sep));
                }
            }
        }
    }
}

/// Splitting and joining again with the same separator gives the text back.
pub proof fn join_of_split(s: Seq<u8>, sep: u8)
    ensures
        join(split(s, sep), sep) == s,
    decreases s.len(),
{
    if s.len() > 0 {
        let t = s.drop_last();
        join_of_split(t, sep);
        lemma_split_nonempty(t, sep);
        let init = split(t, sep);
        if s.last() == sep {
            let ps = init.push(Seq::<u8>::empty());
            assert(ps.drop_last() =~= init);
            assert(join(ps, sep) == join(init, sep).push(sep) + Seq::<u8>::empty());
            assert(s =~= t.push(sep));
        } else {
            assert(init.last().push(s.last()).drop_last() =~= init.last());
            lemma_join_update_last(init, sep, init.last().push(s.last()));
            assert(s =~= t.push(s.last()));
        }
    }
}

proof fn lemma_join_update_last(ps: Seq<Seq<u8>>, sep: u8, p: Seq<u8>)
    requires
        ps.len() >= 1,
        p.len() >= 1,
        p.drop_last() == ps.last(),
    ensures
        join(ps.update(ps.len() - 1, p), sep) == join(ps, sep).push(p.last()),
{
    let qs = ps.update(ps.len() - 1, p);
    if ps.len() == 1 {
        assert(qs[0] == p);
        assert(p =~= ps[0].push(p.last()));
    } else {
        assert(qs.drop_last() =~= ps.drop_last());
        assert(p =~= ps.last().push(p.last()));
        assert(join(qs, sep) =~= join(ps, sep).push(p.last()));
    }
}

/// Joining pieces that hold no separator and splitting the result again
/// gives the pieces back.
pub proof fn split_of_join(ps: Seq<Seq<u8>>, sep: u8)
    requires
        ps.len() >= 1,
        forall|i: int| 0 <= i < ps.len() ==> !(#[trigger] ps[i]).contains(sep),
    ensures
        split(join(ps, sep), sep) == ps,
    decreases ps.len(), ps.last().len(),
{
    if ps.len() == 1 {
        lemma_split_plain(ps[0], sep);
    } else {
        let init = ps.drop_last();
        let last = ps.last();
        assert(!last.contains(sep)) by {
            assert(ps[ps.len() - 1] == last);
        }
        if last.len() == 0 {
            assert forall|i: int| 0 <= i < init.len() implies !(#[trigger] init[i]).contains(sep) by {
                assert(init[i] == ps[i]);
            }
            split_of_join(init, sep);
            let j = join(init, sep).push(sep);
            assert(join(ps, sep) =~= j);
            assert(j.drop_last() =~= join(init, sep));
            assert(split(j, sep) =~= init.push(Seq::<u8>::empty()));
            assert(last =~= Seq::<u8>::empty());
            assert(ps =~= init.push(Seq::<u8>::empty()));
        } else {
            let shorter = ps.update(ps.len() - 1, last.drop_last());
            assert forall|i: int| 0 <= i < shorter.len() implies !(#[trigger] shorter[i]).contains(
                sep,
            ) by {
                if i < ps.len() - 1 {
                    assert(shorter[i] == ps[i]);
                } else {
                    if last.drop_last().contains(sep) {
                        let k = choose|k: int| 0 <= k < last.drop_last().len() && last.drop_last()[k] == sep;
                        assert(last[k] == sep);
                    }
                }
            }
            split_of_join(shorter, sep);
            assert(shorter.drop_last() =~= init);
            let j = join(ps, sep);
            assert(j =~= join(init, sep).push(sep) + last);
            assert(j.drop_last() =~= join(shorter, sep));
            assert(last[last.len() - 1] != sep);
            assert(j.last() == last.last());
            lemma_split_nonempty(j.drop_last(), sep);
            assert(split(j, sep) =~= shorter.update(shorter.len() - 1, shorter.last().push(last.last())));
            assert(shorter.last() == last.drop_last());
            assert(last.drop_last().push(last.last()) =~= last);
            assert(ps =~= shorter.update(shorter.len() - 1, shorter.last().push(last.last())));
        }
    }
}

proof fn lemma_split_plain(s: Seq<u8>, sep: u8)
    requires
        !s.contains(sep),
    ensures
        split(s, sep) == seq![s],
    decreases s.len(),
{
    if s.len() > 0 {
        assert(!s.drop_last().contains(sep)) by {
            if s.drop_last().contains(sep) {
                let k = choose|k: int| 0 <= k < s.drop_last().len() && s.drop_last()[k] == sep;
                assert(s[k] == sep);
            }
        }
        lemma_split_plain(s.drop_last(), sep);
        assert(s[s.len() - 1] != sep);
        assert(split(s.drop_last(), sep).last() == s.drop_last());
        assert(s.drop_last().push(s.last()) =~= s);
        assert(split(s, sep) =~= seq![s]);
    } else {
        assert(s =~= Seq::<u8>::empty());
        assert(split(s, sep) =~= seq![s]);
    }
}

/// Copies `s` into a fresh vector.
pub fn copy_bytes(s: &[u8]) -> (out: Vec<u8>)
    ensures
        out@ == s@,
{
    let mut out: Vec<u8> = Vec::new();
    let mut i: usize = 0;
    while i < s.len()
        invariant
            i <= s.len(),
            out@ == s@.take(i as int),
        decreases s.len() - i,
    {
        out.push(s[i]);
        i = i + 1;
        assert(out@ =~= s@.take(i as int));
    }
    assert(s@.take(s@.len() as int) =~= s@);
    out
}

/// Whether two byte strings are equal.
pub fn bytes_eq(a: &[u8], b: &[u8]) -> (r: bool)
    ensures
        r == (a@ == b@),
{
    if a.len() != b.len() {
        return false;
    }
    let mut i: usize = 0;
    while i < a.len()
        invariant
            i <= a.len(),
            a.len() == b.len(),
            forall|j: int| 0 <= j < i ==> a@[j] == b@[j],
        decreases a.len() - i,
    {
        if a[i] != b[i] {
            return false;
        }
        i = i + 1;
    }
    assert(a@ =~= b@);
    true
}

/// Whether `s` holds the byte `b`.
pub fn contains_byte(s: &[u8], b: u8) -> (r: bool)
    ensures
        r == s@.contains(b),
{
    let mut i: usize = 0;
    while i < s.len()
        invariant
            i <= s.len(),
            forall|j: int| 0 <= j < i ==> s@[j] != b,
        decreases s.len() - i,
    {
        if s[i] == b {
            return true;
        }
        i = i + 1;
    }
    false
}

/// The bytes of `s` followed by a NUL: the form in which a name is handed to
/// `open(2)`, `remove(3)` and the other calls that take a path.
pub fn c_string(s: &[u8]) -> (out: Vec<u8>)
    ensures
        out@ == nul_terminated(s@),
{
    let mut out = copy_bytes(s);
    out.push(0u8);
    out
}

/// Splits `s` at every `sep`, keeping empty pieces.
pub fn split_on(s: &[u8], sep: u8) -> (pieces: Vec<Vec<u8>>)
    ensures
        pieces.deep_view() == split(s@, sep),
{
    let mut pieces: Vec<Vec<u8>> = Vec::new();
    let mut cur: Vec<u8> = Vec::new();
    let mut i: usize = 0;
    while i < s.len()
        invariant
            i <= s.len(),
            pieces.deep_view().push(cur@) == split(s@.take(i as int), sep),
        decreases s.len() - i,
    {
        let ghost before = s@.take(i as int);
        proof {
            lemma_split_nonempty(before, sep);
        }
        assert(s@.take(i + 1).drop_last() =~= before);
        let ghost old_pieces = pieces.deep_view();
        let ghost old_cur = cur@;
        let ghost cur_vec = cur;
        proof {
            assert(cur_vec.deep_view() =~= cur_vec@);
        }
        if s[i] == sep {
            pieces.push(cur);
            cur = Vec::new();
            assert(pieces.deep_view() =~= old_pieces.push(old_cur));
            assert(pieces.deep_view().push(cur@) =~= split(before, sep).push(Seq::<u8>::empty()));
        } else {
            cur.push(s[i]);
            assert(pieces.deep_view().push(cur@) =~= split(before, sep).update(
                split(before, sep).len() - 1,
                split(before, sep).last().push(s@[i as int]),
            ));
        }
        i = i + 1;
    }
    assert(s@.take(s.len() as int) =~= s@);
    let ghost old_pieces = pieces.deep_view();
    let ghost old_cur = cur@;
    let ghost cur_vec = cur;
    proof {
        assert(cur_vec.deep_view() =~= cur_vec@);
    }
    pieces.push(cur);
    assert(pieces.deep_view() =~= old_pieces.push(old_cur));
    pieces
}

/// `str::split_once`: the bytes before the first `b` and those after it.
pub fn split_once_at(s: &[u8], b: u8) -> (r: Option<(Vec<u8>, Vec<u8>)>)
    ensures
        match (r, split_once(s@, b)) {
            (Some((k, v)), Some((ks, vs))) => k@ == ks && v@ == vs,
            (None, None) => true,
            _ => false,
        },
{
    let mut i: usize = 0;
    while i < s.len()
        invariant
            i <= s.len(),
            forall|j: int| 0 <= j < i ==> s@[j] != b,
        decreases s.len() - i,
    {
        if s[i] == b {
            proof {
                lemma_first_index_is_least(s@, b, i as int);
            }
            let mut key: Vec<u8> = Vec::new();
            let mut j: usize = 0;
            while j < i
                invariant
                    j <= i,
                    i < s.len(),
                    key@ == s@.take(j as int),
                decreases i - j,
            {
                key.push(s[j]);
                j = j + 1;
                assert(key@ =~= s@.take(j as int));
            }
            let mut value: Vec<u8> = Vec::new();
            let mut k: usize = i + 1;
            while k < s.len()
                invariant
                    i < k <= s.len(),
                    value@ == s@.subrange(i + 1, k as int),
                decreases s.len() - k,
            {
                value.push(s[k]);
                k = k + 1;
                assert(value@ =~= s@.subrange(i + 1, k as int));
            }
            assert(value@ =~= s@.skip(i + 1));
            return Some((key, value));
        }
        i = i + 1;
    }
    proof {
        lemma_first_index_is_least(s@, b, s@.len() as int);
    }
    None
}

} // verus!
