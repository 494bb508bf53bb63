//! Byte-level text structure: a file is a sequence of lines separated by
//! newlines, a line is a sequence of words separated by spaces.  Splitting
//! and joining are exact inverses under the conditions proved here, which
//! is what makes canonical printing a fixed point of parse-then-print.

use vstd::prelude::*;

verus! {

pub const SPACE: u8 = 32;

pub const NEWLINE: u8 = 10;

/// Element-wise deep view of a sequence.
pub open spec fn dvs<T: DeepView>(s: Seq<T>) -> Seq<T::V> {
    Seq::new(s.len(), |i: int| s[i].deep_view())
}

pub broadcast proof fn lemma_vec_dv<T: DeepView>(v: Vec<T>)
    ensures
        #[trigger] v.deep_view() == dvs(v@),
{
    assert(v.deep_view() =~= dvs(v@));
}

pub broadcast proof fn lemma_dvs_push<T: DeepView>(s: Seq<T>, x: T)
    ensures
        #[trigger] dvs(s.push(x)) == dvs(s).push(x.deep_view()),
{
    assert(dvs(s.push(x)) =~= dvs(s).push(x.deep_view()));
}

pub broadcast proof fn lemma_dvs_u8(s: Seq<u8>)
    ensures
        #[trigger] dvs(s) == s,
{
    assert(dvs(s) =~= s);
}

pub broadcast proof fn lemma_dvs_insert0<T: DeepView>(s: Seq<T>, x: T)
    ensures
        #[trigger] dvs(s.insert(0, x)) == seq![x.deep_view()] + dvs(s),
{
    assert(dvs(s.insert(0, x)) =~= seq![x.deep_view()] + dvs(s));
}

pub broadcast group text_dv_lemmas {
    lemma_vec_dv,
    lemma_dvs_push,
    lemma_dvs_u8,
    lemma_dvs_insert0,
}

/// True when byte `b` occurs nowhere in `s`.
pub open spec fn no_byte(s: Seq<u8>, b: u8) -> bool {
    forall|i: int| 0 <= i < s.len() ==> s[i] != b
}

/// Split `s` at every occurrence of `b`, keeping empty pieces: `n`
/// separators give `n + 1` pieces.
pub open spec fn split_on(s: Seq<u8>, b: u8) -> Seq<Seq<u8>>
    decreases s.len(),
{
    if s.len() == 0 {
        seq![Seq::<u8>::empty()]
    } else if s[0] == b {
        seq![Seq::<u8>::empty()] + split_on(s.skip(1), b)
    } else {
        let rest = split_on(s.skip(1), b);
        seq![seq![s[0]] + rest[0]] + rest.skip(1)
    }
}

/// Join pieces with a single `b` between consecutive pieces.
pub open spec fn join_with(ps: Seq<Seq<u8>>, b: u8) -> Seq<u8>
    decreases ps.len(),
{
    if ps.len() == 0 {
        Seq::<u8>::empty()
    } else if ps.len() == 1 {
        ps[0]
    } else {
        ps[0] + seq![b] + join_with(ps.skip(1), b)
    }
}

/// Remove the empty pieces of a piece sequence.
pub open spec fn drop_empties(ps: Seq<Seq<u8>>) -> Seq<Seq<u8>>
    decreases ps.len(),
{
    if ps.len() == 0 {
        Seq::<Seq<u8>>::empty()
    } else if ps[0].len() == 0 {
        drop_empties(ps.skip(1))
    } else {
        seq![ps[0]] + drop_empties(ps.skip(1))
    }
}

/// The words of a line: maximal runs of non-space bytes.
pub open spec fn words_of(s: Seq<u8>) -> Seq<Seq<u8>> {
    drop_empties(split_on(s, SPACE))
}

/// Canonical spelling of a word sequence: single spaces between words.
pub open spec fn unwords(ws: Seq<Seq<u8>>) -> Seq<u8> {
    join_with(ws, SPACE)
}

pub proof fn lemma_split_len(s: Seq<u8>, b: u8)
    ensures
        split_on(s, b).len() >= 1,
    decreases s.len(),
{
    if s.len() == 0 {
    } else {
        lemma_split_len(s.skip(1), b);
    }
}

pub proof fn lemma_split_nosep(w: Seq<u8>, b: u8)
    requires
        no_byte(w, b),
    ensures
        split_on(w, b) == seq![w],
    decreases w.len(),
{
    if w.len() == 0 {
        assert(split_on(w, b) =~~= seq![w]);
    } else {
        lemma_split_nosep(w.skip(1), b);
        let rest = split_on(w.skip(1), b);
        assert(rest[0] == w.skip(1));
        assert(seq![w[0]] + rest[0] =~= w);
        assert(split_on(w, b) =~~= seq![w]);
    }
}

pub proof fn lemma_split_concat(w: Seq<u8>, b: u8, t: Seq<u8>)
    requires
        no_byte(w, b),
    ensures
        split_on(w + seq![b] + t, b) == seq![w] + split_on(t, b),
    decreases w.len(),
{
    let s = w + seq![b] + t;
    if w.len() == 0 {
        assert(s[0] == b);
        assert(s.skip(1) =~= t);
        assert(split_on(s, b) =~~= seq![w] + split_on(t, b));
    } else {
        assert(s[0] == w[0]);
        assert(s.skip(1) =~= w.skip(1) + seq![b] + t);
        lemma_split_concat(w.skip(1), b, t);
        let rest = split_on(s.skip(1), b);
        lemma_split_len(t, b);
        assert(rest == seq![w.skip(1)] + split_on(t, b));
        assert(rest[0] == w.skip(1));
        assert(seq![s[0]] + rest[0] =~= w);
        assert(rest.skip(1) =~= split_on(t, b));
        assert(split_on(s, b) =~~= seq![w] + split_on(t, b));
    }
}

/// Splitting inverts joining when no piece contains the separator.
pub proof fn lemma_split_join(ps: Seq<Seq<u8>>, b: u8)
    requires
        ps.len() >= 1,
        forall|k: int| 0 <= k < ps.len() ==> no_byte(#[trigger] ps[k], b),
    ensures
        split_on(join_with(ps, b), b) == ps,
    decreases ps.len(),
{
    if ps.len() == 1 {
        lemma_split_nosep(ps[0], b);
        assert(split_on(join_with(ps, b), b) =~~= ps);
    } else {
        lemma_split_join(ps.skip(1), b);
        lemma_split_concat(ps[0], b, join_with(ps.skip(1), b));
        assert(seq![ps[0]] + ps.skip(1) =~~= ps);
    }
}

pub proof fn lemma_drop_empties_id(ps: Seq<Seq<u8>>)
    requires
        forall|k: int| 0 <= k < ps.len() ==> #[trigger] ps[k].len() > 0,
    ensures
        drop_empties(ps) == ps,
    decreases ps.len(),
{
    if ps.len() == 0 {
        assert(drop_empties(ps) =~~= ps);
    } else {
        lemma_drop_empties_id(ps.skip(1));
        assert(seq![ps[0]] + ps.skip(1) =~~= ps);
    }
}

pub proof fn lemma_drop_empties_push(ps: Seq<Seq<u8>>, x: Seq<u8>)
    ensures
        drop_empties(ps.push(x)) == drop_empties(ps) + (if x.len() == 0 {
            Seq::<Seq<u8>>::empty()
        } else {
            seq![x]
        }),
    decreases ps.len(),
{
    let tail: Seq<Seq<u8>> = if x.len() == 0 {
        Seq::<Seq<u8>>::empty()
    } else {
        seq![x]
    };
    if ps.len() == 0 {
        assert(ps.push(x) =~~= seq![x]);
        assert(seq![x][0] == x);
        assert(seq![x].skip(1) =~~= Seq::<Seq<u8>>::empty());
        assert(drop_empties(Seq::<Seq<u8>>::empty()) =~~= Seq::<Seq<u8>>::empty());
        assert(drop_empties(seq![x]) =~~= tail);
        assert(drop_empties(ps) =~~= Seq::<Seq<u8>>::empty());
        assert(drop_empties(ps) + tail =~~= tail);
    } else {
        lemma_drop_empties_push(ps.skip(1), x);
        assert(ps.push(x)[0] == ps[0]);
        assert(ps.push(x).skip(1) =~~= ps.skip(1).push(x));
        if ps[0].len() == 0 {
        } else {
            assert(seq![ps[0]] + (drop_empties(ps.skip(1)) + tail) =~~= (seq![ps[0]]
                + drop_empties(ps.skip(1))) + tail);
        }
    }
}

/// The canonical word form reparses to itself.
pub proof fn lemma_words_unwords(ws: Seq<Seq<u8>>)
    requires
        forall|k: int| 0 <= k < ws.len() ==> #[trigger] ws[k].len() > 0,
        forall|k: int| 0 <= k < ws.len() ==> no_byte(#[trigger] ws[k], SPACE),
    ensures
        words_of(unwords(ws)) == ws,
{
    if ws.len() == 0 {
        assert(unwords(ws).len() == 0);
        assert(split_on(unwords(ws), SPACE) =~~= seq![Seq::<u8>::empty()]);
        assert(seq![Seq::<u8>::empty()].skip(1) =~~= Seq::<Seq<u8>>::empty());
        assert(drop_empties(Seq::<Seq<u8>>::empty()) =~~= Seq::<Seq<u8>>::empty());
        assert(drop_empties(seq![Seq::<u8>::empty()]) =~~= Seq::<Seq<u8>>::empty());
        assert(words_of(unwords(ws)) =~~= ws);
    } else {
        lemma_split_join(ws, SPACE);
        lemma_drop_empties_id(ws);
    }
}

pub proof fn lemma_join_push(ps: Seq<Seq<u8>>, x: Seq<u8>, b: u8)
    ensures
        join_with(ps.push(x), b) == (if ps.len() == 0 {
            x
        } else {
            join_with(ps, b) + seq![b] + x
        }),
    decreases ps.len(),
{
    if ps.len() == 0 {
        assert(ps.push(x)[0] == x);
    } else if ps.len() == 1 {
        assert(ps.push(x)[0] == ps[0]);
        assert(ps.push(x).skip(1) =~~= seq![x]);
        assert(seq![x][0] == x);
        assert(join_with(seq![x], b) == x);
        assert(join_with(ps, b) == ps[0]);
    } else {
        lemma_join_push(ps.skip(1), x, b);
        assert(ps.push(x)[0] == ps[0]);
        assert(ps.push(x).skip(1) =~~= ps.skip(1).push(x));
        assert(ps.skip(1).len() >= 1);
        assert(join_with(ps.push(x), b) == ps[0] + seq![b] + join_with(ps.skip(1).push(x), b));
        assert(ps[0] + seq![b] + (join_with(ps.skip(1), b) + seq![b] + x) =~= (ps[0] + seq![b]
            + join_with(ps.skip(1), b)) + seq![b] + x);
    }
}

/// Every piece of a split is free of the separator, and keeps any
/// byte property that held of the whole.
pub proof fn lemma_split_pieces(s: Seq<u8>, b: u8, p: spec_fn(u8) -> bool)
    requires
        forall|i: int| 0 <= i < s.len() ==> p(#[trigger] s[i]),
    ensures
        forall|k: int| 0 <= k < split_on(s, b).len() ==> no_byte(#[trigger] split_on(s, b)[k], b),
        forall|k: int, j: int|
            0 <= k < split_on(s, b).len() && 0 <= j < split_on(s, b)[k].len() ==> p(
                #[trigger] split_on(s, b)[k][j],
            ),
    decreases s.len(),
{
    if s.len() == 0 {
    } else if s[0] == b {
        lemma_split_pieces(s.skip(1), b, p);
        let rest = split_on(s.skip(1), b);
        assert(forall|k: int|
            1 <= k < split_on(s, b).len() ==> split_on(s, b)[k] == rest[k - 1]);
    } else {
        lemma_split_pieces(s.skip(1), b, p);
        let rest = split_on(s.skip(1), b);
        lemma_split_len(s.skip(1), b);
        assert(split_on(s, b)[0] == seq![s[0]] + rest[0]);
        assert(forall|k: int|
            1 <= k < split_on(s, b).len() ==> split_on(s, b)[k] == rest[k]);
        assert(forall|j: int|
            0 <= j < (seq![s[0]] + rest[0]).len() ==> (seq![s[0]] + rest[0])[j] != b) by {
            assert(forall|j: int| 1 <= j < (seq![s[0]] + rest[0]).len() ==> (seq![s[0]]
                + rest[0])[j] == rest[0][j - 1]);
        }
        assert(forall|j: int|
            0 <= j < (seq![s[0]] + rest[0]).len() ==> p((seq![s[0]] + rest[0])[j])) by {
            assert(forall|j: int| 1 <= j < (seq![s[0]] + rest[0]).len() ==> (seq![s[0]]
                + rest[0])[j] == rest[0][j - 1]);
        }
    }
}

/// Copy of a byte vector.
pub fn dup_bytes(v: &Vec<u8>) -> (r: Vec<u8>)
    ensures
        r@ == v@,
{
    let mut out: Vec<u8> = Vec::new();
    let mut i: usize = 0;
    while i < v.len()
        invariant
            i <= v.len(),
            out@ == v@.take(i as int),
        decreases v.len() - i,
    {
        out.push(v[i]);
        proof {
            assert(v@.take(i + 1) =~= v@.take(i as int).push(v@[i as int]));
        }
        i += 1;
    }
    proof {
        assert(v@.take(v@.len() as int) =~= v@);
    }
    out
}

/// Split a byte vector at every occurrence of `b`.
pub fn split_bytes(s: &Vec<u8>, b: u8) -> (r: Vec<Vec<u8>>)
    ensures
        dvs(r@) == split_on(s@, b),
{
    broadcast use text_dv_lemmas;

    let ghost whole = split_on(s@, b);
    let mut done: Vec<Vec<u8>> = Vec::new();
    let mut cur: Vec<u8> = Vec::new();
    let mut i: usize = 0;
    proof {
        assert(s@.skip(0) =~= s@);
        lemma_split_len(s@, b);
        let r0 = split_on(s@, b);
        assert(seq![cur@ + r0[0]] + r0.skip(1) =~~= r0);
        assert(dvs(done@) =~~= Seq::<Seq<u8>>::empty());
    }
    while i < s.len()
        invariant
            i <= s.len(),
            whole == split_on(s@, b),
            whole == dvs(done@) + seq![cur@ + split_on(s@.skip(i as int), b)[0]] + split_on(
                s@.skip(i as int),
                b,
            ).skip(1),
        decreases s.len() - i,
    {
        let ghost ri = split_on(s@.skip(i as int), b);
        let ghost ri1 = split_on(s@.skip(i + 1), b);
        proof {
            assert(s@.skip(i as int)[0] == s@[i as int]);
            assert(s@.skip(i as int).skip(1) =~= s@.skip(i + 1));
            lemma_split_len(s@.skip(i + 1), b);
        }
        let c = s[i];
        let ghost d0 = dvs(done@);
        let ghost c0 = cur@;
        if c == b {
            proof {
                assert(ri =~~= seq![Seq::<u8>::empty()] + ri1);
                assert(ri[0] == Seq::<u8>::empty());
                assert(c0 + ri[0] =~= c0);
                assert(ri.skip(1) =~~= ri1);
                assert(whole =~~= d0 + seq![c0] + ri1);
            }
            done.push(cur);
            cur = Vec::new();
            proof {
                assert(done@.last()@ == c0);
                assert(dvs(done@) =~~= d0.push(c0));
                assert(cur@ + ri1[0] =~= ri1[0]);
                assert(seq![ri1[0]] + ri1.skip(1) =~~= ri1);
                assert(d0.push(c0) =~~= d0 + seq![c0]);
                assert(whole =~~= dvs(done@) + seq![cur@ + ri1[0]] + ri1.skip(1));
            }
        } else {
            proof {
                assert(ri =~~= seq![seq![s@[i as int]] + ri1[0]] + ri1.skip(1));
                assert(ri[0] == seq![s@[i as int]] + ri1[0]);
                assert(ri.skip(1) =~~= ri1.skip(1));
            }
            cur.push(c);
            proof {
                assert(cur@ =~= c0.push(c));
                assert(cur@ + ri1[0] =~= c0 + ri[0]);
                assert(whole =~~= dvs(done@) + seq![cur@ + ri1[0]] + ri1.skip(1));
            }
        }
        i += 1;
    }
    proof {
        assert(s@.skip(i as int) =~= Seq::<u8>::empty());
        let rl = split_on(s@.skip(i as int), b);
        assert(rl =~~= seq![Seq::<u8>::empty()]);
        assert(cur@ + rl[0] =~= cur@);
        assert(rl.skip(1) =~~= Seq::<Seq<u8>>::empty());
        assert(whole =~~= dvs(done@).push(cur@));
    }
    done.push(cur);
    done
}

/// Join pieces with single separators.
pub fn join_pieces(ps: &Vec<Vec<u8>>, b: u8) -> (r: Vec<u8>)
    ensures
        r@ == join_with(dvs(ps@), b),
{
    broadcast use text_dv_lemmas;

    let mut out: Vec<u8> = Vec::new();
    let mut i: usize = 0;
    proof {
        assert(out@ =~= join_with(dvs(ps@).take(0), b));
    }
    while i < ps.len()
        invariant
            i <= ps.len(),
            out@ == join_with(dvs(ps@).take(i as int), b),
        decreases ps.len() - i,
    {
        if i > 0 {
            out.push(b);
        }
        let piece = &ps[i];
        let mut j: usize = 0;
        let ghost mid = out@;
        while j < piece.len()
            invariant
                j <= piece.len(),
                out@ == mid + piece@.take(j as int),
            decreases piece.len() - j,
        {
            out.push(piece[j]);
            proof {
                assert(piece@.take(j + 1) =~= piece@.take(j as int).push(piece@[j as int]));
                assert(mid + piece@.take(j + 1) =~= (mid + piece@.take(j as int)).push(
                    piece@[j as int],
                ));
            }
            j += 1;
        }
        proof {
            assert(piece@.take(piece@.len() as int) =~= piece@);
            let q = dvs(ps@);
            assert(q.take(i as int).push(q[i as int]) =~~= q.take(i + 1));
            lemma_join_push(q.take(i as int), q[i as int], b);
            assert(q[i as int] == ps@[i as int]@);
            if i > 0 {
                assert(out@ =~= join_with(q.take(i + 1), b));
            } else {
                assert(mid =~= Seq::<u8>::empty());
                assert(out@ =~= q[0]);
                assert(out@ =~= join_with(q.take(1), b));
            }
        }
        i += 1;
    }
    proof {
        assert(dvs(ps@).take(ps@.len() as int) =~~= dvs(ps@));
    }
    out
}

/// The words of a line, in order.
pub fn split_line_words(s: &Vec<u8>) -> (r: Vec<Vec<u8>>)
    ensures
        dvs(r@) == words_of(s@),
{
    broadcast use text_dv_lemmas;

    let mut pieces = split_bytes(s, SPACE);
    let mut out: Vec<Vec<u8>> = Vec::new();
    let mut i: usize = 0;
    proof {
        assert(dvs(out@) =~~= drop_empties(dvs(pieces@).take(0)));
    }
    while i < pieces.len()
        invariant
            i <= pieces.len(),
            dvs(pieces@) == split_on(s@, SPACE),
            dvs(out@) == drop_empties(dvs(pieces@).take(i as int)),
        decreases pieces.len() - i,
    {
        proof {
            let q = dvs(pieces@);
            assert(q.take(i as int).push(q[i as int]) =~~= q.take(i + 1));
            lemma_drop_empties_push(q.take(i as int), q[i as int]);
        }
        if pieces[i].len() > 0 {
            let w = dup_bytes(&pieces[i]);
            out.push(w);
            proof {
                let q = dvs(pieces@);
                assert(dvs(out@) =~~= drop_empties(q.take(i as int)) + seq![q[i as int]]);
                assert(dvs(out@) =~~= drop_empties(q.take(i + 1)));
            }
        } else {
            proof {
                let q = dvs(pieces@);
                assert(drop_empties(q.take(i as int)) + Seq::<Seq<u8>>::empty() =~~= drop_empties(
                    q.take(i as int),
                ));
            }
        }
        i += 1;
    }
    proof {
        assert(dvs(pieces@).take(pieces@.len() as int) =~~= dvs(pieces@));
    }
    out
}

} // verus!
