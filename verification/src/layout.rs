//! How a byte sequence is laid out in pieces of a fixed size, and the facts
//! about those pieces that the drive's reads and writes rest on.
use vstd::prelude::*;
use vstd::arithmetic::div_mod::*;
use vstd::arithmetic::mul::*;
use vstd::seq_lib::lemma_flatten_concat;

verus! {

/// `n` zero bytes.
pub open spec fn zeros(n: nat) -> Seq<u8> {
    Seq::new(n, |i: int| 0u8)
}

/// `data` brought to exactly `n` bytes: zero bytes are added behind a
/// shorter sequence, a longer one is cut.
pub open spec fn fit_to(data: Seq<u8>, n: nat) -> Seq<u8> {
    if data.len() <= n {
        data + zeros((n - data.len()) as nat)
    } else {
        data.take(n as int)
    }
}

/// The consecutive pieces of at most `m` bytes that `data` splits into, in
/// order, the last one possibly shorter (as `<[u8]>::chunks` yields them).
pub open spec fn chunks_of(data: Seq<u8>, m: nat) -> Seq<Seq<u8>>
    decreases data.len(),
{
    if m == 0 || data.len() == 0 {
        Seq::empty()
    } else if data.len() <= m {
        seq![data]
    } else {
        seq![data.take(m as int)] + chunks_of(data.skip(m as int), m)
    }
}

/// `base` with the bytes from position `at` on overwritten by `data`.
pub open spec fn splice(base: Seq<u8>, at: int, data: Seq<u8>) -> Seq<u8> {
    base.take(at) + data + base.skip(at + data.len())
}

/// Every piece has exactly `m` bytes.
pub open spec fn uniform(pieces: Seq<Seq<u8>>, m: nat) -> bool {
    forall|i: int| 0 <= i < pieces.len() ==> #[trigger] pieces[i].len() == m
}

/// A sequence brought to `n` bytes has `n` bytes: its own bytes first, as
/// many as fit, then zero bytes; one that already has `n` bytes is left as
/// it is.
pub proof fn lemma_fit_to(data: Seq<u8>, n: nat)
    ensures
        fit_to(data, n).len() == n,
        forall|i: int|
            0 <= i < n ==> #[trigger] fit_to(data, n)[i] == if i < data.len() {
                data[i]
            } else {
                0u8
            },
        data.len() == n ==> fit_to(data, n) == data,
{
    if data.len() == n {
        assert(fit_to(data, n) =~= data);
    }
}

/// Splitting into pieces and putting the pieces back together gives the
/// sequence back; every piece is non-empty and at most `m` long.
pub proof fn lemma_chunks_flatten(data: Seq<u8>, m: nat)
    requires
        m > 0,
    ensures
        chunks_of(data, m).flatten() == data,
        forall|i: int|
            0 <= i < chunks_of(data, m).len() ==> 0 < #[trigger] chunks_of(data, m)[i].len() <= m,
    decreases data.len(),
{
    if data.len() == 0 {
        assert(chunks_of(data, m).flatten() =~= data);
    } else if data.len() <= m {
        assert(chunks_of(data, m) == seq![data]);
        seq![data].lemma_flatten_singleton();
    } else {
        let rest = data.skip(m as int);
        lemma_chunks_flatten(rest, m);
        let head = seq![data.take(m as int)];
        assert(chunks_of(data, m) == head + chunks_of(rest, m));
        lemma_flatten_concat(head, chunks_of(rest, m));
        head.lemma_flatten_singleton();
        assert(data.take(m as int) + rest =~= data);
        assert forall|i: int| 0 <= i < chunks_of(data, m).len() implies 0 < #[trigger] chunks_of(
            data,
            m,
        )[i].len() <= m by {
            if i > 0 {
                assert(chunks_of(data, m)[i] == chunks_of(rest, m)[i - 1]);
            }
        }
    }
}

/// Where the `k`-th piece of at most `m` bytes of a sequence of `len` bytes
/// ends: `m` bytes after its start, or at the end of the sequence.
pub open spec fn piece_end(k: int, m: nat, len: nat) -> int {
    if k * m + m <= len {
        k * m + m
    } else {
        len as int
    }
}

/// The `k`-th of the `(len + m - 1) / m` pieces starts inside the sequence.
pub proof fn lemma_piece_start(k: int, len: int, m: int)
    requires
        m > 0,
        0 <= k < (len + m - 1) / m,
    ensures
        0 <= k * m < len,
        k * m + m == (k + 1) * m,
{
    let q = (len + m - 1) / m;
    lemma_fundamental_div_mod(len + m - 1, m);
    lemma_mod_pos_bound(len + m - 1, m);
    lemma_mul_inequality(k + 1, q, m);
    lemma_mul_is_commutative(m, q);
    lemma_mul_is_distributive_add_other_way(m, k, 1);
    lemma_mul_nonnegative(k, m);
}

/// A sequence of `len` bytes splits into `len / m` pieces, rounded up; the
/// `k`-th of them holds the bytes from `k * m` to `(k + 1) * m`, or to the
/// end for the last one. So every piece but the last has exactly `m` bytes.
pub proof fn lemma_chunks_of_pieces(data: Seq<u8>, m: nat)
    requires
        m > 0,
    ensures
        chunks_of(data, m).len() == (data.len() + m - 1) / (m as int),
        forall|k: int|
            0 <= k < chunks_of(data, m).len() ==> #[trigger] chunks_of(data, m)[k]
                == data.subrange(k * m, piece_end(k, m, data.len())),
    decreases data.len(),
{
    let len = data.len() as int;
    let mi = m as int;
    if len == 0 {
        assert((len + mi - 1) / mi == 0) by {
            vstd::arithmetic::div_mod::lemma_basic_div(mi - 1, mi);
        }
    } else if len <= mi {
        assert((len + mi - 1) / mi == 1) by {
            vstd::arithmetic::div_mod::lemma_fundamental_div_mod_converse(
                len + mi - 1,
                mi,
                1,
                len - 1,
            );
        }
        assert forall|k: int| 0 <= k < chunks_of(data, m).len() implies #[trigger] chunks_of(
            data,
            m,
        )[k] == data.subrange(k * m, piece_end(k, m, data.len())) by {
            assert(k == 0);
            assert(data.subrange(0, len) =~= data);
        }
    } else {
        let rest = data.skip(mi);
        lemma_chunks_of_pieces(rest, m);
        assert(chunks_of(data, m) == seq![data.take(mi)] + chunks_of(rest, m));
        assert((len + mi - 1) / mi == (rest.len() + mi - 1) / mi + 1) by {
            lemma_div_plus_one(rest.len() + mi - 1, mi);
        }
        assert forall|k: int| 0 <= k < chunks_of(data, m).len() implies #[trigger] chunks_of(
            data,
            m,
        )[k] == data.subrange(k * m, piece_end(k, m, data.len())) by {
            if k == 0 {
                assert(data.take(mi) =~= data.subrange(0, mi));
            } else {
                let j = k - 1;
                lemma_piece_start(j, rest.len() as int, mi);
                assert(chunks_of(data, m)[k] == chunks_of(rest, m)[j]);
                lemma_mul_is_distributive_add_other_way(mi, j, 1);
                assert(k * mi == j * mi + mi);
                assert(rest.subrange(j * m, piece_end(j, m, rest.len())) =~= data.subrange(
                    k * m,
                    piece_end(k, m, data.len()),
                ));
            }
        }
    }
}

/// A piece of `m` bytes or fewer, none empty, is one piece.
pub proof fn lemma_chunks_single(data: Seq<u8>, m: nat)
    requires
        0 < data.len() <= m,
    ensures
        chunks_of(data, m) == seq![data],
{
}

/// Pieces of `m` bytes each put together have `m` bytes per piece.
pub proof fn lemma_uniform_flatten_len(pieces: Seq<Seq<u8>>, m: nat)
    requires
        uniform(pieces, m),
    ensures
        pieces.flatten().len() == pieces.len() * m,
    decreases pieces.len(),
{
    if pieces.len() == 0 {
    } else {
        let rest = pieces.drop_first();
        assert(uniform(rest, m)) by {
            assert forall|i: int| 0 <= i < rest.len() implies #[trigger] rest[i].len() == m by {
                assert(rest[i] == pieces[i + 1]);
            }
        }
        lemma_uniform_flatten_len(rest, m);
        assert(pieces[0].len() == m);
        lemma_mul_is_distributive_add_other_way(m as int, 1, (pieces.len() - 1) as int);
    }
}

/// In pieces of `m` bytes each, a run of `n` consecutive pieces starting at
/// piece `a` covers the bytes from `a * m` to `(a + n) * m`.
pub proof fn lemma_uniform_window(pieces: Seq<Seq<u8>>, m: nat, a: int, n: int)
    requires
        uniform(pieces, m),
        0 <= a,
        0 <= n,
        a + n <= pieces.len(),
    ensures
        pieces.subrange(a, a + n).flatten() == pieces.flatten().subrange(a * m, (a + n) * m),
        a * m + n * m == (a + n) * m,
{
    let front = pieces.take(a);
    let mid = pieces.subrange(a, a + n);
    let back = pieces.skip(a + n);
    assert(pieces =~= front + mid + back);
    lemma_flatten_concat(front + mid, back);
    lemma_flatten_concat(front, mid);
    assert(uniform(front, m)) by {
        assert forall|i: int| 0 <= i < front.len() implies #[trigger] front[i].len() == m by {
            assert(front[i] == pieces[i]);
        }
    }
    assert(uniform(mid, m)) by {
        assert forall|i: int| 0 <= i < mid.len() implies #[trigger] mid[i].len() == m by {
            assert(mid[i] == pieces[a + i]);
        }
    }
    lemma_uniform_flatten_len(front, m);
    lemma_uniform_flatten_len(mid, m);
    lemma_mul_is_distributive_add_other_way(m as int, a, n);
    let whole = pieces.flatten();
    assert(whole == front.flatten() + mid.flatten() + back.flatten());
    assert(whole.subrange(a * m, (a + n) * m) =~= mid.flatten());
}

/// Replacing a run of `n` pieces from piece `a` on by other pieces of the same
/// size replaces the bytes from `a * m` to `(a + n) * m` by theirs.
pub proof fn lemma_replace_window(
    old_pieces: Seq<Seq<u8>>,
    new_pieces: Seq<Seq<u8>>,
    run: Seq<Seq<u8>>,
    m: nat,
    a: int,
    n: int,
)
    requires
        uniform(old_pieces, m),
        uniform(run, m),
        old_pieces.len() == new_pieces.len(),
        0 <= a,
        0 <= n,
        a + n <= old_pieces.len(),
        run.len() == n,
        forall|i: int|
            0 <= i < old_pieces.len() && !(a <= i < a + n) ==> #[trigger] new_pieces[i]
                == old_pieces[i],
        forall|j: int| 0 <= j < n ==> #[trigger] new_pieces[a + j] == run[j],
    ensures
        new_pieces.flatten() == old_pieces.flatten().take(a * m) + run.flatten()
            + old_pieces.flatten().skip((a + n) * m),
{
    let front = old_pieces.take(a);
    let back = old_pieces.skip(a + n);
    assert(new_pieces =~= front + run + back) by {
        assert forall|i: int| 0 <= i < new_pieces.len() implies #[trigger] new_pieces[i] == (front
            + run + back)[i] by {
            if a <= i < a + n {
                assert(new_pieces[a + (i - a)] == run[i - a]);
            }
        }
    }
    lemma_flatten_concat(front + run, back);
    lemma_flatten_concat(front, run);
    let total: int = old_pieces.len() as int;
    lemma_uniform_window(old_pieces, m, 0, a);
    lemma_uniform_window(old_pieces, m, a + n, total - (a + n));
    lemma_uniform_flatten_len(old_pieces, m);
    assert(old_pieces.subrange(0, a) =~= front);
    assert(old_pieces.subrange(a + n, total) =~= back);
    let whole = old_pieces.flatten();
    assert(whole.subrange(0int * m, a * m) =~= whole.take(a * m));
    assert(whole.subrange((a + n) * m, total * m) =~= whole.skip((a + n) * m));
}

/// A buffer made of whole chunks: where the chunks of `start .. start + len`
/// begin and end, for chunks of `m` bytes.
pub proof fn lemma_chunk_range(start: int, len: int, m: int)
    requires
        m > 0,
        0 <= start,
        0 <= len,
    ensures
        start / m <= (start + len) / m,
        (start / m) * m + start % m == start,
        0 <= start % m < m,
        start + len < ((start + len) / m + 1) * m,
        (start / m) * m <= start,
        ((start + len) / m + 1) * m - (start / m) * m == ((start + len) / m - start / m + 1) * m,
        start % m + len < ((start + len) / m - start / m + 1) * m,
        0 <= (start / m) * m,
{
    let a: int = start / m;
    let b: int = (start + len) / m;
    lemma_div_is_ordered(start, start + len, m);
    lemma_fundamental_div_mod(start, m);
    lemma_fundamental_div_mod(start + len, m);
    lemma_mod_pos_bound(start, m);
    lemma_mod_pos_bound(start + len, m);
    lemma_mul_is_commutative(m, a);
    lemma_mul_is_commutative(m, b);
    lemma_mul_is_distributive_add_other_way(m, b, 1);
    lemma_mul_is_distributive_sub_other_way(m, b + 1, a);
    lemma_div_pos_is_pos(start, m);
    lemma_mul_nonnegative(a, m);
}

/// A whole number of chunks of `m` bytes splits into exactly that many pieces.
pub proof fn lemma_whole_chunks(n: int, m: int)
    requires
        m > 0,
        n >= 0,
    ensures
        (n * m) / m == n,
        (n * m) % m == 0,
{
    lemma_div_multiples_vanish(n, m);
    lemma_mul_is_commutative(n, m);
    lemma_mod_multiples_basic(n, m);
}

/// What a splice leaves behind: the same length, the new bytes where they
/// were put, the old ones everywhere else.
pub proof fn lemma_splice(base: Seq<u8>, at: int, data: Seq<u8>)
    requires
        0 <= at,
        at + data.len() <= base.len(),
    ensures
        splice(base, at, data).len() == base.len(),
        splice(base, at, data).subrange(at, at + data.len()) == data,
        forall|p: int|
            0 <= p < base.len() && !(at <= p < at + data.len()) ==> #[trigger] splice(
                base,
                at,
                data,
            )[p] == base[p],
{
    let s = splice(base, at, data);
    assert(s.subrange(at, at + data.len()) =~= data);
}

} // verus!

verus! {

/// A vector of `n` zero bytes.
pub fn zero_bytes(n: usize) -> (v: Vec<u8>)
    ensures
        v@ == zeros(n as nat),
{
    let mut v: Vec<u8> = Vec::with_capacity(n);
    let mut i: usize = 0;
    while i < n
        invariant
            i <= n,
            v@ == zeros(i as nat),
        decreases n - i,
    {
        v.push(0u8);
        i += 1;
        assert(v@ =~= zeros(i as nat));
    }
    v
}

} // verus!
