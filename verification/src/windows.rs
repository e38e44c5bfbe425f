//! What a signature stands for: the tokens of a window up to consistent renaming.
use vstd::prelude::*;

verus! {

proof fn lemma_tagged(a: u64, b: u64, s: u64, t: u64)
    requires
        a < 0x4000_0000_0000_0000,
        b < 0x4000_0000_0000_0000,
        (a & !0xC000_0000_0000_0000u64) | (s & 0xC000_0000_0000_0000u64) == (b
            & !0xC000_0000_0000_0000u64) | (t & 0xC000_0000_0000_0000u64),
    ensures
        a == b,
{
    assert(a < 0x4000_0000_0000_0000 && b < 0x4000_0000_0000_0000 && (a & !0xC000_0000_0000_0000u64)
        | (s & 0xC000_0000_0000_0000u64) == (b & !0xC000_0000_0000_0000u64) | (t
        & 0xC000_0000_0000_0000u64) ==> a == b) by (bit_vector);
}

proof fn lemma_class(a: u64, s: u64)
    ensures
        ((a & !0xC000_0000_0000_0000u64) | (s & 0xC000_0000_0000_0000u64)) >> 62 == s >> 62,
{
    assert(((a & !0xC000_0000_0000_0000u64) | (s & 0xC000_0000_0000_0000u64)) >> 62 == s >> 62)
        by (bit_vector);
}

/// The window values at a position agree.
spec fn values_agree(x: Seq<u64>, s: int, y: Seq<u64>, t: int, i: int, pl: bool) -> bool {
    crate::encode::window_value(x, s, s + i, pl) == crate::encode::window_value(y, t, t + i, pl)
}

proof fn lemma_window_len(x: Seq<u64>, s: int, n: int, pl: bool)
    requires
        0 <= n,
    ensures
        crate::encode::window_bytes(x, s, n, pl).len() == 8 * n,
    decreases n,
{
    if n > 0 {
        lemma_window_len(x, s, n - 1, pl);
    }
}

proof fn lemma_window_values(x: Seq<u64>, s: int, y: Seq<u64>, t: int, n: int, pl: bool, i: int)
    requires
        0 <= i < n,
        crate::encode::window_bytes(x, s, n, pl) == crate::encode::window_bytes(y, t, n, pl),
    ensures
        values_agree(x, s, y, t, i, pl),
    decreases n,
{
    let a = crate::encode::window_bytes(x, s, n, pl);
    let b = crate::encode::window_bytes(y, t, n, pl);
    let v = crate::encode::window_value(x, s, s + n - 1, pl);
    let w = crate::encode::window_value(y, t, t + n - 1, pl);
    lemma_window_len(x, s, n - 1, pl);
    lemma_window_len(y, t, n - 1, pl);
    if i < n - 1 {
        assert(crate::encode::window_bytes(x, s, n - 1, pl) =~= a.take(8 * (n - 1)));
        assert(crate::encode::window_bytes(y, t, n - 1, pl) =~= b.take(8 * (n - 1)));
        lemma_window_values(x, s, y, t, n - 1, pl, i);
    } else {
        let at = 8 * (n - 1);
        assert(a.subrange(at, at + 8) =~= crate::bytes::le_u64(v));
        assert(b.subrange(at, at + 8) =~= crate::bytes::le_u64(w));
        crate::bytes::read_u64_gives_back(a, at, v);
        crate::bytes::read_u64_gives_back(b, at, w);
    }
}

/// Tokens with the same value are of one class: fixed ones are the same, and names are repeated at
/// the same distance.
proof fn lemma_value(x: Seq<u64>, s: int, y: Seq<u64>, t: int, window: int, pl: bool, i: int)
    requires
        0 <= i < window < 0x4000_0000_0000_0000,
        0 <= s && s + window <= x.len(),
        0 <= t && t + window <= y.len(),
        crate::encode::is_classified(x),
        crate::encode::is_classified(y),
        values_agree(x, s, y, t, i, pl),
    ensures
        crate::encode::tokens_agree(x[s + i], y[t + i], pl),
        crate::encode::is_parameter(x[s + i], pl) ==> crate::encode::distance(x, s, s + i)
            == crate::encode::distance(y, t, t + i),
{
    let a = x[s + i];
    let b = y[t + i];
    let d = crate::encode::distance(x, s, s + i);
    let e = crate::encode::distance(y, t, t + i);
    crate::encode::lemma_last_before(x, s, s + i, a);
    crate::encode::lemma_last_before(y, t, t + i, b);
    assert(0 <= d <= i && 0 <= e <= i);
    lemma_class(d as u64, a);
    lemma_class(e as u64, b);
    assert(a >> 62 < 3 && b >> 62 < 3);
    assert(a >> 62 == b >> 62);
    assert(a != 0xC000_0000_0000_0000u64) by {
        assert(0xC000_0000_0000_0000u64 >> 62 == 3) by (bit_vector);
    }
    assert(b != 0xC000_0000_0000_0000u64) by {
        assert(0xC000_0000_0000_0000u64 >> 62 == 3) by (bit_vector);
    }
    if crate::encode::is_abstracted(a, pl) {
        lemma_tagged(d as u64, e as u64, a, b);
    }
}

/// Names that are repeated in one window are repeated in the other.
proof fn lemma_repeats(
    x: Seq<u64>,
    s: int,
    y: Seq<u64>,
    t: int,
    window: int,
    pl: bool,
    j: int,
    i: int,
)
    requires
        0 <= j < i < window,
        0 <= s && s + window <= x.len(),
        0 <= t && t + window <= y.len(),
        forall|k: int|
            0 <= k < window && crate::encode::is_parameter(#[trigger] x[s + k], pl)
                ==> crate::encode::distance(x, s, s + k) == crate::encode::distance(y, t, t + k),
        crate::encode::is_parameter(x[s + i], pl),
        x[s + j] == x[s + i],
    ensures
        y[t + j] == y[t + i],
    decreases i,
{
    crate::encode::lemma_last_before(x, s, s + i, x[s + i]);
    crate::encode::lemma_last_before(y, t, t + i, y[t + i]);
    let d = crate::encode::distance(x, s, s + i);
    assert(d == crate::encode::distance(y, t, t + i));
    let last = crate::encode::last_before(x, s, s + i, x[s + i]);
    assert(last is Some) by {
        if last is None {
            assert(x[s + j] != x[s + i]);
        }
    }
    let p = last->0 - s;
    assert(d == i - p);
    assert(j <= p) by {
        if p < j {
            assert(x[s + j] != x[s + i]);
        }
    }
    assert(y[t + p] == y[t + i]);
    if j < p {
        assert(x[s + p] == x[s + i]);
        lemma_repeats(x, s, y, t, window, pl, j, p);
    }
}

/// Windows whose signatures are hashes of the same bytes read alike: each is a consistent renaming
/// of the other. So windows that differ in anything but names have one signature only if the hash
/// of different bytes is the same.
#[verifier::rlimit(30)]
#[verifier::spinoff_prover]
pub proof fn windows_of_the_same_bytes_read_alike(
    x: Seq<u64>,
    s: int,
    y: Seq<u64>,
    t: int,
    window: int,
    parameterize_literals: bool,
)
    requires
        0 < window < 0x4000_0000_0000_0000,
        0 <= s && s + window <= x.len(),
        0 <= t && t + window <= y.len(),
        crate::encode::is_classified(x),
        crate::encode::is_classified(y),
    ensures
        ({
            let pl = parameterize_literals;
            let a = crate::encode::window_bytes(x, s, window, pl);
            let b = crate::encode::window_bytes(y, t, window, pl);
            &&& crate::encode::signatures_of(x, window, pl).len() == x.len() - window + 1
            &&& crate::encode::signatures_of(x, window, pl)[s] == crate::encode::xxh3(a)
            &&& a == b ==> crate::encode::is_renaming(
                x.subrange(s, s + window),
                y.subrange(t, t + window),
                pl,
            )
        }),
{
    let pl = parameterize_literals;
    let a = crate::encode::window_bytes(x, s, window, pl);
    let b = crate::encode::window_bytes(y, t, window, pl);
    if a == b {
        let p = x.subrange(s, s + window);
        let q = y.subrange(t, t + window);
        assert forall|i: int| 0 <= i < window implies crate::encode::tokens_agree(
            #[trigger] x[s + i],
            y[t + i],
            pl,
        ) && (crate::encode::is_parameter(x[s + i], pl) ==> crate::encode::distance(x, s, s + i)
            == crate::encode::distance(y, t, t + i)) by {
            lemma_window_values(x, s, y, t, window, pl, i);
            lemma_value(x, s, y, t, window, pl, i);
        }
        assert forall|i: int| 0 <= i < window && crate::encode::is_parameter(
            #[trigger] y[t + i],
            pl,
        ) implies crate::encode::distance(y, t, t + i) == crate::encode::distance(x, s, s + i) by {
            assert(crate::encode::tokens_agree(x[s + i], y[t + i], pl));
        }
        assert forall|i: int| 0 <= i < p.len() implies crate::encode::tokens_agree(
            #[trigger] p[i],
            q[i],
            pl,
        ) by {
            assert(p[i] == x[s + i] && q[i] == y[t + i]);
        }
        assert forall|i: int, j: int|
            0 <= i < p.len() && 0 <= j < p.len() && crate::encode::is_parameter(#[trigger] p[i], pl)
                && crate::encode::is_parameter(#[trigger] p[j], pl) implies (p[i] == p[j] <==> q[i]
            == q[j]) by {
            assert(p[i] == x[s + i] && q[i] == y[t + i]);
            assert(p[j] == x[s + j] && q[j] == y[t + j]);
            assert(crate::encode::tokens_agree(x[s + i], y[t + i], pl));
            assert(crate::encode::tokens_agree(x[s + j], y[t + j], pl));
            if p[i] == p[j] {
                if j < i {
                    lemma_repeats(x, s, y, t, window, pl, j, i);
                } else if i < j {
                    lemma_repeats(x, s, y, t, window, pl, i, j);
                }
            }
            if q[i] == q[j] {
                if j < i {
                    lemma_repeats(y, t, x, s, window, pl, j, i);
                } else if i < j {
                    lemma_repeats(y, t, x, s, window, pl, i, j);
                }
            }
        }
    }
}

} // verus!
