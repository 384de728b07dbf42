use vstd::prelude::*;

verus! {

/// The inner sequences of `s` one after another.
pub open spec fn flatten<A>(s: Seq<Seq<A>>) -> Seq<A>
    decreases s.len(),
{
    if s.len() == 0 {
        Seq::empty()
    } else {
        flatten(s.drop_last()) + s.last()
    }
}

pub proof fn lemma_flatten_concat<A>(a: Seq<Seq<A>>, b: Seq<Seq<A>>)
    ensures
        flatten(a + b) == flatten(a) + flatten(b),
    decreases b.len(),
{
    if b.len() == 0 {
        assert(a + b =~= a);
        assert(flatten(a) + flatten(b) =~= flatten(a));
    } else {
        lemma_flatten_concat(a, b.drop_last());
        assert((a + b).drop_last() =~= a + b.drop_last());
        assert(flatten(a) + flatten(b) =~= flatten(a) + flatten(b.drop_last()) + b.last());
    }
}

/// Every inner sequence of `s` has length `n`.
pub open spec fn all_len<A>(s: Seq<Seq<A>>, n: int) -> bool {
    forall|i: int| 0 <= i < s.len() ==> (#[trigger] s[i]).len() == n
}

pub proof fn lemma_flatten_push<A>(s: Seq<Seq<A>>, x: Seq<A>)
    ensures
        flatten(s.push(x)) == flatten(s) + x,
{
    assert(s.push(x).drop_last() =~= s);
}

pub proof fn lemma_flatten_len<A>(s: Seq<Seq<A>>, n: int)
    requires
        n >= 0,
        all_len(s, n),
    ensures
        flatten(s).len() == s.len() * n,
    decreases s.len(),
{
    if s.len() > 0 {
        lemma_flatten_len(s.drop_last(), n);
        assert((s.len() - 1) * n + n == s.len() * n) by (nonlinear_arith);
    }
}

/// Element `x` of inner sequence `k` stands at `k * n + x` of the flattening.
pub proof fn lemma_flatten_index<A>(s: Seq<Seq<A>>, n: int, k: int, x: int)
    requires
        all_len(s, n),
        0 <= k < s.len(),
        0 <= x < n,
    ensures
        flatten(s).len() == s.len() * n,
        flatten(s)[k * n + x] == s[k][x],
    decreases s.len(),
{
    lemma_flatten_len(s, n);
    let d = s.drop_last();
    lemma_flatten_len(d, n);
    if k < s.len() - 1 {
        lemma_flatten_index(d, n, k, x);
        assert(k * n + x < d.len() * n) by (nonlinear_arith)
            requires
                0 <= k < d.len(),
                0 <= x < n,
        ;
    } else {
        assert(k * n == d.len() * n);
    }
}

/// The `n`-long pieces of `b` that start at `pos`, `count` of them.
pub open spec fn chunks(b: Seq<u8>, pos: int, n: int, count: int) -> Seq<Seq<u8>> {
    Seq::new(count as nat, |i: int| b.subrange(pos + i * n, pos + i * n + n))
}

/// Cutting the flattening of equal-length sequences, wherever it stands in a
/// buffer, gives them back.
pub proof fn lemma_chunks_of_flatten(prefix: Seq<u8>, s: Seq<Seq<u8>>, suffix: Seq<u8>, n: int)
    requires
        n >= 0,
        all_len(s, n),
    ensures
        flatten(s).len() == s.len() * n,
        chunks(prefix + flatten(s) + suffix, prefix.len() as int, n, s.len() as int) == s,
{
    lemma_flatten_len(s, n);
    let b = prefix + flatten(s) + suffix;
    let p = prefix.len() as int;
    let c = chunks(b, p, n, s.len() as int);
    assert forall|k: int| 0 <= k < s.len() implies #[trigger] c[k] == s[k] by {
        assert(k * n + n <= s.len() * n) by (nonlinear_arith)
            requires
                0 <= k < s.len(),
                n >= 0,
        ;
        assert(c[k] == b.subrange(p + k * n, p + k * n + n));
        assert forall|x: int| 0 <= x < n implies c[k][x] == s[k][x] by {
            lemma_flatten_index(s, n, k, x);
            assert(k * n + x < s.len() * n) by (nonlinear_arith)
                requires
                    0 <= k < s.len(),
                    0 <= x < n,
            ;
            assert(b[p + k * n + x] == flatten(s)[k * n + x]);
        }
        assert(c[k] =~= s[k]);
    }
    assert(c =~= s);
}

} // verus!
