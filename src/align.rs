use vstd::prelude::*;

verus! {

/// The pairing of one position of two sequences of possibly different lengths.
pub enum EitherOrBoth<A, B> {
    Both(A, B),
    Left(A),
    Right(B),
}

/// Pairs `a` and `b` position by position over the longer of the two: both
/// elements where both exist, else the one that does.
pub open spec fn zip_longest<A, B>(a: Seq<A>, b: Seq<B>) -> Seq<EitherOrBoth<A, B>> {
    let n = if a.len() >= b.len() { a.len() } else { b.len() };
    Seq::new(
        n,
        |i: int|
            if i < a.len() && i < b.len() {
                EitherOrBoth::Both(a[i], b[i])
            } else if i < a.len() {
                EitherOrBoth::Left(a[i])
            } else {
                EitherOrBoth::Right(b[i])
            },
    )
}

/// Executable form of `zip_longest` on slices of copyable elements.
pub fn zip_longest_exec<A: Copy, B: Copy>(a: &[A], b: &[B]) -> (r: Vec<EitherOrBoth<A, B>>)
    ensures
        r@ == zip_longest(a@, b@),
{
    let n: usize = if a.len() >= b.len() { a.len() } else { b.len() };
    let mut r: Vec<EitherOrBoth<A, B>> = Vec::new();
    let mut i: usize = 0;
    while i < n
        invariant
            n as int == zip_longest(a@, b@).len(),
            i <= n,
            r@ == zip_longest(a@, b@).take(i as int),
        decreases n - i,
    {
        let p = if i < a.len() && i < b.len() {
            EitherOrBoth::Both(a[i], b[i])
        } else if i < a.len() {
            EitherOrBoth::Left(a[i])
        } else {
            EitherOrBoth::Right(b[i])
        };
        r.push(p);
        i = i + 1;
        assert(r@ =~= zip_longest(a@, b@).take(i as int));
    }
    assert(r@ =~= zip_longest(a@, b@));
    r
}

} // verus!
