//! Putting a value into a sequence behind the values that go before it.

use vstd::prelude::*;

verus! {

/// How many values at the front of `s` go before `x`.
pub open spec fn lead<A>(s: Seq<A>, x: A, before: spec_fn(A, A) -> bool) -> nat
    decreases s.len(),
{
    if s.len() > 0 && before(s.first(), x) {
        1 + lead(s.drop_first(), x, before)
    } else {
        0
    }
}

/// `s` with `x` put behind the values at its front that go before it.
pub open spec fn put<A>(s: Seq<A>, x: A, before: spec_fn(A, A) -> bool) -> Seq<A> {
    s.insert(lead(s, x, before) as int, x)
}

/// `lead` is at most the length, every value in front of it goes before
/// `x`, and the value at it, if there is one, does not.
pub proof fn lemma_lead<A>(s: Seq<A>, x: A, before: spec_fn(A, A) -> bool)
    ensures
        lead(s, x, before) <= s.len(),
        forall|k: int| 0 <= k < lead(s, x, before) ==> before(#[trigger] s[k], x),
        lead(s, x, before) < s.len() ==> !before(s[lead(s, x, before) as int], x),
    decreases s.len(),
{
    if s.len() > 0 && before(s.first(), x) {
        let rest = s.drop_first();
        lemma_lead(rest, x, before);
        assert forall|k: int| 0 <= k < lead(s, x, before) implies before(#[trigger] s[k], x) by {
            if k > 0 {
                assert(s[k] == rest[k - 1]);
            }
        }
        if lead(s, x, before) < s.len() {
            assert(s[lead(s, x, before) as int] == rest[lead(rest, x, before) as int]);
        }
    }
}

/// The only number with the three properties of `lemma_lead` is `lead`.
pub proof fn lemma_lead_is<A>(s: Seq<A>, x: A, before: spec_fn(A, A) -> bool, r: int)
    requires
        0 <= r <= s.len(),
        forall|k: int| 0 <= k < r ==> before(#[trigger] s[k], x),
        r < s.len() ==> !before(s[r], x),
    ensures
        lead(s, x, before) == r,
    decreases s.len(),
{
    if s.len() > 0 && before(s.first(), x) {
        let rest = s.drop_first();
        if r == 0 {
            assert(!before(s[0], x));
        }
        assert forall|k: int| 0 <= k < r - 1 implies before(#[trigger] rest[k], x) by {
            assert(rest[k] == s[k + 1]);
        }
        if r - 1 < rest.len() {
            assert(rest[r - 1] == s[r]);
        }
        lemma_lead_is(rest, x, before, r - 1);
    } else {
        if r > 0 {
            assert(before(s[0], x));
        }
    }
}

/// The first `n` values of `s`, or all of `s` where it has no more.
pub open spec fn capped<A>(s: Seq<A>, n: nat) -> Seq<A> {
    if s.len() <= n {
        s
    } else {
        s.take(n as int)
    }
}

/// Of the result of putting a value in, the first `n` values depend only on
/// the first `n` values of the sequence it was put into.
pub proof fn lemma_put_capped<A>(s: Seq<A>, x: A, before: spec_fn(A, A) -> bool, n: nat)
    ensures
        capped(put(s, x, before), n) == capped(put(capped(s, n), x, before), n),
{
    let c = capped(s, n);
    let p = lead(s, x, before) as int;
    let q = if p <= c.len() {
        p
    } else {
        c.len() as int
    };
    lemma_lead(s, x, before);
    assert forall|k: int| 0 <= k < q implies before(#[trigger] c[k], x) by {
        assert(c[k] == s[k]);
    }
    if q < c.len() {
        assert(c[q] == s[p]);
    }
    lemma_lead_is(c, x, before, q);
    assert(capped(put(s, x, before), n) =~= capped(put(c, x, before), n));
}

} // verus!
