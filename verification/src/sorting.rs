use vstd::prelude::*;

use crate::text::str_eq;

verus! {

/// Lexicographic order of character sequences by code point, which is the
/// order `String` values compare in.
pub open spec fn seq_less(a: Seq<char>, b: Seq<char>) -> bool
    decreases a.len(),
{
    if a.len() == 0 {
        b.len() > 0
    } else if b.len() == 0 {
        false
    } else if a[0] != b[0] {
        a[0] < b[0]
    } else {
        seq_less(a.drop_first(), b.drop_first())
    }
}

/// Every element is smaller than every later one.
pub open spec fn strictly_sorted(s: Seq<String>) -> bool {
    forall|i: int, j: int| 0 <= i < j < s.len() ==> seq_less(#[trigger] s[i]@, #[trigger] s[j]@)
}

/// The texts of a list of strings, as a set.
pub open spec fn text_set(s: Seq<String>) -> Set<Seq<char>> {
    Set::new(|t: Seq<char>| exists|i: int| 0 <= i < s.len() && #[trigger] s[i]@ == t)
}

pub proof fn lemma_less_irreflexive(a: Seq<char>)
    ensures
        !seq_less(a, a),
    decreases a.len(),
{
    if a.len() > 0 {
        lemma_less_irreflexive(a.drop_first());
    }
}

pub proof fn lemma_less_transitive(a: Seq<char>, b: Seq<char>, c: Seq<char>)
    requires
        seq_less(a, b),
        seq_less(b, c),
    ensures
        seq_less(a, c),
    decreases a.len(),
{
    if a.len() > 0 && b.len() > 0 && c.len() > 0 && a[0] == b[0] && b[0] == c[0] {
        lemma_less_transitive(a.drop_first(), b.drop_first(), c.drop_first());
    }
}

pub proof fn lemma_less_total(a: Seq<char>, b: Seq<char>)
    ensures
        a == b || seq_less(a, b) || seq_less(b, a),
    decreases a.len(),
{
    if a.len() > 0 && b.len() > 0 && a[0] == b[0] {
        lemma_less_total(a.drop_first(), b.drop_first());
        if a.drop_first() == b.drop_first() {
            assert(a =~= seq![a[0]] + a.drop_first());
            assert(b =~= seq![b[0]] + b.drop_first());
        }
    } else if a.len() == 0 && b.len() == 0 {
        assert(a =~= b);
    }
}

/// Whether `a` sorts before `b`.
pub fn str_less(a: &str, b: &str) -> (r: bool)
    ensures
        r == seq_less(a@, b@),
{
    let x = crate::text::to_chars(a);
    let y = crate::text::to_chars(b);
    let mut i: usize = 0;
    assert(x@.skip(0) =~= x@);
    assert(y@.skip(0) =~= y@);
    while i < x.len() && i < y.len() && x[i] == y[i]
        invariant
            i <= x@.len(),
            i <= y@.len(),
            x@ == a@,
            y@ == b@,
            seq_less(a@, b@) == seq_less(x@.skip(i as int), y@.skip(i as int)),
        decreases x.len() - i,
    {
        assert(x@.skip(i + 1) =~= x@.skip(i as int).drop_first());
        assert(y@.skip(i + 1) =~= y@.skip(i as int).drop_first());
        i += 1;
    }
    if i == x.len() {
        i < y.len()
    } else if i == y.len() {
        false
    } else {
        assert(x@.skip(i as int)[0] == x@[i as int]);
        assert(y@.skip(i as int)[0] == y@[i as int]);
        x[i] < y[i]
    }
}

/// The strings of `items`, sorted and with repeated texts dropped, as
/// `sort` followed by `dedup` leaves them.
pub fn sorted_unique(items: &Vec<String>) -> (r: Vec<String>)
    ensures
        strictly_sorted(r@),
        text_set(r@) == text_set(items@),
{
    let mut out: Vec<String> = Vec::new();
    let mut n: usize = 0;
    while n < items.len()
        invariant
            n <= items@.len(),
            strictly_sorted(out@),
            text_set(out@) == text_set(items@.take(n as int)),
        decreases items.len() - n,
    {
        let x = &items[n];
        let mut k: usize = 0;
        while k < out.len() && str_less(out[k].as_str(), x.as_str())
            invariant
                k <= out@.len(),
                forall|j: int| 0 <= j < k ==> seq_less(#[trigger] out@[j]@, x@),
            decreases out.len() - k,
        {
            k += 1;
        }
        let ghost before = out@;
        if k < out.len() && str_eq(out[k].as_str(), x.as_str()) {
            assert(text_set(items@.take(n + 1)) =~= text_set(before)) by {
                assert(items@.take(n + 1) =~= items@.take(n as int).push(*x));
                assert forall|t: Seq<char>| text_set(items@.take(n + 1)).contains(t)
                    implies text_set(before).contains(t) by {
                    let i = choose|i: int| 0 <= i < items@.take(n + 1).len() && #[trigger] items@.take(n + 1)[i]@ == t;
                    if i == n {
                        assert(before[k as int]@ == t);
                    } else {
                        assert(items@.take(n as int)[i]@ == t);
                        assert(text_set(items@.take(n as int)).contains(t));
                    }
                }
                assert forall|t: Seq<char>| text_set(before).contains(t)
                    implies text_set(items@.take(n + 1)).contains(t) by {
                    assert(text_set(items@.take(n as int)).contains(t));
                    let i = choose|i: int| 0 <= i < items@.take(n as int).len() && #[trigger] items@.take(n as int)[i]@ == t;
                    assert(items@.take(n + 1)[i]@ == t);
                }
            }
        } else {
            proof {
                if k < out@.len() {
                    lemma_less_total(out@[k as int]@, x@);
                }
            }
            out.insert(k, x.clone());
            proof {
                assert(out@ =~= before.insert(k as int, *x));
                assert forall|i: int, j: int| 0 <= i < j < out@.len() implies seq_less(
                    #[trigger] out@[i]@,
                    #[trigger] out@[j]@,
                ) by {
                    if j < k {
                        assert(out@[i] == before[i] && out@[j] == before[j]);
                    } else if j == k {
                        assert(out@[i] == before[i]);
                    } else if i == k {
                        assert(out@[j] == before[j - 1]);
                        if j - 1 > k {
                            lemma_less_transitive(x@, before[k as int]@, before[j - 1]@);
                        }
                    } else if i < k {
                        assert(out@[i] == before[i] && out@[j] == before[j - 1]);
                    } else {
                        assert(out@[i] == before[i - 1] && out@[j] == before[j - 1]);
                    }
                }
                assert(items@.take(n + 1) =~= items@.take(n as int).push(*x));
                assert forall|t: Seq<char>| text_set(items@.take(n + 1)).contains(t)
                    <==> text_set(out@).contains(t) by {
                    if text_set(items@.take(n + 1)).contains(t) {
                        let i = choose|i: int| 0 <= i < items@.take(n + 1).len() && #[trigger] items@.take(n + 1)[i]@ == t;
                        if i == n {
                            assert(out@[k as int]@ == t);
                        } else {
                            assert(items@.take(n as int)[i]@ == t);
                            assert(text_set(before).contains(t));
                            let m = choose|m: int| 0 <= m < before.len() && #[trigger] before[m]@ == t;
                            if m < k {
                                assert(out@[m]@ == t);
                            } else {
                                assert(out@[m + 1]@ == t);
                            }
                        }
                    }
                    if text_set(out@).contains(t) {
                        let m = choose|m: int| 0 <= m < out@.len() && #[trigger] out@[m]@ == t;
                        if m == k {
                            assert(items@.take(n + 1)[n as int]@ == t);
                        } else {
                            let b = if m < k { m } else { m - 1 };
                            assert(before[b]@ == t);
                            assert(text_set(before).contains(t));
                            let i = choose|i: int| 0 <= i < items@.take(n as int).len() && #[trigger] items@.take(n as int)[i]@ == t;
                            assert(items@.take(n + 1)[i]@ == t);
                        }
                    }
                }
                assert(text_set(items@.take(n + 1)) =~= text_set(out@));
            }
        }
        n += 1;
    }
    assert(items@.take(items@.len() as int) =~= items@);
    out
}

} // verus!
