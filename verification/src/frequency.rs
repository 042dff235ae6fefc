//! The mode: the most frequent value of a sequence, when it is unique.
//!
//! The implementation sorts a copy, so equal values stand in contiguous
//! runs, and scans the runs once, tracking the best run length and how many
//! distinct values reach it.

use vstd::prelude::*;
use vstd::seq_lib::{group_to_multiset_ensures, lemma_multiset_commutative};
use crate::errors::MyError;
use crate::seq_facts::is_sorted;
use crate::sorting::par_sort_range;

verus! {

broadcast use
    vstd::seq_lib::group_seq_properties,
    vstd::seq_lib::seq_to_set_is_finite,
    vstd::set::group_set_axioms;

/// How many times `v` occurs in `s`.
pub open spec fn freq(s: Seq<i64>, v: i64) -> nat {
    s.to_multiset().count(v)
}

/// The distinct values that occur exactly `c` times in `s`.
pub open spec fn freq_class(s: Seq<i64>, c: nat) -> Set<i64> {
    s.to_set().filter(|v: i64| freq(s, v) == c)
}

/// The distinct values of the prefix `s.take(i)` that occur exactly `c`
/// times in the whole of `s`.
spec fn prefix_class(s: Seq<i64>, i: int, c: nat) -> Set<i64> {
    s.take(i).to_set().filter(|v: i64| freq(s, v) == c)
}

/// `c` is the frequency of the most common value of `s` (so `s` is not
/// empty).
pub open spec fn is_max_freq(s: Seq<i64>, c: nat) -> bool {
    c > 0 && (exists|v: i64| #[trigger] freq(s, v) == c) && (forall|v: i64|
        #[trigger] freq(s, v) <= c)
}

/// The frequency of the most common value of a non-empty sequence.
pub open spec fn max_freq(s: Seq<i64>) -> nat {
    choose|c: nat| is_max_freq(s, c)
}

/// Any witness of `is_max_freq` is the `max_freq`.
pub proof fn lemma_max_freq_is(s: Seq<i64>, c: nat)
    requires
        is_max_freq(s, c),
    ensures
        max_freq(s) == c,
{
    let c2 = max_freq(s);
    assert(is_max_freq(s, c2));
    let v1 = choose|v: i64| #[trigger] freq(s, v) == c;
    let v2 = choose|v: i64| #[trigger] freq(s, v) == c2;
    assert(freq(s, v1) <= c2);
    assert(freq(s, v2) <= c);
}

/// A sequence of one repeated value counts that value once per position.
proof fn lemma_const_run_count(s: Seq<i64>, v: i64)
    requires
        forall|i: int| 0 <= i < s.len() ==> s[i] == v,
    ensures
        s.to_multiset().count(v) == s.len(),
    decreases s.len(),
{
    broadcast use group_to_multiset_ensures;

    if s.len() > 0 {
        lemma_const_run_count(s.drop_last(), v);
        assert(s =~= s.drop_last().push(v));
    }
}

/// In a sorted sequence, a maximal run of one value carries all of its
/// occurrences: the value's frequency is the run's length.
proof fn lemma_run_freq(s: Seq<i64>, a: int, b: int)
    requires
        is_sorted(s),
        0 <= a < b <= s.len(),
        forall|i: int| a <= i < b ==> s[i] == s[a],
        a == 0 || s[a - 1] != s[a],
        b == s.len() || s[b] != s[a],
    ensures
        freq(s, s[a]) == b - a,
{
    broadcast use group_to_multiset_ensures;

    let v = s[a];
    let n = s.len() as int;
    let pre = s.subrange(0, a);
    let mid = s.subrange(a, b);
    let post = s.subrange(b, n);
    assert(s =~= pre + mid + post);
    lemma_multiset_commutative(pre + mid, post);
    lemma_multiset_commutative(pre, mid);
    lemma_const_run_count(mid, v);
    assert(!pre.contains(v)) by {
        if pre.contains(v) {
            let i = choose|i: int| 0 <= i < pre.len() && pre[i] == v;
            assert(s[i] == v);
            assert(s[i] <= s[a - 1] <= s[a]);
        }
    }
    assert(!post.contains(v)) by {
        if post.contains(v) {
            let i = choose|i: int| 0 <= i < post.len() && post[i] == v;
            assert(s[b + i] == v);
            assert(s[a] <= s[b] <= s[b + i]);
        }
    }
    assert(pre.to_multiset().count(v) == 0);
    assert(post.to_multiset().count(v) == 0);
}

/// The most frequent value of the input, or a typed failure: on an empty
/// input, and when several distinct values are equally most common — the
/// error then counts them.
#[verifier::rlimit(100)]
pub fn mode(xs: Vec<i64>) -> (r: Result<i64, MyError>)
    ensures
        xs@.len() == 0 ==> r == Err::<i64, MyError>(MyError::NoModeEmptyData),
        xs@.len() > 0 ==> {
            let cands = freq_class(xs@, max_freq(xs@));
            &&& (cands.len() == 1 ==> r is Ok && cands.contains(r->Ok_0))
            &&& (cands.len() != 1 ==> r == Err::<i64, MyError>(
                MyError::NoUniqueMode { modes: cands.len() as usize },
            ))
        },
{
    let n: usize = xs.len();
    if n == 0 {
        return Err(MyError::NoModeEmptyData);
    }
    let mut ys = xs;
    par_sort_range(&mut ys, 0, n);
    let ghost s = ys@;
    proof {
        assert(s.subrange(0, n as int) =~= s);
        assert(xs@.subrange(0, n as int) =~= xs@);
    }
    let mut i: usize = 0;
    let mut best_v: i64 = 0;
    let mut best_c: usize = 0;
    let mut num_best: usize = 0;
    proof {
        assert(prefix_class(s, 0, 0) =~= Set::<i64>::empty()) by {
            assert(s.take(0) =~= Seq::<i64>::empty());
        }
        assert(Set::<i64>::empty().len() == 0);
    }
    while i < n
        invariant
            i <= n == s.len(),
            n > 0,
            ys@ == s,
            is_sorted(s),
            s.to_multiset() == xs@.to_multiset(),
            0 < i < n ==> s[i - 1] != s[i as int],
            i == 0 ==> best_c == 0 && num_best == 0,
            i > 0 ==> 1 <= best_c && 1 <= num_best,
            i > 0 ==> s.take(i as int).contains(best_v) && freq(s, best_v) == best_c,
            forall|v: i64| s.take(i as int).contains(v) ==> #[trigger] freq(s, v) <= best_c,
            num_best <= i,
            num_best == prefix_class(s, i as int, best_c as nat).len(),
        decreases n - i,
    {
        let v: i64 = ys[i];
        let mut j: usize = i + 1;
        while j < n && ys[j] == v
            invariant
                i < j <= n == s.len(),
                ys@ == s,
                forall|t: int| i <= t < j ==> s[t] == v,
            decreases n - j,
        {
            j += 1;
        }
        let run: usize = j - i;
        proof {
            lemma_run_freq(s, i as int, j as int);
            assert(s[i as int] == v);
            let ghost old_set = s.take(i as int).to_set();
            let ghost new_set = s.take(j as int).to_set();
            assert(new_set =~= old_set.insert(v)) by {
                assert forall|u: i64| new_set.contains(u) implies old_set.insert(v).contains(
                    u,
                ) by {
                    let t = choose|t: int|
                        0 <= t < j && #[trigger] s.take(j as int)[t] == u;
                    if t >= i {
                        assert(s[t] == v);
                    } else {
                        assert(s.take(i as int)[t] == u);
                    }
                }
                assert forall|u: i64| old_set.insert(v).contains(u) implies new_set.contains(
                    u,
                ) by {
                    if u == v {
                        assert(s.take(j as int)[i as int] == v);
                    } else {
                        let t = choose|t: int|
                            0 <= t < i && #[trigger] s.take(i as int)[t] == u;
                        assert(s.take(j as int)[t] == u);
                    }
                }
            }
            assert(!old_set.contains(v)) by {
                if old_set.contains(v) {
                    let t = choose|t: int|
                        0 <= t < i && #[trigger] s.take(i as int)[t] == v;
                    assert(s[t] <= s[i - 1] <= s[i as int]);
                }
            }
        }
        if run > best_c {
            proof {
                let cls = prefix_class(s, j as int, run as nat);
                assert(cls =~= Set::<i64>::empty().insert(v)) by {
                    assert forall|u: i64| cls.contains(u) implies u == v by {
                        if u != v {
                            assert(s.take(i as int).to_set().contains(u));
                            assert(freq(s, u) <= best_c);
                        }
                    }
                    assert(s.take(j as int).to_set().contains(v));
                    assert(freq(s, v) == run as nat);
                }
                assert(cls.len() == 1);
            }
            best_v = v;
            best_c = run;
            num_best = 1;
        } else if run == best_c {
            proof {
                let old_cls = prefix_class(s, i as int, best_c as nat);
                let new_cls = prefix_class(s, j as int, best_c as nat);
                assert(new_cls =~= old_cls.insert(v)) by {
                    assert(freq(s, v) == best_c as nat);
                }
                assert(!old_cls.contains(v));
                assert(old_cls.finite()) by {
                    s.take(i as int).to_set().lemma_len_filter(
                        (|u: i64| freq(s, u) == best_c as nat),
                    );
                }
                assert(new_cls.len() == old_cls.len() + 1);
            }
            num_best = num_best + 1;
        } else {
            proof {
                let old_cls = prefix_class(s, i as int, best_c as nat);
                let new_cls = prefix_class(s, j as int, best_c as nat);
                assert(new_cls =~= old_cls) by {
                    assert(freq(s, v) == run as nat);
                    assert(run as nat != best_c as nat);
                }
            }
        }
        i = j;
    }
    proof {
        assert(s.take(n as int) =~= s);
        assert(is_max_freq(s, best_c as nat)) by {
            assert(freq(s, best_v) == best_c as nat);
            assert forall|v: i64| #[trigger] freq(s, v) <= best_c as nat by {
                if freq(s, v) > 0 {
                    assert(s.to_multiset().count(v) > 0);
                    assert(s.contains(v));
                    assert(s.to_set().contains(v));
                }
            }
        }
        assert forall|v: i64| #[trigger] freq(xs@, v) == freq(s, v) by {}
        assert(xs@.to_set() =~= s.to_set()) by {
            assert forall|v: i64| xs@.contains(v) <==> s.contains(v) by {
                broadcast use group_to_multiset_ensures;

                assert(xs@.contains(v) <==> xs@.to_multiset().count(v) > 0);
                assert(s.contains(v) <==> s.to_multiset().count(v) > 0);
            }
        }
        assert(freq(xs@, best_v) == best_c as nat);
        assert forall|v: i64| #[trigger] freq(xs@, v) <= best_c as nat by {
            assert(freq(xs@, v) == freq(s, v));
        }
        assert(is_max_freq(xs@, best_c as nat));
        lemma_max_freq_is(xs@, best_c as nat);
        assert(freq_class(xs@, best_c as nat) =~= prefix_class(s, n as int, best_c as nat)) by {
            assert(s.take(n as int).to_set() =~= xs@.to_set());
        }
    }
    if num_best == 1 {
        Ok(best_v)
    } else {
        Err(MyError::NoUniqueMode { modes: num_best })
    }
}

} // verus!
