//! The duplicate-resolution pass: collapse an ordered sequence of keyed
//! elements to one element per distinct key.  The element at the latest
//! input position for a key fully replaces any earlier one, and the result
//! is ordered by ascending key — input order is intentionally discarded.

use vstd::prelude::*;

use crate::strings::lemma_lex_total;
use crate::strings::lemma_lex_trans;
use crate::strings::lex_lt;
use crate::strings::str_lt;

verus! {

/// An element carrying a resolution key.
pub trait Keyed {
    /// The key as a mathematical value.
    spec fn key_spec(&self) -> Seq<char>;

    /// The key of this element.
    fn key(&self) -> (k: &String)
        ensures
            k@ == self.key_spec(),
    ;
}

/// Keys strictly ascending: each key occurs at most once.
pub open spec fn keys_sorted<T: Keyed>(s: Seq<T>) -> bool {
    forall|i: int, j: int|
        0 <= i < j < s.len() ==> lex_lt(#[trigger] s[i].key_spec(), #[trigger] s[j].key_spec())
}

/// The latest element of `s` whose key is `k`, if any.
pub open spec fn last_with_key<T: Keyed>(s: Seq<T>, k: Seq<char>) -> Option<T>
    decreases s.len(),
{
    if s.len() == 0 {
        None
    } else if s.last().key_spec() == k {
        Some(s.last())
    } else {
        last_with_key(s.drop_last(), k)
    }
}

/// Whether some element of `s` has key `k`.
pub open spec fn has_key<T: Keyed>(s: Seq<T>, k: Seq<char>) -> bool {
    last_with_key(s, k) is Some
}

/// `r` is the duplicate-resolution of `s`: its keys are strictly ascending,
/// each of its elements is the latest occurrence in `s` of its key, and
/// every key of `s` is represented.
pub open spec fn resolves<T: Keyed>(s: Seq<T>, r: Seq<T>) -> bool {
    &&& keys_sorted(r)
    &&& forall|i: int|
        #![trigger r[i]]
        0 <= i < r.len() ==> last_with_key(s, r[i].key_spec()) == Some(r[i])
    &&& forall|k: Seq<char>| #[trigger] has_key(s, k) ==> has_key(r, k)
}

/// A key is present exactly when some position holds it.
pub proof fn lemma_has_key_exists<T: Keyed>(s: Seq<T>, k: Seq<char>)
    ensures
        has_key(s, k) == exists|i: int| 0 <= i < s.len() && (#[trigger] s[i].key_spec()) == k,
    decreases s.len(),
{
    if s.len() == 0 {
    } else {
        lemma_has_key_exists(s.drop_last(), k);
        if s.last().key_spec() == k {
            assert(s[s.len() - 1].key_spec() == k);
        } else if has_key(s, k) {
            let i = choose|i: int|
                0 <= i < s.drop_last().len() && (#[trigger] s.drop_last()[i].key_spec()) == k;
            assert(s[i].key_spec() == k);
        } else {
            if exists|i: int| 0 <= i < s.len() && (#[trigger] s[i].key_spec()) == k {
                let i = choose|i: int| 0 <= i < s.len() && (#[trigger] s[i].key_spec()) == k;
                assert(i < s.len() - 1);
                assert(s.drop_last()[i].key_spec() == k);
            }
        }
    }
}

/// Presence in a sequence with one element put on the front.
pub proof fn lemma_has_key_cons<T: Keyed>(x: T, s: Seq<T>, k: Seq<char>)
    ensures
        has_key(seq![x] + s, k) == (x.key_spec() == k || has_key(s, k)),
    decreases s.len(),
{
    let c = seq![x] + s;
    if s.len() == 0 {
        assert(c.len() == 1);
        assert(c.last() == x);
        assert(c.drop_last() =~= Seq::<T>::empty());
    } else {
        assert(c.last() == s.last());
        assert(c.drop_last() =~= seq![x] + s.drop_last());
        lemma_has_key_cons(x, s.drop_last(), k);
    }
}

/// If `s[j]` has key `k` and no later position does, then `s[j]` is the
/// latest occurrence of `k`.
pub proof fn lemma_last_at<T: Keyed>(s: Seq<T>, j: int, k: Seq<char>)
    requires
        0 <= j < s.len(),
        s[j].key_spec() == k,
        !has_key(s.skip(j + 1), k),
    ensures
        last_with_key(s, k) == Some(s[j]),
    decreases s.len(),
{
    if j == s.len() - 1 {
        assert(s.last() == s[j]);
    } else {
        let t = s.skip(j + 1);
        lemma_has_key_exists(t, k);
        assert(t[t.len() - 1] == s.last());
        assert(s.last().key_spec() != k);
        assert(s.drop_last()[j] == s[j]);
        assert(s.drop_last().skip(j + 1) =~= t.drop_last());
        assert(!has_key(t.drop_last(), k)) by {
            lemma_has_key_exists(t.drop_last(), k);
            if exists|i: int|
                0 <= i < t.drop_last().len() && (#[trigger] t.drop_last()[i].key_spec()) == k {
                let i = choose|i: int|
                    0 <= i < t.drop_last().len() && (#[trigger] t.drop_last()[i].key_spec()) == k;
                assert(t[i].key_spec() == k);
            }
        }
        lemma_last_at(s.drop_last(), j, k);
    }
}

fn contains_key<T: Keyed>(out: &Vec<T>, k: &String) -> (r: bool)
    ensures
        r == has_key(out@, k@),
{
    proof {
        lemma_has_key_exists(out@, k@);
    }
    let mut i: usize = 0;
    while i < out.len()
        invariant
            i <= out@.len(),
            forall|m: int| 0 <= m < i ==> (#[trigger] out@[m].key_spec()) != k@,
            has_key(out@, k@) == exists|m: int|
                0 <= m < out@.len() && (#[trigger] out@[m].key_spec()) == k@,
        decreases out@.len() - i,
    {
        let ek = out[i].key();
        if crate::strings::str_eq(ek.as_str(), k.as_str()) {
            return true;
        }
        i += 1;
    }
    false
}

fn insert_sorted<T: Keyed>(out: &mut Vec<T>, item: T) -> (p: usize)
    requires
        keys_sorted(old(out)@),
        forall|i: int|
            0 <= i < old(out)@.len() ==> (#[trigger] old(out)@[i].key_spec()) != item.key_spec(),
    ensures
        p <= old(out)@.len(),
        final(out)@ == old(out)@.insert(p as int, item),
        keys_sorted(final(out)@),
{
    let mut p: usize = 0;
    let mut stop = false;
    while !stop && p < out.len()
        invariant
            p <= out@.len(),
            out@ == old(out)@,
            forall|m: int| 0 <= m < p ==> lex_lt(#[trigger] out@[m].key_spec(), item.key_spec()),
            stop ==> p < out@.len() && !lex_lt(out@[p as int].key_spec(), item.key_spec()),
        decreases out@.len() - p, (if stop {
            0int
        } else {
            1int
        }),
    {
        let ek = out[p].key();
        let ik = item.key();
        if str_lt(ek.as_str(), ik.as_str()) {
            p += 1;
        } else {
            stop = true;
        }
    }
    proof {
        if p < out@.len() {
            lemma_lex_total(out@[p as int].key_spec(), item.key_spec());
            assert(lex_lt(item.key_spec(), out@[p as int].key_spec()));
        }
    }
    let ghost pre = out@;
    out.insert(p, item);
    proof {
        let pi = p as int;
        assert forall|i: int, j: int| 0 <= i < j < out@.len() implies lex_lt(
            #[trigger] out@[i].key_spec(),
            #[trigger] out@[j].key_spec(),
        ) by {
            if j < pi {
                assert(out@[i] == pre[i] && out@[j] == pre[j]);
            } else if j == pi {
                assert(out@[i] == pre[i]);
            } else if i < pi {
                assert(out@[i] == pre[i] && out@[j] == pre[j - 1]);
                if i == j - 1 {
                    assert(lex_lt(out@[i].key_spec(), item.key_spec()));
                    assert(false);
                }
            } else if i == pi {
                assert(out@[j] == pre[j - 1] && pi <= j - 1);
                if pi == j - 1 {
                    assert(lex_lt(item.key_spec(), pre[pi].key_spec()));
                } else {
                    lemma_lex_trans(item.key_spec(), pre[pi].key_spec(), pre[j - 1].key_spec());
                }
            } else {
                assert(out@[i] == pre[i - 1] && out@[j] == pre[j - 1]);
            }
        }
    }
    p
}

/// Resolves duplicates in `items`: the returned sequence holds, for each
/// distinct key of the input, exactly the element at the latest input
/// position with that key, and is ordered by ascending key.
pub fn resolve_duplicates<T: Keyed>(items: Vec<T>) -> (r: Vec<T>)
    ensures
        resolves(items@, r@),
{
    let ghost orig = items@;
    let mut v = items;
    let mut out: Vec<T> = Vec::new();
    proof {
        assert(orig.take(orig.len() as int) =~= orig);
    }
    while v.len() > 0
        invariant
            v@.len() <= orig.len(),
            v@ == orig.take(v@.len() as int),
            keys_sorted(out@),
            forall|i: int|
                #![trigger out@[i]]
                0 <= i < out@.len() ==> last_with_key(orig, out@[i].key_spec()) == Some(out@[i]),
            forall|k: Seq<char>| #[trigger]
                has_key(orig.skip(v@.len() as int), k) ==> has_key(out@, k),
        decreases v@.len(),
    {
        let ghost pre = v@;
        let ghost out_in = out@;
        let item = v.pop().unwrap();
        let ghost n = v@.len() as int;
        proof {
            assert(v@ == pre.drop_last());
            assert(item == pre.last());
            assert(pre[n] == orig.take(n + 1)[n]);
            assert(item == orig[n]);
            assert(v@ =~= orig.take(n));
            assert(orig.skip(n) =~= seq![item] + orig.skip(n + 1));
        }
        let k = item.key();
        let found = contains_key(&out, k);
        if found {
            proof {
                assert forall|kk: Seq<char>| #[trigger]
                    has_key(orig.skip(n), kk) implies has_key(out@, kk) by {
                    lemma_has_key_cons(item, orig.skip(n + 1), kk);
                    if item.key_spec() != kk {
                        assert(has_key(orig.skip(n + 1), kk));
                    }
                }
            }
        } else {
            proof {
                // the popped element is the latest occurrence of its key: a
                // later occurrence would already be represented in `out`.
                assert(!has_key(orig.skip(n + 1), k@));
                lemma_last_at(orig, n, k@);
                lemma_has_key_exists(out@, k@);
            }
            let p = insert_sorted(&mut out, item);
            proof {
                let pi = p as int;
                assert(out@[pi] == item);
                assert forall|i: int| #![trigger out@[i]] 0 <= i < out@.len() implies last_with_key(
                    orig,
                    out@[i].key_spec(),
                ) == Some(out@[i]) by {
                    if i < pi {
                        assert(out@[i] == out_in[i]);
                    } else if i > pi {
                        assert(out@[i] == out_in[i - 1]);
                    }
                }
                assert forall|kk: Seq<char>| #[trigger]
                    has_key(orig.skip(n), kk) implies has_key(out@, kk) by {
                    lemma_has_key_cons(item, orig.skip(n + 1), kk);
                    lemma_has_key_exists(out@, kk);
                    if item.key_spec() == kk {
                        assert(out@[pi].key_spec() == kk);
                    } else {
                        assert(has_key(orig.skip(n + 1), kk));
                        assert(has_key(out_in, kk));
                        lemma_has_key_exists(out_in, kk);
                        let wi = choose|wi: int|
                            0 <= wi < out_in.len() && (#[trigger] out_in[wi].key_spec()) == kk;
                        if wi < pi {
                            assert(out@[wi].key_spec() == kk);
                        } else {
                            assert(out@[wi + 1] == out_in[wi]);
                            assert(out@[wi + 1].key_spec() == kk);
                        }
                    }
                }
            }
        }
    }
    proof {
        assert(v@.len() == 0);
        assert(orig.skip(0) =~= orig);
    }
    out
}

/// `r` is the duplicate-resolution of some input sequence: what a decoded
/// collection looks like after the pass.
pub open spec fn some_resolution<T: Keyed>(r: Seq<T>) -> bool {
    exists|s: Seq<T>| #[trigger] resolves(s, r)
}

proof fn lemma_sorted_eq<T: Keyed>(r1: Seq<T>, r2: Seq<T>)
    requires
        keys_sorted(r1),
        keys_sorted(r2),
        forall|k: Seq<char>| has_key(r1, k) <==> #[trigger] has_key(r2, k),
        forall|i: int, j: int|
            0 <= i < r1.len() && 0 <= j < r2.len() && (#[trigger] r1[i].key_spec()) == (
            #[trigger] r2[j].key_spec()) ==> r1[i] == r2[j],
    ensures
        r1 == r2,
    decreases r1.len(),
{
    if r1.len() == 0 {
        if r2.len() > 0 {
            lemma_has_key_exists(r2, r2[0].key_spec());
            assert(has_key(r2, r2[0].key_spec()));
            lemma_has_key_exists(r1, r2[0].key_spec());
            let i = choose|i: int|
                0 <= i < r1.len() && (#[trigger] r1[i].key_spec()) == r2[0].key_spec();
            assert(false);
        }
        assert(r1 =~= r2);
    } else if r2.len() == 0 {
        lemma_has_key_exists(r1, r1[0].key_spec());
        assert(has_key(r1, r1[0].key_spec()));
        lemma_has_key_exists(r2, r1[0].key_spec());
        let j = choose|j: int|
            0 <= j < r2.len() && (#[trigger] r2[j].key_spec()) == r1[0].key_spec();
        assert(false);
    } else {
        let k1 = r1.last().key_spec();
        let k2 = r2.last().key_spec();
        lemma_has_key_exists(r1, k1);
        assert(r1[r1.len() - 1].key_spec() == k1);
        assert(has_key(r1, k1));
        lemma_has_key_exists(r2, k1);
        let j1 = choose|j: int| 0 <= j < r2.len() && (#[trigger] r2[j].key_spec()) == k1;
        lemma_has_key_exists(r2, k2);
        assert(r2[r2.len() - 1].key_spec() == k2);
        assert(has_key(r2, k2));
        lemma_has_key_exists(r1, k2);
        let i2 = choose|i: int| 0 <= i < r1.len() && (#[trigger] r1[i].key_spec()) == k2;
        assert(k1 == k2) by {
            lemma_lex_total(k1, k2);
            if lex_lt(k1, k2) {
                if i2 == r1.len() - 1 {
                    assert(k1 == k2);
                    lemma_lex_total(k1, k1);
                } else {
                    assert(lex_lt(r1[i2].key_spec(), r1[r1.len() - 1].key_spec()));
                    lemma_lex_total(k1, k2);
                    lemma_lex_trans(k1, k2, k1);
                    lemma_lex_total(k1, k1);
                }
            } else if lex_lt(k2, k1) {
                if j1 == r2.len() - 1 {
                    assert(k1 == k2);
                    lemma_lex_total(k2, k2);
                } else {
                    assert(lex_lt(r2[j1].key_spec(), r2[r2.len() - 1].key_spec()));
                    lemma_lex_trans(k2, k1, k2);
                    lemma_lex_total(k2, k2);
                }
            }
        }
        assert(r1[r1.len() - 1] == r2[r2.len() - 1]);
        let d1 = r1.drop_last();
        let d2 = r2.drop_last();
        assert(keys_sorted(d1)) by {
            assert forall|i: int, j: int| 0 <= i < j < d1.len() implies lex_lt(
                #[trigger] d1[i].key_spec(),
                #[trigger] d1[j].key_spec(),
            ) by {
                assert(d1[i] == r1[i] && d1[j] == r1[j]);
            }
        }
        assert(keys_sorted(d2)) by {
            assert forall|i: int, j: int| 0 <= i < j < d2.len() implies lex_lt(
                #[trigger] d2[i].key_spec(),
                #[trigger] d2[j].key_spec(),
            ) by {
                assert(d2[i] == r2[i] && d2[j] == r2[j]);
            }
        }
        assert forall|k: Seq<char>| has_key(d1, k) <==> #[trigger] has_key(d2, k) by {
            lemma_has_key_exists(d1, k);
            lemma_has_key_exists(d2, k);
            lemma_has_key_exists(r1, k);
            lemma_has_key_exists(r2, k);
            if has_key(d1, k) {
                let i = choose|i: int| 0 <= i < d1.len() && (#[trigger] d1[i].key_spec()) == k;
                assert(r1[i].key_spec() == k);
                assert(has_key(r1, k));
                let j = choose|j: int| 0 <= j < r2.len() && (#[trigger] r2[j].key_spec()) == k;
                assert(j < r2.len() - 1) by {
                    if j == r2.len() - 1 {
                        // then k is the top key, which already sits at the
                        // end of r1, contradicting strict ordering
                        assert(lex_lt(r1[i].key_spec(), r1[r1.len() - 1].key_spec()));
                        lemma_lex_total(k, k);
                    }
                }
                assert(d2[j].key_spec() == k);
                assert(has_key(d2, k));
            }
            if has_key(d2, k) {
                let j = choose|j: int| 0 <= j < d2.len() && (#[trigger] d2[j].key_spec()) == k;
                assert(r2[j].key_spec() == k);
                assert(has_key(r2, k));
                let i = choose|i: int| 0 <= i < r1.len() && (#[trigger] r1[i].key_spec()) == k;
                assert(i < r1.len() - 1) by {
                    if i == r1.len() - 1 {
                        assert(lex_lt(r2[j].key_spec(), r2[r2.len() - 1].key_spec()));
                        lemma_lex_total(k, k);
                    }
                }
                assert(d1[i].key_spec() == k);
                assert(has_key(d1, k));
            }
        }
        assert forall|i: int, j: int|
            0 <= i < d1.len() && 0 <= j < d2.len() && (#[trigger] d1[i].key_spec()) == (
            #[trigger] d2[j].key_spec()) implies d1[i] == d2[j] by {
            assert(d1[i] == r1[i] && d2[j] == r2[j]);
        }
        lemma_sorted_eq(d1, d2);
        assert(r1 =~= r2) by {
            assert forall|i: int| 0 <= i < r1.len() implies r1[i] == r2[i] by {
                if i < r1.len() - 1 {
                    assert(d1[i] == d2[i]);
                }
            }
        }
    }
}

/// The resolution is pinned by its contract: any two sequences that both
/// resolve the same input are equal.
pub proof fn lemma_resolution_unique<T: Keyed>(s: Seq<T>, r1: Seq<T>, r2: Seq<T>)
    requires
        resolves(s, r1),
        resolves(s, r2),
    ensures
        r1 == r2,
{
    assert forall|k: Seq<char>| has_key(r1, k) <==> #[trigger] has_key(r2, k) by {
        lemma_has_key_exists(r1, k);
        lemma_has_key_exists(r2, k);
        if has_key(r1, k) {
            let i = choose|i: int| 0 <= i < r1.len() && (#[trigger] r1[i].key_spec()) == k;
            assert(last_with_key(s, r1[i].key_spec()) == Some(r1[i]));
            assert(has_key(s, k));
            assert(has_key(r2, k));
        }
        if has_key(r2, k) {
            let j = choose|j: int| 0 <= j < r2.len() && (#[trigger] r2[j].key_spec()) == k;
            assert(last_with_key(s, r2[j].key_spec()) == Some(r2[j]));
            assert(has_key(s, k));
            assert(has_key(r1, k));
        }
    }
    assert forall|i: int, j: int|
        0 <= i < r1.len() && 0 <= j < r2.len() && (#[trigger] r1[i].key_spec()) == (
        #[trigger] r2[j].key_spec()) implies r1[i] == r2[j] by {
        assert(last_with_key(s, r1[i].key_spec()) == Some(r1[i]));
        assert(last_with_key(s, r2[j].key_spec()) == Some(r2[j]));
    }
    lemma_sorted_eq(r1, r2);
}

/// The keys of a sequence, in order.
pub open spec fn key_seq<T: Keyed>(s: Seq<T>) -> Seq<Seq<char>> {
    Seq::new(s.len(), |i: int| s[i].key_spec())
}

/// The number of distinct keys in a sequence.
pub open spec fn distinct_key_count<T: Keyed>(s: Seq<T>) -> nat {
    key_seq(s).to_set().len()
}

/// A resolved sequence holds exactly one element per distinct input key, so
/// its length is the number of distinct keys of the input.
pub proof fn lemma_resolved_len<T: Keyed>(s: Seq<T>, r: Seq<T>)
    requires
        resolves(s, r),
    ensures
        r.len() == distinct_key_count(s),
{
    assert(key_seq(r).no_duplicates()) by {
        assert forall|i: int, j: int|
            0 <= i < key_seq(r).len() && 0 <= j < key_seq(r).len() && i != j implies key_seq(r)[i]
            != key_seq(r)[j] by {
            if i < j {
                lemma_lex_total(r[i].key_spec(), r[j].key_spec());
            } else {
                lemma_lex_total(r[j].key_spec(), r[i].key_spec());
            }
        }
    }
    key_seq(r).unique_seq_to_set();
    assert(key_seq(r).to_set() =~= key_seq(s).to_set()) by {
        assert forall|k: Seq<char>| key_seq(r).to_set().contains(k) implies key_seq(
            s,
        ).to_set().contains(k) by {
            let i = choose|i: int| 0 <= i < key_seq(r).len() && key_seq(r)[i] == k;
            assert(r[i].key_spec() == k);
            assert(last_with_key(s, k) == Some(r[i]));
            lemma_has_key_exists(s, k);
            let j = choose|j: int| 0 <= j < s.len() && (#[trigger] s[j].key_spec()) == k;
            assert(key_seq(s)[j] == k);
            assert(key_seq(s).contains(k));
        }
        assert forall|k: Seq<char>| key_seq(s).to_set().contains(k) implies key_seq(
            r,
        ).to_set().contains(k) by {
            let j = choose|j: int| 0 <= j < key_seq(s).len() && key_seq(s)[j] == k;
            assert(s[j].key_spec() == k);
            lemma_has_key_exists(s, k);
            assert(has_key(s, k));
            assert(has_key(r, k));
            lemma_has_key_exists(r, k);
            let i = choose|i: int| 0 <= i < r.len() && (#[trigger] r[i].key_spec()) == k;
            assert(key_seq(r)[i] == k);
            assert(key_seq(r).contains(k));
        }
    }
}

} // verus!
