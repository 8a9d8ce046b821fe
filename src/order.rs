use vstd::prelude::*;

verus! {

/// Strict lexicographic order on character sequences. Comparing by code
/// point is the order in which `String`'s own comparison puts two strings.
pub open spec fn seq_lt(a: Seq<char>, b: Seq<char>) -> bool
    decreases a.len(),
{
    if b.len() == 0 {
        false
    } else if a.len() == 0 {
        true
    } else if a[0] != b[0] {
        (a[0] as u32) < (b[0] as u32)
    } else {
        seq_lt(a.drop_first(), b.drop_first())
    }
}

/// Every pair of positions is in strictly increasing order; in particular no
/// value appears twice.
pub open spec fn strictly_sorted(s: Seq<Seq<char>>) -> bool {
    forall|i: int, j: int| 0 <= i < j < s.len() ==> seq_lt(#[trigger] s[i], #[trigger] s[j])
}

pub proof fn lemma_lt_irreflexive(a: Seq<char>)
    ensures
        !seq_lt(a, a),
    decreases a.len(),
{
    if a.len() > 0 {
        lemma_lt_irreflexive(a.drop_first());
    }
}

pub proof fn lemma_lt_transitive(a: Seq<char>, b: Seq<char>, c: Seq<char>)
    requires
        seq_lt(a, b),
        seq_lt(b, c),
    ensures
        seq_lt(a, c),
    decreases a.len(),
{
    if a.len() > 0 && a[0] == b[0] && b[0] == c[0] {
        lemma_lt_transitive(a.drop_first(), b.drop_first(), c.drop_first());
    }
}

pub proof fn lemma_lt_total(a: Seq<char>, b: Seq<char>)
    requires
        a != b,
    ensures
        seq_lt(a, b) || seq_lt(b, a),
    decreases a.len(),
{
    if a.len() == 0 {
        if b.len() == 0 {
            assert(a =~= b);
        }
    } else if b.len() > 0 {
        vstd::utf8::char_u32_cast(a[0], a[0] as u32);
        vstd::utf8::char_u32_cast(b[0], b[0] as u32);
        if a[0] == b[0] {
            if a.drop_first() == b.drop_first() {
                assert(a =~= b.drop_first().insert(0, b[0]));
                assert(b =~= b.drop_first().insert(0, b[0]));
            }
            lemma_lt_total(a.drop_first(), b.drop_first());
        }
    }
}

pub proof fn lemma_lt_asymmetric(a: Seq<char>, b: Seq<char>)
    requires
        seq_lt(a, b),
    ensures
        !seq_lt(b, a),
{
    if seq_lt(b, a) {
        lemma_lt_transitive(a, b, a);
        lemma_lt_irreflexive(a);
    }
}

/// A strictly sorted sequence holds each value once.
pub proof fn lemma_sorted_no_duplicates(s: Seq<Seq<char>>)
    requires
        strictly_sorted(s),
    ensures
        s.no_duplicates(),
{
    assert forall|i: int, j: int| 0 <= i < s.len() && 0 <= j < s.len() && i != j implies s[i]
        != s[j] by {
        if i < j {
            lemma_lt_irreflexive(s[i]);
        } else {
            lemma_lt_irreflexive(s[j]);
        }
    }
}

/// Something holds at one of the first `k + 1` positions exactly when it
/// holds at one of the first `k`, or at position `k`.
pub proof fn lemma_exists_prefix_step(p: spec_fn(int) -> bool, k: int)
    requires
        0 <= k,
    ensures
        (exists|j: int| 0 <= j < k + 1 && #[trigger] p(j)) <==> ((exists|j: int|
            0 <= j < k && #[trigger] p(j)) || p(k)),
{
    if exists|j: int| 0 <= j < k + 1 && #[trigger] p(j) {
        let j = choose|j: int| 0 <= j < k + 1 && #[trigger] p(j);
        if j < k {
            assert(0 <= j < k && p(j));
        }
    }
    if exists|j: int| 0 <= j < k && #[trigger] p(j) {
        let j = choose|j: int| 0 <= j < k && #[trigger] p(j);
        assert(0 <= j < k + 1 && p(j));
    }
    if p(k) {
        assert(0 <= k < k + 1 && p(k));
    }
}

/// Whether `a` comes strictly before `b`, comparing character by character.
pub fn str_lt(a: &String, b: &String) -> (r: bool)
    ensures
        r == seq_lt(a@, b@),
{
    let sa = a.as_str();
    let sb = b.as_str();
    let la = sa.unicode_len();
    let lb = sb.unicode_len();
    let mut i: usize = 0;
    assert(a@.skip(0) =~= a@);
    assert(b@.skip(0) =~= b@);
    while i < la && i < lb
        invariant
            i <= la,
            i <= lb,
            la == a@.len(),
            lb == b@.len(),
            sa@ == a@,
            sb@ == b@,
            seq_lt(a@, b@) == seq_lt(a@.skip(i as int), b@.skip(i as int)),
        decreases la - i,
    {
        let ca = sa.get_char(i);
        let cb = sb.get_char(i);
        if ca != cb {
            assert(a@.skip(i as int)[0] == ca);
            assert(b@.skip(i as int)[0] == cb);
            return (ca as u32) < (cb as u32);
        }
        assert(a@.skip(i as int).drop_first() =~= a@.skip(i + 1));
        assert(b@.skip(i as int).drop_first() =~= b@.skip(i + 1));
        i += 1;
    }
    i < lb
}

/// Whether `v` holds a string equal to `x`.
pub fn contains_str(v: &Vec<String>, x: &String) -> (r: bool)
    ensures
        r == v.deep_view().contains(x@),
{
    let mut i: usize = 0;
    while i < v.len()
        invariant
            i <= v.len(),
            forall|k: int| 0 <= k < i ==> v.deep_view()[k] != x@,
        decreases v.len() - i,
    {
        if v[i] == *x {
            assert(v.deep_view()[i as int] == x@);
            return true;
        }
        i += 1;
    }
    false
}

/// Adds `x` to the strictly sorted `v` at its place, unless `v` holds it already.
pub fn sorted_insert(v: &mut Vec<String>, x: &String)
    requires
        strictly_sorted(old(v).deep_view()),
    ensures
        strictly_sorted(final(v).deep_view()),
        forall|y: Seq<char>|
            #![trigger final(v).deep_view().contains(y)]
            final(v).deep_view().contains(y) <==> (old(v).deep_view().contains(y) || y == x@),
{
    let ghost old_dv = v.deep_view();
    let mut i: usize = 0;
    while i < v.len()
        invariant
            i <= v.len(),
            v.deep_view() == old_dv,
            forall|k: int| 0 <= k < i ==> seq_lt(#[trigger] old_dv[k], x@),
        ensures
            i <= v.len(),
            v.deep_view() == old_dv,
            forall|k: int| 0 <= k < i ==> seq_lt(#[trigger] old_dv[k], x@),
            i < v.len() ==> !seq_lt(old_dv[i as int], x@),
        decreases v.len() - i,
    {
        if !str_lt(&v[i], x) {
            break;
        }
        i += 1;
    }
    if i < v.len() && v[i] == *x {
        assert(old_dv[i as int] == x@);
        return;
    }
    proof {
        if i < v.len() {
            lemma_lt_total(old_dv[i as int], x@);
        }
    }
    v.insert(i, x.clone());
    let ghost new_dv = v.deep_view();
    assert(new_dv =~= old_dv.insert(i as int, x@));
    assert forall|a: int, b: int| 0 <= a < b < new_dv.len() implies seq_lt(
        #[trigger] new_dv[a],
        #[trigger] new_dv[b],
    ) by {
        if b < i {
        } else if a < i && b == i {
        } else if a < i {
            assert(seq_lt(old_dv[a], x@));
            if i < old_dv.len() {
                assert(seq_lt(x@, old_dv[i as int]));
                if b - 1 > i {
                    assert(seq_lt(old_dv[i as int], old_dv[b - 1]));
                    lemma_lt_transitive(x@, old_dv[i as int], old_dv[b - 1]);
                }
                lemma_lt_transitive(old_dv[a], x@, old_dv[b - 1]);
            }
        } else if a == i {
            assert(seq_lt(x@, old_dv[i as int]));
            if b - 1 > i {
                assert(seq_lt(old_dv[i as int], old_dv[b - 1]));
                lemma_lt_transitive(x@, old_dv[i as int], old_dv[b - 1]);
            }
        } else {
            assert(seq_lt(old_dv[a - 1], old_dv[b - 1]));
        }
    }
    assert forall|y: Seq<char>| #![trigger new_dv.contains(y)]
        new_dv.contains(y) <==> (old_dv.contains(y) || y == x@) by {
        if new_dv.contains(y) {
            let k = choose|k: int| 0 <= k < new_dv.len() && new_dv[k] == y;
            if k < i {
                assert(old_dv[k] == y);
            } else if k > i {
                assert(old_dv[k - 1] == y);
            }
        }
        if old_dv.contains(y) {
            let k = choose|k: int| 0 <= k < old_dv.len() && old_dv[k] == y;
            if k < i {
                assert(new_dv[k] == y);
            } else {
                assert(new_dv[k + 1] == y);
            }
        }
        if y == x@ {
            assert(new_dv[i as int] == y);
        }
    }
}

} // verus!
