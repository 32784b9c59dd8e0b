use vstd::prelude::*;

verus! {

/// An item of a ranking, compared with another by its view.
pub trait RankItem: View + Sized {
    fn same_item(&self, other: &Self) -> (r: bool)
        ensures
            r == (self@ == other@),
    ;
}

impl RankItem for String {
    fn same_item(&self, other: &Self) -> (r: bool) {
        self.eq(other)
    }
}

impl RankItem for i32 {
    fn same_item(&self, other: &Self) -> (r: bool) {
        *self == *other
    }
}

impl RankItem for i64 {
    fn same_item(&self, other: &Self) -> (r: bool) {
        *self == *other
    }
}

impl RankItem for u32 {
    fn same_item(&self, other: &Self) -> (r: bool) {
        *self == *other
    }
}

impl RankItem for u64 {
    fn same_item(&self, other: &Self) -> (r: bool) {
        *self == *other
    }
}

impl RankItem for usize {
    fn same_item(&self, other: &Self) -> (r: bool) {
        *self == *other
    }
}

/// The views of the items of a ranking.
pub open spec fn items<T: View>(s: Seq<T>) -> Seq<T::V> {
    s.map_values(|t: T| t@)
}

/// Number of items shared by the first `x` items of `a` and of `b`.
pub open spec fn overlap<V>(a: Seq<V>, b: Seq<V>, x: int) -> nat {
    a.take(x).to_set().intersect(b.take(x).to_set()).len()
}

/// Sum of the overlaps of the prefixes of length `1 ..= k`.
pub open spec fn overlap_sum<V>(a: Seq<V>, b: Seq<V>, k: int) -> nat
    decreases k,
{
    if k <= 0 {
        0
    } else {
        overlap_sum(a, b, k - 1) + overlap(a, b, k)
    }
}

/// `1 + 2 + ... + k`.
pub open spec fn triangle(k: int) -> nat
    decreases k,
{
    if k <= 0 {
        0
    } else {
        triangle(k - 1) + k as nat
    }
}

/// A cosmix score, as the exact ratio `numerator / denominator`.
#[derive(Debug, Clone, Copy, PartialEq, Eq, Structural)]
pub struct CosmixScore {
    pub numerator: u128,
    pub denominator: u128,
}

pub proof fn lemma_triangle(k: int)
    requires
        k >= 0,
    ensures
        2 * triangle(k) == k * (k + 1),
    decreases k,
{
    if k > 0 {
        lemma_triangle(k - 1);
        let t = triangle(k - 1) as int;
        assert(triangle(k) == t + k);
        assert(2 * (t + k) == k * (k + 1)) by (nonlinear_arith)
            requires
                2 * t == (k - 1) * ((k - 1) + 1),
        ;
        assert(2 * triangle(k) == k * (k + 1));
    } else {
        assert(k == 0);
        assert(triangle(0) == 0);
    }
}

/// The first `x` items of `a` hold at most `x` distinct items, so the
/// overlap of the prefixes of length `x` is at most `x`.
pub proof fn lemma_overlap_bound<V>(a: Seq<V>, b: Seq<V>, x: int)
    requires
        0 <= x <= a.len(),
    ensures
        overlap(a, b, x) <= x,
{
    let s = a.take(x).to_set();
    let r = b.take(x).to_set();
    a.take(x).lemma_cardinality_of_set();
    vstd::seq_lib::seq_to_set_is_finite(a.take(x));
    vstd::set_lib::lemma_len_intersect(s, r);
}

/// A cosmix score lies between 0 and 1: the overlap sum never exceeds the
/// triangular number. When, at every prefix length up to `k`, the two
/// prefixes hold the same items, and the first `k` items of `a` are
/// distinct, the score is exactly 1.
pub proof fn lemma_cosmix_bounded<V>(a: Seq<V>, b: Seq<V>, k: int)
    requires
        0 <= k <= a.len(),
        k <= b.len(),
    ensures
        overlap_sum(a, b, k) <= triangle(k),
        (forall|x: int| 0 <= x <= k ==> #[trigger] a.take(x).to_set() == b.take(x).to_set())
            && a.take(k).no_duplicates() ==> overlap_sum(a, b, k) == triangle(k),
    decreases k,
{
    if k > 0 {
        lemma_cosmix_bounded(a, b, k - 1);
        lemma_overlap_bound(a, b, k);
        if (forall|x: int| 0 <= x <= k ==> #[trigger] a.take(x).to_set() == b.take(x).to_set())
            && a.take(k).no_duplicates() {
            let shorter = a.take(k - 1);
            let longer = a.take(k);
            assert(shorter.no_duplicates()) by {
                assert forall|i: int, j: int|
                    0 <= i < shorter.len() && 0 <= j < shorter.len() && i != j implies #[trigger] shorter[i]
                    != #[trigger] shorter[j] by {
                    assert(shorter[i] == longer[i]);
                    assert(shorter[j] == longer[j]);
                }
            }
            let s = a.take(k).to_set();
            assert(s.intersect(b.take(k).to_set()) =~= s);
            a.take(k).unique_seq_to_set();
        }
    }
}

/// `sorted` with `x` placed after the last entry whose rank is not above
/// that of `x`.
pub open spec fn insert_by_rank(sorted: Seq<(String, i64)>, x: (String, i64)) -> Seq<(String, i64)>
    decreases sorted.len(),
{
    if sorted.len() == 0 {
        seq![x]
    } else if sorted.last().1 <= x.1 {
        sorted.push(x)
    } else {
        insert_by_rank(sorted.drop_last(), x).push(sorted.last())
    }
}

/// The partners in ascending order of rank, those of equal rank in their
/// former order.
pub open spec fn stable_sort_by_rank(partners: Seq<(String, i64)>) -> Seq<(String, i64)>
    decreases partners.len(),
{
    if partners.len() == 0 {
        Seq::empty()
    } else {
        insert_by_rank(stable_sort_by_rank(partners.drop_last()), partners.last())
    }
}

/// Relies on `slice::sort_by_key`: a stable sort, here by rank.
#[verifier::external_body]
fn sort_by_rank(partners: &mut Vec<(String, i64)>)
    ensures
        final(partners)@ == stable_sort_by_rank(old(partners)@),
{
    partners.sort_by_key(|p| p.1);
}

/// Sorts the partners of a gene by rank, strongest first, and returns
/// their names in that order.
pub fn sort_corr_by_rank(corr_ranked: &mut Vec<(String, i64)>) -> (r: Vec<String>)
    ensures
        final(corr_ranked)@ == stable_sort_by_rank(old(corr_ranked)@),
        r@.len() == final(corr_ranked)@.len(),
        forall|k: int| 0 <= k < r@.len() ==> (#[trigger] r@[k])@ == final(corr_ranked)@[k].0@,
{
    sort_by_rank(corr_ranked);
    let mut names: Vec<String> = Vec::new();
    let mut k: usize = 0;
    while k < corr_ranked.len()
        invariant
            k <= corr_ranked@.len(),
            names@.len() == k,
            forall|j: int| 0 <= j < k ==> (#[trigger] names@[j])@ == corr_ranked@[j].0@,
        decreases corr_ranked@.len() - k,
    {
        names.push(corr_ranked[k].0.clone());
        k += 1;
    }
    names
}

/// Whether `item` occurs among the first `upto` items of `s`.
fn occurs_in<T: RankItem>(s: &[T], upto: usize, item: &T) -> (r: bool)
    requires
        upto <= s@.len(),
    ensures
        r == items(s@).take(upto as int).contains(item@),
{
    let mut i: usize = 0;
    while i < upto
        invariant
            i <= upto <= s@.len(),
            forall|j: int| 0 <= j < i ==> (#[trigger] s@[j])@ != item@,
        decreases upto - i,
    {
        if s[i].same_item(item) {
            assert(items(s@).take(upto as int)[i as int] == item@);
            return true;
        }
        i += 1;
    }
    assert forall|j: int| 0 <= j < upto implies items(s@).take(upto as int)[j] != item@ by {
        assert(items(s@).take(upto as int)[j] == s@[j]@);
    }
    false
}

/// The cosmix score of `list` against `ref_list` at depth `k`: the overlaps
/// of the prefixes of length `1 ..= k`, summed, over `1 + 2 + ... + k`.
pub fn cosmix<T: RankItem>(list: &[T], ref_list: &[T], k: usize) -> (r: CosmixScore)
    requires
        k <= list@.len(),
        k <= ref_list@.len(),
    ensures
        r.numerator == overlap_sum(items(list@), items(ref_list@), k as int),
        r.denominator == triangle(k as int),
{
    let ghost a = items(list@);
    let ghost b = items(ref_list@);
    let mut numerator: u128 = 0;
    let mut denominator: u128 = 0;
    let mut shared: usize = 0;
    let mut x: usize = 0;
    assert(a.take(0).to_set() =~= Set::empty());
    assert(a.take(0).to_set().intersect(b.take(0).to_set()) =~= Set::empty());
    while x < k
        invariant
            x <= k <= list@.len(),
            k <= ref_list@.len(),
            a == items(list@),
            b == items(ref_list@),
            shared == overlap(a, b, x as int),
            numerator == overlap_sum(a, b, x as int),
            denominator == triangle(x as int),
            numerator <= denominator,
        decreases k - x,
    {
        let ghost s = a.take(x as int).to_set();
        let ghost rs = b.take(x as int).to_set();
        let item = &list[x];
        let ref_item = &ref_list[x];
        let item_in_list = occurs_in(list, x, item);
        let item_in_ref = occurs_in(ref_list, x, item);
        let ref_in_list = occurs_in(list, x, ref_item);
        let ref_in_ref = occurs_in(ref_list, x, ref_item);
        let same = item.same_item(ref_item);
        proof {
            vstd::seq_lib::seq_to_set_is_finite(a.take(x as int));
            vstd::seq_lib::seq_to_set_is_finite(b.take(x as int));
            assert(a.take(x + 1) =~= a.take(x as int).push(a[x as int]));
            assert(b.take(x + 1) =~= b.take(x as int).push(b[x as int]));
            a.take(x as int).lemma_push_to_set_commute(a[x as int]);
            b.take(x as int).lemma_push_to_set_commute(b[x as int]);
            assert(a[x as int] == item@);
            assert(b[x as int] == ref_item@);
            lemma_overlap_bound(a, b, x + 1);
        }
        let ghost both = s.intersect(rs);
        let ghost with_item = if (item_in_ref || same) && !(item_in_list && item_in_ref) {
            both.insert(item@)
        } else {
            both
        };
        let ghost with_ref = if (ref_in_list || same) && !(ref_in_list && ref_in_ref) && !same {
            with_item.insert(ref_item@)
        } else {
            with_item
        };
        proof {
            assert(with_ref =~= a.take(x + 1).to_set().intersect(b.take(x + 1).to_set()));
        }
        if (item_in_ref || same) && !(item_in_list && item_in_ref) {
            shared += 1;
        }
        if (ref_in_list || same) && !(ref_in_list && ref_in_ref) && !same {
            shared += 1;
        }
        x += 1;
        proof {
            lemma_triangle(x as int);
            assert(x * (x + 1) <= 0x1_0000_0000_0000_0000 * 0x1_0000_0000_0000_0000) by (
            nonlinear_arith)
                requires
                    x <= 0xffff_ffff_ffff_ffff,
            ;
        }
        numerator += shared as u128;
        denominator += x as u128;
    }
    CosmixScore { numerator, denominator }
}

} // verus!
