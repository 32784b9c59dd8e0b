use superslice::Ext;
use vstd::prelude::*;

verus! {

/// Absolute value of a correlation image, as an unsigned integer.
pub open spec fn magnitude(c: i64) -> u64 {
    if c < 0 {
        (-(c as int)) as u64
    } else {
        c as u64
    }
}

/// The magnitudes of a row of correlation images.
pub open spec fn magnitudes(row: Seq<i64>) -> Seq<u64> {
    row.map_values(|c: i64| magnitude(c))
}

/// Number of entries of `s` strictly below `v`.
pub open spec fn count_below(s: Seq<u64>, v: u64) -> nat
    decreases s.len(),
{
    if s.len() == 0 {
        0
    } else {
        count_below(s.drop_last(), v) + if s.last() < v {
            1nat
        } else {
            0nat
        }
    }
}

/// Rank of entry `j` of `s`: how many entries are at least as large, not
/// counting one of them. The largest entry has rank 0.
pub open spec fn rank_in(s: Seq<u64>, j: int) -> int {
    s.len() - 1 - count_below(s, s[j])
}

pub open spec fn is_sorted(s: Seq<u64>) -> bool {
    forall|a: int, b: int| 0 <= a <= b < s.len() ==> s[a] <= s[b]
}

/// Rows of a matrix held as a vector of rows.
pub open spec fn rows<T>(m: Seq<Vec<T>>) -> Seq<Seq<T>> {
    m.map_values(|r: Vec<T>| r@)
}

pub open spec fn is_square<T>(m: Seq<Seq<T>>, n: int) -> bool {
    &&& m.len() == n
    &&& forall|i: int| 0 <= i < n ==> #[trigger] m[i].len() == n
}

/// The highest reciprocal rank of two directional ranks: the worse of them.
pub open spec fn hrr_spec(a: int, b: int) -> int {
    if a >= b {
        a
    } else {
        b
    }
}

pub proof fn lemma_count_below_bound(s: Seq<u64>, v: u64)
    ensures
        count_below(s, v) <= s.len(),
    decreases s.len(),
{
    if s.len() > 0 {
        lemma_count_below_bound(s.drop_last(), v);
    }
}

/// An entry is never below itself, so at most `len - 1` entries are below it.
pub proof fn lemma_count_below_entry(s: Seq<u64>, j: int)
    requires
        0 <= j < s.len(),
    ensures
        count_below(s, s[j]) < s.len(),
    decreases s.len(),
{
    if j < s.len() - 1 {
        lemma_count_below_entry(s.drop_last(), j);
    } else {
        lemma_count_below_bound(s.drop_last(), s[j]);
    }
}

/// In a sequence split at `r` into entries below `v` and entries not below
/// it, exactly `r` entries are below `v`.
proof fn lemma_count_below_split(s: Seq<u64>, v: u64, r: int)
    requires
        0 <= r <= s.len(),
        forall|i: int| 0 <= i < r ==> s[i] < v,
        forall|i: int| r <= i < s.len() ==> s[i] >= v,
    ensures
        count_below(s, v) == r,
    decreases s.len(),
{
    if s.len() > 0 {
        if r == s.len() {
            lemma_count_below_split(s.drop_last(), v, r - 1);
        } else {
            lemma_count_below_split(s.drop_last(), v, r);
        }
    }
}

/// `count_below` depends on the multiset of entries only.
proof fn lemma_count_below_multiset(s: Seq<u64>, t: Seq<u64>, v: u64)
    requires
        s.to_multiset() == t.to_multiset(),
    ensures
        count_below(s, v) == count_below(t, v),
    decreases s.len(),
{
    broadcast use vstd::seq_lib::group_to_multiset_ensures;

    if s.len() == 0 {
        assert(t.len() == 0) by {
            assert(t.to_multiset().len() == 0);
        }
    } else {
        let x = s.last();
        assert(s.to_multiset().count(x) > 0) by {
            assert(s.contains(x)) by {
                assert(s[s.len() - 1] == x);
            }
        }
        assert(t.contains(x));
        let k = choose|k: int| 0 <= k < t.len() && t[k] == x;
        let t2 = t.remove(k);
        assert(s.drop_last().to_multiset() == t2.to_multiset()) by {
            assert(s =~= s.drop_last().push(x));
            vstd::seq_lib::to_multiset_remove(t, k);
        }
        lemma_count_below_multiset(s.drop_last(), t2, v);
        lemma_count_below_remove(t, k, v);
    }
}

/// Removing entry `k` removes it from the count when it is below `v`.
proof fn lemma_count_below_remove(t: Seq<u64>, k: int, v: u64)
    requires
        0 <= k < t.len(),
    ensures
        count_below(t, v) == count_below(t.remove(k), v) + if t[k] < v {
            1int
        } else {
            0int
        },
    decreases t.len(),
{
    if k == t.len() - 1 {
        assert(t.remove(k) =~= t.drop_last());
    } else {
        lemma_count_below_remove(t.drop_last(), k, v);
        assert(t.remove(k).drop_last() =~= t.drop_last().remove(k));
        assert(t.remove(k).last() == t.last());
    }
}

proof fn lemma_count_below_monotone(s: Seq<u64>, a: u64, b: u64)
    requires
        a <= b,
    ensures
        count_below(s, a) <= count_below(s, b),
    decreases s.len(),
{
    if s.len() > 0 {
        lemma_count_below_monotone(s.drop_last(), a, b);
    }
}

/// When `a` is an entry of `s` and `b` is larger, `a` itself is one more
/// entry below `b` than below `a`.
proof fn lemma_count_below_strict(s: Seq<u64>, j: int, b: u64)
    requires
        0 <= j < s.len(),
        s[j] < b,
    ensures
        count_below(s, s[j]) < count_below(s, b),
    decreases s.len(),
{
    if j == s.len() - 1 {
        lemma_count_below_monotone(s.drop_last(), s[j], b);
    } else {
        lemma_count_below_strict(s.drop_last(), j, b);
    }
}

/// An entry larger than every other entry has rank 0.
proof fn lemma_count_below_max(s: Seq<u64>, i: int)
    requires
        0 <= i < s.len(),
        forall|k: int| 0 <= k < s.len() && k != i ==> s[k] < s[i],
    ensures
        count_below(s, s[i]) == s.len() - 1,
    decreases s.len(),
{
    if i == s.len() - 1 {
        lemma_count_below_split(s.drop_last(), s[i], s.len() - 1);
    } else {
        lemma_count_below_max(s.drop_last(), i);
    }
}

/// The ranks of the entries of `s` are a permutation of `0 .. len`: each
/// lies in that range, no two entries share one, and each value of the
/// range is the rank of some entry.
pub open spec fn ranks_are_permutation(s: Seq<u64>) -> bool {
    &&& forall|j: int| 0 <= j < s.len() ==> 0 <= #[trigger] rank_in(s, j) < s.len()
    &&& forall|j: int, k: int|
        0 <= j < s.len() && 0 <= k < s.len() && j != k ==> #[trigger] rank_in(s, j)
            != #[trigger] rank_in(s, k)
    &&& forall|v: int| 0 <= v < s.len() ==> #[trigger] is_rank_of_some_entry(s, v)
}

pub open spec fn is_rank_of_some_entry(s: Seq<u64>, v: int) -> bool {
    exists|j: int| 0 <= j < s.len() && #[trigger] rank_in(s, j) == v
}

/// Pairwise distinct entries have pairwise distinct ranks.
pub proof fn lemma_distinct_entries_have_distinct_ranks(s: Seq<u64>)
    requires
        forall|j: int, k: int| 0 <= j < k < s.len() ==> s[j] != s[k],
    ensures
        ranks_are_permutation(s),
{
    assert forall|j: int| 0 <= j < s.len() implies 0 <= #[trigger] rank_in(s, j) < s.len() by {
        lemma_count_below_entry(s, j);
    }
    assert forall|j: int, k: int|
        0 <= j < s.len() && 0 <= k < s.len() && j != k implies #[trigger] rank_in(s, j)
            != #[trigger] rank_in(s, k) by {
        if j < k {
            assert(s[j] != s[k]);
        } else {
            assert(s[k] != s[j]);
        }
        if s[j] < s[k] {
            lemma_count_below_strict(s, j, s[k]);
        } else {
            lemma_count_below_strict(s, k, s[j]);
        }
    }
    // n distinct ranks below n take every value below n
    let n = s.len() as int;
    let dom = vstd::set_lib::set_int_range(0, n);
    let f = |j: int| rank_in(s, j);
    let img = dom.map(f);
    vstd::set_lib::lemma_int_range(0, n);
    assert(vstd::relations::injective_on(f, dom));
    vstd::set_lib::lemma_map_size(dom, img, f);
    assert(img.subset_of(vstd::set_lib::set_int_range(0, n))) by {
        assert forall|v: int| img.contains(v) implies vstd::set_lib::set_int_range(0, n).contains(v) by {
            let j = choose|j: int| dom.contains(j) && f(j) == v;
        }
    }
    vstd::set_lib::lemma_subset_equality(img, vstd::set_lib::set_int_range(0, n));
    assert forall|v: int| 0 <= v < s.len() implies #[trigger] is_rank_of_some_entry(s, v) by {
        assert(vstd::set_lib::set_int_range(0, n).contains(v));
        assert(img.contains(v));
        let j = choose|j: int| dom.contains(j) && f(j) == v;
        assert(rank_in(s, j) == v);
    }
}

proof fn lemma_rank_row_is_permutation(row: Seq<i64>, i: int)
    requires
        0 <= i < row.len(),
        forall|j: int, k: int|
            0 <= j < k < row.len() ==> magnitude(#[trigger] row[j]) != magnitude(#[trigger] row[k]),
        forall|j: int| 0 <= j < row.len() ==> magnitude(#[trigger] row[j]) <= magnitude(row[i]),
    ensures
        ranks_are_permutation(magnitudes(row)),
        rank_in(magnitudes(row), i) == 0,
{
    let s = magnitudes(row);
    assert forall|j: int, k: int| 0 <= j < k < s.len() implies s[j] != s[k] by {
        assert(s[j] == magnitude(row[j]));
        assert(s[k] == magnitude(row[k]));
    }
    lemma_distinct_entries_have_distinct_ranks(s);
    assert forall|k: int| 0 <= k < s.len() && k != i implies s[k] < s[i] by {
        assert(s[k] == magnitude(row[k]));
        assert(s[i] == magnitude(row[i]));
        if k < i {
            assert(magnitude(row[k]) != magnitude(row[i]));
        } else {
            assert(magnitude(row[i]) != magnitude(row[k]));
        }
    }
    lemma_count_below_max(s, i);
}

/// Every row of the rank matrix of a square matrix whose rows hold pairwise
/// distinct magnitudes, the diagonal one the largest, is a permutation of
/// `0 .. n`, and each diagonal entry ranks 0.
pub proof fn lemma_rank_rows_are_permutations(corr: Seq<Seq<i64>>, n: int)
    requires
        is_square(corr, n),
        forall|i: int, j: int, k: int|
            0 <= i < n && 0 <= j < k < n ==> magnitude(#[trigger] corr[i][j]) != magnitude(
                #[trigger] corr[i][k],
            ),
        forall|i: int, j: int|
            0 <= i < n && 0 <= j < n ==> magnitude(#[trigger] corr[i][j]) <= magnitude(corr[i][i]),
    ensures
        forall|i: int| 0 <= i < n ==> ranks_are_permutation(#[trigger] magnitudes(corr[i])),
        forall|i: int| 0 <= i < n ==> #[trigger] rank_in(magnitudes(corr[i]), i) == 0,
{
    assert forall|i: int| 0 <= i < n implies ranks_are_permutation(#[trigger] magnitudes(corr[i]))
        && rank_in(magnitudes(corr[i]), i) == 0 by {
        assert(corr[i].len() == n);
        assert forall|j: int, k: int| 0 <= j < k < corr[i].len() implies magnitude(
            #[trigger] corr[i][j],
        ) != magnitude(#[trigger] corr[i][k]) by {}
        assert forall|j: int| 0 <= j < corr[i].len() implies magnitude(#[trigger] corr[i][j])
            <= magnitude(corr[i][i]) by {}
        lemma_rank_row_is_permutation(corr[i], i);
    }
}

/// Relies on `slice::sort`: afterwards the entries are in ascending order
/// and are the same entries as before.
#[verifier::external_body]
fn sort_ascending(v: &mut Vec<u64>)
    ensures
        is_sorted(final(v)@),
        final(v)@.to_multiset() == old(v)@.to_multiset(),
{
    v.sort();
}

/// Relies on `superslice::Ext::lower_bound`: on an ascending slice it returns
/// the first position whose entry is not below `x`.
#[verifier::external_body]
fn lower_bound(sorted: &Vec<u64>, x: u64) -> (r: usize)
    requires
        is_sorted(sorted@),
    ensures
        r <= sorted@.len(),
        forall|i: int| 0 <= i < r ==> sorted@[i] < x,
        forall|i: int| r <= i < sorted@.len() ==> sorted@[i] >= x,
{
    sorted.as_slice().lower_bound(&x)
}

/// The highest reciprocal rank of `a` and `b`.
pub fn hrr(a: usize, b: usize) -> (r: usize)
    ensures
        r == hrr_spec(a as int, b as int),
{
    if a >= b {
        a
    } else {
        b
    }
}

/// Rank of `v` among the entries of an ascending vector: the number of
/// entries not below `v`, less one.
pub fn _rank(v: u64, sorted_vec: &Vec<u64>) -> (r: usize)
    requires
        is_sorted(sorted_vec@),
        exists|i: int| 0 <= i < sorted_vec@.len() && sorted_vec@[i] >= v,
    ensures
        r == sorted_vec@.len() - 1 - count_below(sorted_vec@, v),
{
    let idx = lower_bound(sorted_vec, v);
    proof {
        lemma_count_below_split(sorted_vec@, v, idx as int);
    }
    sorted_vec.len() - idx - 1
}

/// The input of `construct_rank_matrix` is not a `size` by `size` matrix.
#[derive(Debug, Clone, Copy, PartialEq, Eq, Structural)]
pub struct ShapeError {
    pub size: usize,
}

/// Absolute value of a correlation image.
pub fn magnitude_of(c: i64) -> (r: u64)
    ensures
        r == magnitude(c),
{
    if c < 0 {
        (-(c + 1)) as u64 + 1
    } else {
        c as u64
    }
}

fn is_square_matrix(m: &Vec<Vec<i64>>, size: usize) -> (r: bool)
    ensures
        r == is_square(rows(m@), size as int),
{
    if m.len() != size {
        return false;
    }
    let mut i: usize = 0;
    while i < m.len()
        invariant
            i <= m.len() == size,
            forall|k: int| 0 <= k < i ==> #[trigger] rows(m@)[k].len() == size,
        decreases m.len() - i,
    {
        if m[i].len() != size {
            assert(rows(m@)[i as int] == m@[i as int]@);
            return false;
        }
        i += 1;
    }
    true
}

/// Ranks one row of correlation images by magnitude.
fn rank_row(row: &Vec<i64>) -> (r: Vec<usize>)
    requires
        row@.len() > 0,
    ensures
        r@.len() == row@.len(),
        forall|j: int| 0 <= j < row@.len() ==> #[trigger] r@[j] == rank_in(magnitudes(row@), j),
{
    let ghost mags_spec = magnitudes(row@);
    let mut mags: Vec<u64> = Vec::new();
    let mut sorted: Vec<u64> = Vec::new();
    let mut j: usize = 0;
    while j < row.len()
        invariant
            j <= row@.len(),
            mags_spec == magnitudes(row@),
            mags@ == mags_spec.take(j as int),
            sorted@ == mags@,
        decreases row.len() - j,
    {
        let m = magnitude_of(row[j]);
        mags.push(m);
        sorted.push(m);
        j += 1;
        assert(mags@ =~= mags_spec.take(j as int));
    }
    assert(mags@ =~= mags_spec);
    sort_ascending(&mut sorted);
    let mut ranks: Vec<usize> = Vec::new();
    let mut j: usize = 0;
    while j < mags.len()
        invariant
            j <= mags@.len() == row@.len(),
            mags@ == mags_spec,
            mags_spec == magnitudes(row@),
            is_sorted(sorted@),
            sorted@.to_multiset() == mags@.to_multiset(),
            ranks@.len() == j,
            forall|k: int| 0 <= k < j ==> #[trigger] ranks@[k] == rank_in(mags_spec, k),
        decreases mags.len() - j,
    {
        let v = mags[j];
        proof {
            broadcast use vstd::seq_lib::group_to_multiset_ensures;

            assert(mags@.contains(v)) by {
                assert(mags@[j as int] == v);
            }
            assert(sorted@.to_multiset().count(v) > 0);
            let i = choose|i: int| 0 <= i < sorted@.len() && sorted@[i] == v;
            assert(sorted@[i] >= v);
            lemma_count_below_multiset(sorted@, mags@, v);
        }
        let r = _rank(v, &sorted);
        proof {
            broadcast use vstd::seq_lib::group_to_multiset_ensures;

            assert(sorted@.len() == mags@.len()) by {
                assert(sorted@.to_multiset().len() == mags@.to_multiset().len());
            }
        }
        ranks.push(r);
        j += 1;
    }
    ranks
}

/// The rank matrix of a square correlation matrix: row `i` ranks the
/// magnitudes of row `i`, rank 0 going to the largest. Equal magnitudes
/// share one rank: that of the first of them in ascending order, the
/// largest any of them would get.
pub fn construct_rank_matrix(corr: &Vec<Vec<i64>>, size: usize) -> (r: Result<
    Vec<Vec<usize>>,
    ShapeError,
>)
    ensures
        r is Ok <==> is_square(rows(corr@), size as int),
        r is Err ==> r->Err_0 == (ShapeError { size }),
        r is Ok ==> {
            let m = rows(r->Ok_0@);
            &&& is_square(m, size as int)
            &&& forall|i: int, j: int|
                0 <= i < size && 0 <= j < size ==> #[trigger] m[i][j] == rank_in(
                    magnitudes(rows(corr@)[i]),
                    j,
                )
        },
{
    if !is_square_matrix(corr, size) {
        return Err(ShapeError { size });
    }
    let mut rank_vec: Vec<Vec<usize>> = Vec::new();
    let mut i: usize = 0;
    while i < size
        invariant
            i <= size,
            is_square(rows(corr@), size as int),
            rank_vec@.len() == i,
            forall|k: int| 0 <= k < i ==> (#[trigger] rows(rank_vec@)[k]).len() == size,
            forall|k: int, j: int|
                0 <= k < i && 0 <= j < size ==> #[trigger] rows(rank_vec@)[k][j] == rank_in(
                    magnitudes(rows(corr@)[k]),
                    j,
                ),
        decreases size - i,
    {
        assert(rows(corr@)[i as int] == corr@[i as int]@);
        let row = rank_row(&corr[i]);
        let ghost before = rank_vec@;
        rank_vec.push(row);
        assert(rows(rank_vec@) =~= rows(before).push(row@));
        i += 1;
    }
    Ok(rank_vec)
}

/// The characters of each name.
pub open spec fn names_of(names: Seq<String>) -> Seq<Seq<char>> {
    names.map_values(|s: String| s@)
}

/// The name of the last of the first `upto` columns whose rank is `k + 1`,
/// or the empty name when there is none.
pub open spec fn name_at_rank(row: Seq<usize>, names: Seq<Seq<char>>, k: int, upto: int) -> Seq<
    char,
>
    decreases upto,
{
    if upto <= 0 {
        Seq::empty()
    } else if row[upto - 1] == k + 1 {
        names[upto - 1]
    } else {
        name_at_rank(row, names, k, upto - 1)
    }
}

/// The names of the partners of `i`, ordered by the ranks of row `i`: the
/// name of the column ranked `k + 1` stands at `k`. Rank 0 (the row itself)
/// is left out.
pub fn get_index_sorted_by_rank(rank_matrix: &Vec<Vec<usize>>, i: usize, index: &Vec<String>) -> (r:
    Vec<String>)
    requires
        index@.len() >= 1,
        i < rank_matrix@.len(),
        rows(rank_matrix@)[i as int].len() >= index@.len(),
        forall|j: int| 0 <= j < index@.len() ==> #[trigger] rows(rank_matrix@)[i as int][j] < index@.len(),
    ensures
        r@.len() == index@.len() - 1,
        forall|k: int|
            0 <= k < r@.len() ==> (#[trigger] r@[k])@ == name_at_rank(
                rows(rank_matrix@)[i as int],
                names_of(index@),
                k,
                index@.len() as int,
            ),
{
    let ghost row = rows(rank_matrix@)[i as int];
    let ghost names = names_of(index@);
    let n = index.len();
    let mut rank_vec: Vec<String> = Vec::new();
    while rank_vec.len() < n - 1
        invariant
            rank_vec@.len() <= n - 1,
            n == index@.len() >= 1,
            forall|k: int| 0 <= k < rank_vec@.len() ==> (#[trigger] rank_vec@[k])@ == Seq::<char>::empty(),
        decreases n - 1 - rank_vec@.len(),
    {
        rank_vec.push(String::new());
    }
    let row_vec = &rank_matrix[i];
    assert(row_vec@ == row);
    let mut j: usize = 0;
    while j < n
        invariant
            j <= n == index@.len(),
            row_vec@ == row,
            row.len() >= n,
            names == names_of(index@),
            forall|c: int| 0 <= c < n ==> #[trigger] row[c] < n,
            rank_vec@.len() == n - 1,
            forall|k: int|
                0 <= k < n - 1 ==> (#[trigger] rank_vec@[k])@ == name_at_rank(row, names, k, j as int),
        decreases n - j,
    {
        let rank = row_vec[j];
        if rank != 0 {
            assert(rank < n);
            rank_vec.set(rank - 1, index[j].clone());
        }
        j += 1;
        assert forall|k: int| 0 <= k < n - 1 implies (#[trigger] rank_vec@[k])@ == name_at_rank(
            row,
            names,
            k,
            j as int,
        ) by {
            assert(names[j - 1] == index@[j - 1]@);
        }
    }
    rank_vec
}

} // verus!
