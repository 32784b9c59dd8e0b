use vstd::prelude::*;

verus! {

/// Number of sense codons: the 64 codons less the stop codons TAA, TAG, TGA.
pub const CODON_SIZE: usize = 61;

/// What `str::to_uppercase` returns for a string.
pub uninterp spec fn upper_of(s: Seq<char>) -> Seq<char>;

/// Relies on `str::to_uppercase`: the result depends on the characters
/// alone.
#[verifier::external_body]
fn uppercase(s: &str) -> (r: String)
    ensures
        r@ == upper_of(s@),
{
    s.to_uppercase()
}

/// Relies on `format!` writing each `char` as itself.
#[verifier::external_body]
fn codon_string(a: char, b: char, c: char) -> (r: String)
    ensures
        r@ == seq![a, b, c],
{
    format!("{}{}{}", a, b, c)
}

/// Position of a base in the order A, C, G, T; -1 for anything else.
pub open spec fn base_index(c: char) -> int {
    if c == 'A' {
        0
    } else if c == 'C' {
        1
    } else if c == 'G' {
        2
    } else if c == 'T' {
        3
    } else {
        -1
    }
}

pub open spec fn base_at(i: int) -> char {
    if i == 0 {
        'A'
    } else if i == 1 {
        'C'
    } else if i == 2 {
        'G'
    } else {
        'T'
    }
}

/// Number of a codon among the 64 in lexicographic order, or -1 when one of
/// its letters is not a base.
pub open spec fn codon_number(a: char, b: char, c: char) -> int {
    if base_index(a) < 0 || base_index(b) < 0 || base_index(c) < 0 {
        -1
    } else {
        16 * base_index(a) + 4 * base_index(b) + base_index(c)
    }
}

/// TAA, TAG and TGA.
pub open spec fn is_stop(n: int) -> bool {
    n == 48 || n == 50 || n == 56
}

/// Position of a sense codon, numbered `n` among all 64, among the sense
/// codons in lexicographic order.
pub open spec fn sense_index(n: int) -> int {
    if n < 48 {
        n
    } else if n < 50 {
        n - 1
    } else if n < 56 {
        n - 2
    } else {
        n - 3
    }
}

/// Number among all 64 of the sense codon at position `t`.
pub open spec fn sense_number(t: int) -> int {
    if t < 48 {
        t
    } else if t < 49 {
        t + 1
    } else if t < 54 {
        t + 2
    } else {
        t + 3
    }
}

/// The letters of the sense codon at position `t`.
pub open spec fn sense_codon(t: int) -> Seq<char> {
    let n = sense_number(t);
    seq![base_at(n / 16), base_at((n / 4) % 4), base_at(n % 4)]
}

/// Number of codon positions read from a sequence of `len` letters: those
/// starting at `0, 3, 6, ...` below `len - 3`.
pub open spec fn codon_steps(len: int) -> int {
    (len - 1) / 3
}

/// Position among the sense codons of the codon read at step `s`, or -1
/// when it is a stop codon or holds a letter that is not a base.
pub open spec fn codon_at(chars: Seq<char>, s: int) -> int {
    let n = codon_number(chars[3 * s], chars[3 * s + 1], chars[3 * s + 2]);
    if n < 0 || is_stop(n) {
        -1
    } else {
        sense_index(n)
    }
}

/// How many of the first `steps` codon steps read the sense codon `t`.
pub open spec fn codon_count(chars: Seq<char>, t: int, steps: int) -> nat
    decreases steps,
{
    if steps <= 0 {
        0
    } else {
        codon_count(chars, t, steps - 1) + if codon_at(chars, steps - 1) == t {
            1nat
        } else {
            0nat
        }
    }
}

/// The codon usage of an upper-case sequence: for each sense codon, in
/// lexicographic order, how many codon steps read it.
pub open spec fn codon_usage(chars: Seq<char>) -> Seq<nat> {
    Seq::new(CODON_SIZE as nat, |t: int| codon_count(chars, t, codon_steps(chars.len() as int)))
}

fn base_index_of(c: char) -> (r: i64)
    ensures
        r == base_index(c),
{
    if c == 'A' {
        0
    } else if c == 'C' {
        1
    } else if c == 'G' {
        2
    } else if c == 'T' {
        3
    } else {
        -1
    }
}

fn base_at_exec(i: usize) -> (r: char)
    requires
        i < 4,
    ensures
        r == base_at(i as int),
{
    if i == 0 {
        'A'
    } else if i == 1 {
        'C'
    } else if i == 2 {
        'G'
    } else {
        'T'
    }
}

/// The sense codons in lexicographic order, each with a count of zero.
pub fn make_codon_map() -> (r: Vec<(String, usize)>)
    ensures
        r@.len() == CODON_SIZE,
        forall|t: int| 0 <= t < CODON_SIZE ==> (#[trigger] r@[t]).0@ == sense_codon(t) && r@[t].1 == 0,
{
    let mut map: Vec<(String, usize)> = Vec::new();
    let mut n: usize = 0;
    while n < 64
        invariant
            n <= 64,
            map@.len() == if n <= 48 {
                n as int
            } else if n <= 50 {
                n - 1
            } else if n <= 56 {
                n - 2
            } else {
                n - 3
            },
            forall|t: int|
                0 <= t < map@.len() ==> (#[trigger] map@[t]).0@ == sense_codon(t) && map@[t].1 == 0,
        decreases 64 - n,
    {
        if n != 48 && n != 50 && n != 56 {
            let codon = codon_string(base_at_exec(n / 16), base_at_exec((n / 4) % 4), base_at_exec(n % 4));
            assert(sense_number(map@.len() as int) == n);
            map.push((codon, 0));
        }
        n += 1;
    }
    map
}

/// The characters of `s`, in order.
fn chars_of(s: &String) -> (r: Vec<char>)
    ensures
        r@ == s@,
{
    broadcast use vstd::string::axiom_spec_iter;

    let mut out: Vec<char> = Vec::new();
    for ch in it: s.as_str().chars()
        invariant
            out@ == it.seq().take(it.index() as int),
    {
        out.push(ch);
    }
    out
}

/// The codon usage of a sequence of upper-case letters: for each sense
/// codon, in lexicographic order, how many codon steps read it.
pub fn count_codons(chars: &Vec<char>) -> (r: Vec<usize>)
    ensures
        r@.len() == CODON_SIZE,
        forall|t: int| 0 <= t < CODON_SIZE ==> (#[trigger] r@[t]) == codon_usage(chars@)[t],
{
    let ghost cs = chars@;
    let mut counts: Vec<usize> = Vec::new();
    while counts.len() < CODON_SIZE
        invariant
            counts@.len() <= CODON_SIZE,
            forall|t: int| 0 <= t < counts@.len() ==> #[trigger] counts@[t] == 0,
        decreases CODON_SIZE - counts@.len(),
    {
        counts.push(0);
    }
    if chars.len() < 3 {
        assert(codon_steps(cs.len() as int) <= 0);
        return counts;
    }
    let mut i: usize = 0;
    while i < chars.len() - 3
        invariant
            i % 3 == 0,
            i < chars@.len(),
            chars@ == cs,
            cs.len() >= 3,
            counts@.len() == CODON_SIZE,
            forall|t: int|
                0 <= t < CODON_SIZE ==> #[trigger] counts@[t] == codon_count(cs, t, (i / 3) as int),
            forall|t: int| 0 <= t < CODON_SIZE ==> #[trigger] counts@[t] <= i / 3,
        decreases chars@.len() - i,
    {
        let a = base_index_of(chars[i]);
        let b = base_index_of(chars[i + 1]);
        let c = base_index_of(chars[i + 2]);
        let ghost s: int = (i / 3) as int;
        assert(3 * s == i);
        if a >= 0 && b >= 0 && c >= 0 {
            let n = (16 * a + 4 * b + c) as usize;
            if n != 48 && n != 50 && n != 56 {
                let t = if n < 48 {
                    n
                } else if n < 50 {
                    n - 1
                } else if n < 56 {
                    n - 2
                } else {
                    n - 3
                };
                assert(codon_at(cs, s) == t);
                let v = counts[t] + 1;
                counts.set(t, v);
            } else {
                assert(codon_at(cs, s) == -1);
            }
        } else {
            assert(codon_at(cs, s) == -1);
        }
        i += 3;
        assert(i / 3 == s + 1);
    }
    assert(i / 3 == codon_steps(cs.len() as int)) by (nonlinear_arith)
        requires
            i % 3 == 0,
            cs.len() - 3 <= i < cs.len(),
    ;
    counts
}

/// The codon usage of `seq`, read in upper case; `None` when the upper-case
/// sequence is shorter than one codon.
pub fn make_codon_vec(seq: &str) -> (r: Option<Vec<usize>>)
    ensures
        r is Some <==> upper_of(seq@).len() >= 3,
        r is Some ==> r->Some_0@.len() == CODON_SIZE,
        r is Some ==> forall|t: int|
            0 <= t < CODON_SIZE ==> (#[trigger] r->Some_0@[t]) == codon_usage(upper_of(seq@))[t],
{
    let upper = uppercase(seq);
    let chars = chars_of(&upper);
    if chars.len() < 3 {
        return None;
    }
    Some(count_codons(&chars))
}

} // verus!
