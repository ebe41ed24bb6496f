//! The display-name comparator: a strict total order over strings that
//! groups names by their leading run of non-alphanumeric characters (the
//! "symbol prefix") and falls back to code-point order within a group.

use core::cmp::Ordering;
use vstd::prelude::*;
use vstd::string::StrSliceExecFns;

verus! {

/// The classification that `char::is_alphanumeric` computes: whether a
/// character is a Unicode letter or digit. The Unicode tables are too
/// large to restate, so the result is only given a name here.
pub uninterp spec fn is_alphanum(c: char) -> bool;

/// Relies on char::is_alphanumeric: Unicode letter-or-digit classification,
/// a function of the character alone.
pub assume_specification[ char::is_alphanumeric ](c: char) -> (r: bool)
    ensures
        r == is_alphanum(c),
;

/// Length of the maximal leading run of non-alphanumeric characters.
pub open spec fn prefix_len(s: Seq<char>) -> nat
    decreases s.len(),
{
    if s.len() == 0 || is_alphanum(s[0]) {
        0
    } else {
        1 + prefix_len(s.drop_first())
    }
}

/// The maximal leading run of non-alphanumeric characters of `s`.
pub open spec fn symbol_prefix(s: Seq<char>) -> Seq<char> {
    s.take(prefix_len(s) as int)
}

/// Lexicographic order on character sequences by code point.
pub open spec fn lex_cmp(a: Seq<char>, b: Seq<char>) -> Ordering
    decreases a.len(),
{
    if a.len() == 0 && b.len() == 0 {
        Ordering::Equal
    } else if a.len() == 0 {
        Ordering::Less
    } else if b.len() == 0 {
        Ordering::Greater
    } else if (a[0] as u32) < (b[0] as u32) {
        Ordering::Less
    } else if (a[0] as u32) > (b[0] as u32) {
        Ordering::Greater
    } else {
        lex_cmp(a.drop_first(), b.drop_first())
    }
}

/// The display-name order: symbol prefixes first, full strings on a tie.
pub open spec fn name_cmp(a: Seq<char>, b: Seq<char>) -> Ordering {
    if lex_cmp(symbol_prefix(a), symbol_prefix(b)) == Ordering::Equal {
        lex_cmp(a, b)
    } else {
        lex_cmp(symbol_prefix(a), symbol_prefix(b))
    }
}

/// The opposite of an ordering outcome.
pub open spec fn flip(o: Ordering) -> Ordering {
    match o {
        Ordering::Less => Ordering::Greater,
        Ordering::Equal => Ordering::Equal,
        Ordering::Greater => Ordering::Less,
    }
}

proof fn lemma_char_cast_injective(c1: char, c2: char)
    requires
        c1 as u32 == c2 as u32,
    ensures
        c1 == c2,
{
}

/// A scan that stops at the first alphanumeric character finds `prefix_len`.
proof fn lemma_prefix_len_from_scan(s: Seq<char>, i: int)
    requires
        0 <= i <= s.len(),
        forall|k: int| 0 <= k < i ==> !is_alphanum(s[k]),
        i < s.len() ==> is_alphanum(s[i]),
    ensures
        prefix_len(s) == i,
    decreases i,
{
    if i == 0 {
    } else {
        assert(!is_alphanum(s[0]));
        lemma_prefix_len_from_scan(s.drop_first(), i - 1);
    }
}

fn chars_of(s: &str) -> (r: Vec<char>)
    ensures
        r@ == s@,
{
    let n = s.unicode_len();
    let mut r: Vec<char> = Vec::new();
    let mut i: usize = 0;
    while i < n
        invariant
            n == s@.len(),
            i <= n,
            r@ == s@.take(i as int),
        decreases n - i,
    {
        r.push(s.get_char(i));
        proof {
            assert(s@.take(i as int).push(s@[i as int]) =~= s@.take(i + 1));
        }
        i += 1;
    }
    proof {
        assert(s@.take(n as int) =~= s@);
    }
    r
}

fn prefix_end(v: &Vec<char>) -> (i: usize)
    ensures
        i == prefix_len(v@),
        i <= v@.len(),
{
    let mut i: usize = 0;
    while i < v.len()
        invariant
            i <= v@.len(),
            forall|k: int| 0 <= k < i ==> !is_alphanum(v@[k]),
        decreases v@.len() - i,
    {
        if v[i].is_alphanumeric() {
            proof {
                lemma_prefix_len_from_scan(v@, i as int);
            }
            return i;
        }
        i += 1;
    }
    proof {
        lemma_prefix_len_from_scan(v@, i as int);
    }
    i
}

fn take_chars(v: &Vec<char>, n: usize) -> (r: Vec<char>)
    requires
        n <= v@.len(),
    ensures
        r@ == v@.take(n as int),
{
    let mut r: Vec<char> = Vec::new();
    let mut i: usize = 0;
    while i < n
        invariant
            i <= n <= v@.len(),
            r@ == v@.take(i as int),
        decreases n - i,
    {
        r.push(v[i]);
        proof {
            assert(v@.take(i as int).push(v@[i as int]) =~= v@.take(i + 1));
        }
        i += 1;
    }
    r
}

fn lex_cmp_chars(a: &Vec<char>, b: &Vec<char>) -> (r: Ordering)
    ensures
        r == lex_cmp(a@, b@),
{
    let mut i: usize = 0;
    proof {
        assert(a@.skip(0) =~= a@);
        assert(b@.skip(0) =~= b@);
    }
    while i < a.len() && i < b.len()
        invariant
            i <= a@.len(),
            i <= b@.len(),
            lex_cmp(a@, b@) == lex_cmp(a@.skip(i as int), b@.skip(i as int)),
        decreases a@.len() - i,
    {
        let ca = a[i];
        let cb = b[i];
        proof {
            assert(a@.skip(i as int)[0] == a@[i as int]);
            assert(b@.skip(i as int)[0] == b@[i as int]);
        }
        if (ca as u32) < (cb as u32) {
            return Ordering::Less;
        }
        if (ca as u32) > (cb as u32) {
            return Ordering::Greater;
        }
        proof {
            assert(a@.skip(i as int).drop_first() =~= a@.skip(i + 1));
            assert(b@.skip(i as int).drop_first() =~= b@.skip(i + 1));
        }
        i += 1;
    }
    proof {
        assert(i == a@.len() || i == b@.len());
    }
    if a.len() == b.len() {
        proof {
            assert(a@.skip(i as int).len() == 0 && b@.skip(i as int).len() == 0);
        }
        Ordering::Equal
    } else if a.len() < b.len() {
        proof {
            assert(a@.skip(i as int).len() == 0 && b@.skip(i as int).len() > 0);
        }
        Ordering::Less
    } else {
        proof {
            assert(b@.skip(i as int).len() == 0 && a@.skip(i as int).len() > 0);
        }
        Ordering::Greater
    }
}

/// Code-point order declares two sequences equal exactly when they are the
/// same sequence.
pub proof fn lemma_lex_cmp_equal_iff(a: Seq<char>, b: Seq<char>)
    ensures
        lex_cmp(a, b) == Ordering::Equal <==> a == b,
    decreases a.len(),
{
    if a.len() == 0 && b.len() == 0 {
        assert(a =~= b);
    } else if a.len() == 0 || b.len() == 0 {
        assert(a != b);
    } else if (a[0] as u32) == (b[0] as u32) {
        lemma_lex_cmp_equal_iff(a.drop_first(), b.drop_first());
        if lex_cmp(a, b) == Ordering::Equal {
            lemma_char_cast_injective(a[0], b[0]);
            assert forall|i: int| 0 <= i < a.len() implies a[i] == b[i] by {
                if i > 0 {
                    assert(a[i] == a.drop_first()[i - 1]);
                    assert(b[i] == b.drop_first()[i - 1]);
                }
            }
            assert(a =~= b);
        }
        if a == b {
            assert(a.drop_first() =~= b.drop_first());
        }
    } else {
        assert(a[0] != b[0]);
        assert(a != b);
    }
}

/// Swapping the arguments of code-point order flips the outcome.
pub proof fn lemma_lex_cmp_flip(a: Seq<char>, b: Seq<char>)
    ensures
        lex_cmp(b, a) == flip(lex_cmp(a, b)),
    decreases a.len(),
{
    if a.len() > 0 && b.len() > 0 && (a[0] as u32) == (b[0] as u32) {
        lemma_lex_cmp_flip(a.drop_first(), b.drop_first());
    }
}

/// Code-point order is transitive.
pub proof fn lemma_lex_cmp_transitive(a: Seq<char>, b: Seq<char>, c: Seq<char>)
    requires
        lex_cmp(a, b) == Ordering::Less,
        lex_cmp(b, c) == Ordering::Less,
    ensures
        lex_cmp(a, c) == Ordering::Less,
    decreases a.len(),
{
    if a.len() == 0 {
        assert(b.len() > 0);
        assert(c.len() > 0);
    } else {
        assert(b.len() > 0);
        assert(c.len() > 0);
        if (a[0] as u32) == (b[0] as u32) && (b[0] as u32) == (c[0] as u32) {
            lemma_lex_cmp_transitive(a.drop_first(), b.drop_first(), c.drop_first());
        }
    }
}

/// Totality: the display-name comparator yields exactly one of the three
/// outcomes for every pair of sequences, with no excluded input.
pub proof fn lemma_name_cmp_total(a: Seq<char>, b: Seq<char>)
    ensures
        name_cmp(a, b) == Ordering::Less || name_cmp(a, b) == Ordering::Equal || name_cmp(
            a,
            b,
        ) == Ordering::Greater,
{
}

/// The comparator declares two names equal exactly when they are the same
/// sequence of characters.
pub proof fn lemma_name_cmp_equal_iff(a: Seq<char>, b: Seq<char>)
    ensures
        name_cmp(a, b) == Ordering::Equal <==> a == b,
{
    lemma_lex_cmp_equal_iff(symbol_prefix(a), symbol_prefix(b));
    lemma_lex_cmp_equal_iff(a, b);
}

/// Antisymmetry: swapping the arguments of the comparator flips the outcome;
/// in particular `less` one way is exactly `greater` the other way.
pub proof fn lemma_name_cmp_antisymmetric(a: Seq<char>, b: Seq<char>)
    ensures
        name_cmp(b, a) == flip(name_cmp(a, b)),
        name_cmp(a, b) == Ordering::Less <==> name_cmp(b, a) == Ordering::Greater,
{
    lemma_lex_cmp_flip(symbol_prefix(a), symbol_prefix(b));
    lemma_lex_cmp_flip(a, b);
}

/// Transitivity of the comparator's strict part.
pub proof fn lemma_name_cmp_transitive(a: Seq<char>, b: Seq<char>, c: Seq<char>)
    requires
        name_cmp(a, b) == Ordering::Less,
        name_cmp(b, c) == Ordering::Less,
    ensures
        name_cmp(a, c) == Ordering::Less,
{
    let pa = symbol_prefix(a);
    let pb = symbol_prefix(b);
    let pc = symbol_prefix(c);
    lemma_lex_cmp_equal_iff(pa, pb);
    lemma_lex_cmp_equal_iff(pb, pc);
    lemma_lex_cmp_equal_iff(pa, pc);
    if lex_cmp(pa, pb) == Ordering::Less && lex_cmp(pb, pc) == Ordering::Less {
        lemma_lex_cmp_transitive(pa, pb, pc);
    } else if lex_cmp(pa, pb) == Ordering::Equal && lex_cmp(pb, pc) == Ordering::Equal {
        lemma_lex_cmp_transitive(a, b, c);
    }
}

/// Transitivity of the comparator's non-strict part.
pub proof fn lemma_name_cmp_le_transitive(a: Seq<char>, b: Seq<char>, c: Seq<char>)
    requires
        name_cmp(a, b) != Ordering::Greater,
        name_cmp(b, c) != Ordering::Greater,
    ensures
        name_cmp(a, c) != Ordering::Greater,
{
    lemma_name_cmp_equal_iff(a, b);
    lemma_name_cmp_equal_iff(b, c);
    if name_cmp(a, b) == Ordering::Less && name_cmp(b, c) == Ordering::Less {
        lemma_name_cmp_transitive(a, b, c);
    }
}

/// Compare two display names: their symbol prefixes first, in code-point
/// order; on a prefix tie, the full names in code-point order.
pub fn modname_cmp(name1: &str, name2: &str) -> (r: Ordering)
    ensures
        r == name_cmp(name1@, name2@),
{
    let v1 = chars_of(name1);
    let v2 = chars_of(name2);
    let p1 = prefix_end(&v1);
    let p2 = prefix_end(&v2);
    let pv1 = take_chars(&v1, p1);
    let pv2 = take_chars(&v2, p2);
    let pc = lex_cmp_chars(&pv1, &pv2);
    match pc {
        Ordering::Equal => lex_cmp_chars(&v1, &v2),
        _ => pc,
    }
}

} // verus!

