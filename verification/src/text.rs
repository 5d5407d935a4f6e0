//! Character-sequence utilities shared by the symbol table and the
//! emitter: lexicographic order on names, string building, and decimal
//! rendering of enum discriminant values.

use vstd::prelude::*;

verus! {

/// Lexicographic (code-point) order on character sequences, the order
/// the name-keyed symbol tables and the enum hoisting pass sort by.
pub open spec fn lex_lt(a: Seq<char>, b: Seq<char>) -> bool
    decreases a.len(),
{
    if b.len() == 0 {
        false
    } else if a.len() == 0 {
        true
    } else if a[0] != b[0] {
        (a[0] as u32) < (b[0] as u32)
    } else {
        lex_lt(a.drop_first(), b.drop_first())
    }
}

proof fn lemma_char_code_injective(a: char, b: char)
    requires
        a as u32 == b as u32,
    ensures
        a == b,
{
    assert(a as u32 == a as int);
    assert(b as u32 == b as int);
}

pub proof fn lemma_lex_irreflexive(a: Seq<char>)
    ensures
        !lex_lt(a, a),
    decreases a.len(),
{
    if a.len() > 0 {
        lemma_lex_irreflexive(a.drop_first());
    }
}

/// Exactly one of `lex_lt(a, b)`, `a == b`, `lex_lt(b, a)` holds.
pub proof fn lemma_lex_connected(a: Seq<char>, b: Seq<char>)
    ensures
        !lex_lt(a, b) && !lex_lt(b, a) ==> a == b,
    decreases a.len(),
{
    if !lex_lt(a, b) && !lex_lt(b, a) {
        if a.len() == 0 {
            assert(b.len() == 0);
            assert(a =~= b);
        } else if b.len() == 0 {
            assert(lex_lt(b, a));
        } else if a[0] != b[0] {
            lemma_char_code_injective(a[0], b[0]);
            assert(a[0] == b[0]);
        } else {
            lemma_lex_connected(a.drop_first(), b.drop_first());
            assert(a.drop_first() =~= b.drop_first());
            assert(a.len() == b.len());
            assert forall|i: int| 0 < i < a.len() implies a[i] == b[i] by {
                assert(a[i] == a.drop_first()[i - 1]);
                assert(b[i] == b.drop_first()[i - 1]);
            }
            assert(a =~= b);
        }
    }
}

pub proof fn lemma_lex_transitive(a: Seq<char>, b: Seq<char>, c: Seq<char>)
    ensures
        lex_lt(a, b) && lex_lt(b, c) ==> lex_lt(a, c),
    decreases a.len(),
{
    if a.len() > 0 && b.len() > 0 && c.len() > 0 {
        lemma_lex_transitive(a.drop_first(), b.drop_first(), c.drop_first());
    }
}

/// Compares two strings in lexicographic code-point order.
pub fn str_lt(a: &str, b: &str) -> (r: bool)
    ensures
        r == lex_lt(a@, b@),
{
    let a_len = a.unicode_len();
    let b_len = b.unicode_len();
    let mut i: usize = 0;
    proof {
        assert(a@.skip(0) =~= a@);
        assert(b@.skip(0) =~= b@);
    }
    loop
        invariant
            i <= a_len,
            i <= b_len,
            a_len == a@.len(),
            b_len == b@.len(),
            lex_lt(a@, b@) == lex_lt(a@.skip(i as int), b@.skip(i as int)),
        decreases a_len - i,
    {
        if i == b_len {
            assert(b@.skip(i as int).len() == 0);
            return false;
        }
        if i == a_len {
            assert(a@.skip(i as int).len() == 0);
            return true;
        }
        let ca = a.get_char(i);
        let cb = b.get_char(i);
        proof {
            assert(a@.skip(i as int)[0] == a@[i as int]);
            assert(b@.skip(i as int)[0] == b@[i as int]);
            assert(a@.skip(i as int).drop_first() =~= a@.skip(i + 1));
            assert(b@.skip(i as int).drop_first() =~= b@.skip(i + 1));
        }
        if ca != cb {
            return (ca as u32) < (cb as u32);
        }
        i = i + 1;
    }
}

/// Relies on `alloc::string::String::push`: appends the given character
/// to the end of the string.
pub assume_specification[ String::push ](s: &mut String, c: char)
    ensures
        final(s)@ == old(s)@.push(c),
;

/// The character for one decimal digit.
pub open spec fn dec_digit(d: nat) -> char {
    if d == 0 { '0' }
    else if d == 1 { '1' }
    else if d == 2 { '2' }
    else if d == 3 { '3' }
    else if d == 4 { '4' }
    else if d == 5 { '5' }
    else if d == 6 { '6' }
    else if d == 7 { '7' }
    else if d == 8 { '8' }
    else { '9' }
}

/// The decimal rendering of a number, most significant digit first.
pub open spec fn dec_str(n: nat) -> Seq<char>
    decreases n,
{
    if n < 10 {
        seq![dec_digit(n)]
    } else {
        dec_str(n / 10).push(dec_digit(n % 10))
    }
}

fn dec_digit_exec(d: u32) -> (c: char)
    requires
        d < 10,
    ensures
        c == dec_digit(d as nat),
{
    if d == 0 { '0' }
    else if d == 1 { '1' }
    else if d == 2 { '2' }
    else if d == 3 { '3' }
    else if d == 4 { '4' }
    else if d == 5 { '5' }
    else if d == 6 { '6' }
    else if d == 7 { '7' }
    else if d == 8 { '8' }
    else { '9' }
}

/// Appends the decimal rendering of `v`.
pub fn push_dec(v: u32, out: &mut String)
    ensures
        final(out)@ == old(out)@ + dec_str(v as nat),
    decreases v,
{
    if v < 10 {
        out.push(dec_digit_exec(v));
        proof {
            assert(out@ =~= old(out)@ + dec_str(v as nat));
        }
    } else {
        push_dec(v / 10, out);
        out.push(dec_digit_exec(v % 10));
        proof {
            assert(out@ =~= old(out)@ + dec_str(v as nat));
        }
    }
}

/// First index at which `k` occurs in `keys`, or `-1` when absent.
pub open spec fn find_idx(keys: Seq<Seq<char>>, k: Seq<char>) -> int
    decreases keys.len(),
{
    if keys.len() == 0 {
        -1
    } else if keys[0] == k {
        0
    } else if find_idx(keys.drop_first(), k) == -1 {
        -1
    } else {
        1 + find_idx(keys.drop_first(), k)
    }
}

pub proof fn lemma_find_idx(keys: Seq<Seq<char>>, k: Seq<char>)
    ensures
        find_idx(keys, k) == -1 <==> !keys.contains(k),
        find_idx(keys, k) != -1 ==> 0 <= find_idx(keys, k) < keys.len() && keys[find_idx(keys, k)] == k
            && (forall|j: int| 0 <= j < find_idx(keys, k) ==> keys[j] != k),
    decreases keys.len(),
{
    if keys.len() > 0 {
        lemma_find_idx(keys.drop_first(), k);
        if keys[0] != k {
            assert forall|i: int| 0 <= i < keys.len() && keys[i] == k implies keys.drop_first().contains(k) by {
                assert(keys.drop_first()[i - 1] == keys[i]);
            }
            if keys.drop_first().contains(k) {
                assert(keys.contains(k)) by {
                    let i = choose|i: int| 0 <= i < keys.drop_first().len() && keys.drop_first()[i] == k;
                    assert(keys[i + 1] == k);
                }
            }
            if find_idx(keys, k) != -1 {
                let f = find_idx(keys, k);
                assert(f == 1 + find_idx(keys.drop_first(), k));
                assert forall|j: int| 0 <= j < f implies keys[j] != k by {
                    if j > 0 {
                        assert(keys.drop_first()[j - 1] == keys[j]);
                    }
                }
            }
        }
    }
}


} // verus!
