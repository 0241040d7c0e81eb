//! Text as sequences of characters: building, ordering, sorting.

use vstd::prelude::*;
use vstd::string::StrSliceExecFns;

verus! {

/// Appends the characters of `text` to `out`.
pub fn push_str(out: &mut Vec<char>, text: &str)
    ensures
        final(out)@ == old(out)@ + text@,
{
    let n = text.unicode_len();
    let mut i: usize = 0;
    while i < n
        invariant
            n == text@.len(),
            i <= n,
            out@ == old(out)@ + text@.take(i as int),
        decreases n - i,
    {
        out.push(text.get_char(i));
        assert(text@.take(i + 1) =~= text@.take(i as int).push(text@[i as int]));
        i += 1;
    }
    assert(text@.take(n as int) =~= text@);
}

/// Appends `c` to `text`.
///
/// Calls `String::push` of std, which puts the character at the end of the
/// string; Verus takes that on trust.
#[verifier::external_body]
fn push_char(text: &mut String, c: char)
    ensures
        final(text)@ == old(text)@.push(c),
{
    text.push(c)
}

/// The string made of `chars`.
pub fn string_of(chars: &Vec<char>) -> (text: String)
    ensures
        text@ == chars@,
{
    let mut text = String::new();
    let mut i: usize = 0;
    while i < chars.len()
        invariant
            i <= chars@.len(),
            text@ == chars@.take(i as int),
        decreases chars@.len() - i,
    {
        push_char(&mut text, chars[i]);
        assert(chars@.take(i + 1) =~= chars@.take(i as int).push(chars@[i as int]));
        i += 1;
    }
    assert(chars@.take(chars@.len() as int) =~= chars@);
    text
}

/// The number `n` written in base ten.
pub open spec fn decimal(n: nat) -> Seq<char>
    decreases n,
{
    if n < 10 {
        seq![digit_char(n)]
    } else {
        decimal(n / 10).push(digit_char(n % 10))
    }
}

/// The digit that stands for `d`, which is less than ten.
pub open spec fn digit_char(d: nat) -> char {
    if d == 0 {
        '0'
    } else if d == 1 {
        '1'
    } else if d == 2 {
        '2'
    } else if d == 3 {
        '3'
    } else if d == 4 {
        '4'
    } else if d == 5 {
        '5'
    } else if d == 6 {
        '6'
    } else if d == 7 {
        '7'
    } else if d == 8 {
        '8'
    } else {
        '9'
    }
}

fn digit_of(d: u8) -> (c: char)
    requires
        d < 10,
    ensures
        c == digit_char(d as nat),
{
    match d {
        0 => '0',
        1 => '1',
        2 => '2',
        3 => '3',
        4 => '4',
        5 => '5',
        6 => '6',
        7 => '7',
        8 => '8',
        _ => '9',
    }
}

/// Appends `n`, written in base ten, to `out`.
pub fn push_decimal(out: &mut Vec<char>, n: u8)
    ensures
        final(out)@ == old(out)@ + decimal(n as nat),
{
    if n >= 100 {
        out.push(digit_of(n / 100));
        out.push(digit_of(n / 10 % 10));
        out.push(digit_of(n % 10));
        proof {
            let m = n as nat;
            assert(decimal(m / 10 / 10) =~= seq![digit_char(m / 100)]);
            assert(decimal(m / 10) =~= seq![digit_char(m / 100), digit_char(m / 10 % 10)]);
            assert(decimal(m) =~= seq![
                digit_char(m / 100),
                digit_char(m / 10 % 10),
                digit_char(m % 10),
            ]);
            assert(out@ =~= old(out)@ + decimal(m));
        }
    } else if n >= 10 {
        out.push(digit_of(n / 10));
        out.push(digit_of(n % 10));
        proof {
            let m = n as nat;
            assert(decimal(m / 10) =~= seq![digit_char(m / 10)]);
            assert(decimal(m) =~= seq![digit_char(m / 10), digit_char(m % 10)]);
            assert(out@ =~= old(out)@ + decimal(m));
        }
    } else {
        out.push(digit_of(n));
        assert(out@ =~= old(out)@ + decimal(n as nat));
    }
}

/// `a` comes no later than `b` when texts are ordered character by
/// character, a beginning before what goes on after it.
pub open spec fn precedes(a: Seq<char>, b: Seq<char>) -> bool
    decreases a.len(),
{
    if a.len() == 0 {
        true
    } else if b.len() == 0 {
        false
    } else if a[0] != b[0] {
        a[0] < b[0]
    } else {
        precedes(a.skip(1), b.skip(1))
    }
}

/// Of two texts one comes no later than the other.
pub proof fn lemma_precedes_total(a: Seq<char>, b: Seq<char>)
    ensures
        precedes(a, b) || precedes(b, a),
    decreases a.len(),
{
    if a.len() > 0 && b.len() > 0 && a[0] == b[0] {
        lemma_precedes_total(a.skip(1), b.skip(1));
    }
}

/// What comes no later than a text comes no later than all that the text
/// comes no later than.
pub proof fn lemma_precedes_transitive(a: Seq<char>, b: Seq<char>, c: Seq<char>)
    requires
        precedes(a, b),
        precedes(b, c),
    ensures
        precedes(a, c),
    decreases a.len(),
{
    if a.len() > 0 && b.len() > 0 && c.len() > 0 && a[0] == b[0] && b[0] == c[0] {
        lemma_precedes_transitive(a.skip(1), b.skip(1), c.skip(1));
    }
}

/// Whether `a` comes no later than `b`.
pub fn comes_first(a: &Vec<char>, b: &Vec<char>) -> (r: bool)
    ensures
        r == precedes(a@, b@),
{
    let mut i: usize = 0;
    assert(a@.skip(0) =~= a@ && b@.skip(0) =~= b@);
    while i < a.len() && i < b.len()
        invariant
            i <= a@.len(),
            i <= b@.len(),
            precedes(a@, b@) == precedes(a@.skip(i as int), b@.skip(i as int)),
        decreases a@.len() - i,
    {
        proof {
            assert(a@.skip(i as int).skip(1) =~= a@.skip(i + 1));
            assert(b@.skip(i as int).skip(1) =~= b@.skip(i + 1));
        }
        if a[i] != b[i] {
            return a[i] < b[i];
        }
        i += 1;
    }
    i == a.len()
}

/// The texts are in order: none comes later than one after it.
pub open spec fn is_sorted(lines: Seq<Seq<char>>) -> bool {
    forall|i: int, j: int| 0 <= i < j < lines.len() ==> precedes(lines[i], lines[j])
}

/// The texts that `lines` hold.
pub open spec fn texts(lines: Seq<Vec<char>>) -> Seq<Seq<char>> {
    Seq::new(lines.len(), |i: int| lines[i]@)
}

/// Puts `line` into `lines`, which are in order, at its place.
pub fn insert_sorted(lines: &mut Vec<Vec<char>>, line: Vec<char>)
    requires
        is_sorted(texts(old(lines)@)),
    ensures
        is_sorted(texts(final(lines)@)),
        texts(final(lines)@).to_multiset() == texts(old(lines)@).to_multiset().insert(line@),
{
    let mut at: usize = 0;
    while at < lines.len() && comes_first(&lines[at], &line)
        invariant
            at <= lines@.len(),
            lines@ == old(lines)@,
            forall|k: int| 0 <= k < at ==> precedes(#[trigger] lines@[k]@, line@),
        decreases lines@.len() - at,
    {
        at += 1;
    }
    let ghost before = texts(lines@);
    lines.insert(at, line);
    proof {
        let after = texts(lines@);
        assert(after =~= before.insert(at as int, line@));
        assert(after.remove(at as int) =~= before);
        vstd::seq_lib::to_multiset_remove(after, at as int);
        after.to_multiset_ensures();
        assert(after.contains(line@)) by {
            assert(after[at as int] == line@);
        }
        assert(after.to_multiset() =~= before.to_multiset().insert(line@));
        assert forall|i: int, j: int| 0 <= i < j < after.len() implies precedes(
            after[i],
            after[j],
        ) by {
            if j == at {
                assert(after[i] == before[i]);
                assert(before[i] == old(lines)@[i]@);
            } else if i == at {
                assert(after[j] == before[j - 1]);
                assert(before[at as int] == old(lines)@[at as int]@);
                lemma_precedes_total(before[at as int], line@);
                if j - 1 > at {
                    lemma_precedes_transitive(line@, before[at as int], before[j - 1]);
                }
            } else {
                let i0 = if i < at { i } else { i - 1 };
                let j0 = if j < at { j } else { j - 1 };
                assert(after[i] == before[i0]);
                assert(after[j] == before[j0]);
            }
        }
    }
}

} // verus!
