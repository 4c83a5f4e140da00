//! Semantic-version precedence.
//!
//! Precedence is the lexicographic order of a key of integers built from a
//! version: the three release numbers, then `1` for a release or `0` followed
//! by the pre-release identifiers. A numeric identifier is `1`, its length and
//! its digits; any other is `2` and its characters; each identifier ends in
//! `0`, below every character. So releases follow their pre-releases, numeric
//! identifiers compare by value and precede the others, other identifiers
//! compare in character order, and a longer list of equal leading identifiers
//! is the greater. Build metadata does not count.
use vstd::prelude::*;
use vstd::string::*;
use crate::version::SemVer;

verus! {

/// `a` comes strictly before `b` in lexicographic order; a proper prefix
/// comes first.
pub open spec fn lex_lt(a: Seq<u64>, b: Seq<u64>) -> bool
    decreases a.len(),
{
    if a.len() == 0 {
        b.len() > 0
    } else if b.len() == 0 {
        false
    } else if a[0] != b[0] {
        a[0] < b[0]
    } else {
        lex_lt(a.drop_first(), b.drop_first())
    }
}

pub open spec fn is_digit(c: char) -> bool {
    '0' <= c && c <= '9'
}

pub open spec fn all_digits(s: Seq<char>) -> bool {
    forall|i: int| 0 <= i < s.len() ==> is_digit(s[i])
}

/// A character's place in the key: its code point plus one.
pub open spec fn char_code(c: char) -> u64 {
    (c as u32 + 1) as u64
}

pub open spec fn chars_key(s: Seq<char>) -> Seq<u64> {
    s.map_values(|c: char| char_code(c))
}

/// The key of one pre-release identifier.
pub open spec fn ident_key(id: Seq<char>) -> Seq<u64> {
    if all_digits(id) {
        seq![1u64, id.len() as u64] + chars_key(id) + seq![0u64]
    } else {
        seq![2u64] + chars_key(id) + seq![0u64]
    }
}

/// The pieces of `s` between dots; there is always at least one.
pub open spec fn split_dot(s: Seq<char>) -> Seq<Seq<char>>
    decreases s.len(),
{
    if s.len() == 0 {
        seq![Seq::empty()]
    } else {
        let r = split_dot(s.drop_last());
        if s.last() == '.' {
            r.push(Seq::empty())
        } else {
            r.update(r.len() - 1, r.last().push(s.last()))
        }
    }
}

/// The keys of a list of identifiers, one after another.
pub open spec fn ids_key(ids: Seq<Seq<char>>) -> Seq<u64>
    decreases ids.len(),
{
    if ids.len() == 0 {
        Seq::empty()
    } else {
        ids_key(ids.drop_last()) + ident_key(ids.last())
    }
}

/// The key whose lexicographic order is the precedence of versions.
pub open spec fn precedence_key(v: (u64, u64, u64, Seq<char>)) -> Seq<u64> {
    seq![v.0, v.1, v.2] + if v.3.len() == 0 {
        seq![1u64]
    } else {
        seq![0u64] + ids_key(split_dot(v.3))
    }
}

/// `a` has lower precedence than `b`.
pub open spec fn prec_lt(a: (u64, u64, u64, Seq<char>), b: (u64, u64, u64, Seq<char>)) -> bool {
    lex_lt(precedence_key(a), precedence_key(b))
}

/// No sequence comes before itself.
pub proof fn lemma_lex_irreflexive(a: Seq<u64>)
    ensures
        !lex_lt(a, a),
    decreases a.len(),
{
    if a.len() > 0 {
        lemma_lex_irreflexive(a.drop_first());
    }
}

/// Lexicographic order is transitive.
pub proof fn lemma_lex_transitive(a: Seq<u64>, b: Seq<u64>, c: Seq<u64>)
    requires
        lex_lt(a, b),
        lex_lt(b, c),
    ensures
        lex_lt(a, c),
    decreases a.len(),
{
    if a.len() > 0 && a[0] == b[0] && b[0] == c[0] {
        lemma_lex_transitive(a.drop_first(), b.drop_first(), c.drop_first());
    }
}

/// Of two different sequences, one comes first.
pub proof fn lemma_lex_total(a: Seq<u64>, b: Seq<u64>)
    ensures
        a == b || lex_lt(a, b) || lex_lt(b, a),
    decreases a.len(),
{
    if a.len() > 0 && b.len() > 0 && a[0] == b[0] {
        lemma_lex_total(a.drop_first(), b.drop_first());
        if a.drop_first() == b.drop_first() {
            assert forall|i: int| 0 <= i < a.len() implies a[i] == b[i] by {
                if i > 0 {
                    assert(a[i] == a.drop_first()[i - 1]);
                    assert(b[i] == b.drop_first()[i - 1]);
                }
            }
            assert(a =~= b);
        }
    } else if a.len() == 0 && b.len() == 0 {
        assert(a =~= b);
    }
}

/// No sequence comes both before and after another.
pub proof fn lemma_lex_asymmetric(a: Seq<u64>, b: Seq<u64>)
    ensures
        !(lex_lt(a, b) && lex_lt(b, a)),
{
    if lex_lt(a, b) && lex_lt(b, a) {
        lemma_lex_transitive(a, b, a);
        lemma_lex_irreflexive(a);
    }
}

/// Where `b` does not come after `a` and `a` comes before `c`, `b` comes
/// before `c`.
pub proof fn lemma_lex_below(a: Seq<u64>, b: Seq<u64>, c: Seq<u64>)
    requires
        !lex_lt(a, b),
        lex_lt(a, c),
    ensures
        lex_lt(b, c),
        !lex_lt(c, b),
{
    lemma_lex_total(a, b);
    if a != b {
        lemma_lex_transitive(b, a, c);
    }
    lemma_lex_asymmetric(b, c);
}

/// Precedence is a strict order under which two versions either compare or
/// share their key (they differ at most in build metadata).
pub proof fn lemma_precedence_order(
    a: (u64, u64, u64, Seq<char>),
    b: (u64, u64, u64, Seq<char>),
    c: (u64, u64, u64, Seq<char>),
)
    ensures
        !prec_lt(a, a),
        !(prec_lt(a, b) && prec_lt(b, a)),
        prec_lt(a, b) && prec_lt(b, c) ==> prec_lt(a, c),
        prec_lt(a, b) || prec_lt(b, a) || precedence_key(a) == precedence_key(b),
{
    let (ka, kb, kc) = (precedence_key(a), precedence_key(b), precedence_key(c));
    lemma_lex_irreflexive(ka);
    lemma_lex_asymmetric(ka, kb);
    if lex_lt(ka, kb) && lex_lt(kb, kc) {
        lemma_lex_transitive(ka, kb, kc);
    }
    lemma_lex_total(ka, kb);
}

/// Whether `a` comes strictly before `b` in lexicographic order.
pub fn key_lt(a: &Vec<u64>, b: &Vec<u64>) -> (r: bool)
    ensures
        r == lex_lt(a@, b@),
{
    let mut i: usize = 0;
    assert(a@.subrange(0, a@.len() as int) =~= a@);
    assert(b@.subrange(0, b@.len() as int) =~= b@);
    while i < a.len() && i < b.len()
        invariant
            i <= a.len(),
            i <= b.len(),
            lex_lt(a@, b@) == lex_lt(a@.subrange(i as int, a@.len() as int), b@.subrange(i as int, b@.len() as int)),
        decreases a.len() - i,
    {
        let ghost sa = a@.subrange(i as int, a@.len() as int);
        let ghost sb = b@.subrange(i as int, b@.len() as int);
        assert(sa[0] == a@[i as int]);
        assert(sb[0] == b@[i as int]);
        if a[i] != b[i] {
            return a[i] < b[i];
        }
        assert(sa.drop_first() =~= a@.subrange(i as int + 1, a@.len() as int));
        assert(sb.drop_first() =~= b@.subrange(i as int + 1, b@.len() as int));
        i = i + 1;
    }
    a.len() < b.len()
}

/// Appends the key of the identifier `pre[start..end]`.
fn push_ident_key(key: &mut Vec<u64>, pre: &str, start: usize, end: usize)
    requires
        start <= end <= pre@.len(),
    ensures
        final(key)@ == old(key)@ + ident_key(pre@.subrange(start as int, end as int)),
{
    let ghost id = pre@.subrange(start as int, end as int);
    let mut digits = true;
    let mut i: usize = start;
    while i < end
        invariant
            start <= i <= end,
            end <= pre@.len(),
            digits == all_digits(pre@.subrange(start as int, i as int)),
        decreases end - i,
    {
        let c = pre.get_char(i);
        let ghost sub = pre@.subrange(start as int, i as int);
        assert(pre@.subrange(start as int, i as int + 1) =~= sub.push(c));
        assert(forall|j: int| 0 <= j < sub.len() ==> sub.push(c)[j] == sub[j]);
        assert(sub.push(c)[sub.len() as int] == c);
        if !('0' <= c && c <= '9') {
            digits = false;
        }
        i = i + 1;
    }
    let ghost base = key@;
    if digits {
        key.push(1);
        key.push((end - start) as u64);
    } else {
        key.push(2);
    }
    let ghost head = key@;
    i = start;
    while i < end
        invariant
            start <= i <= end,
            end <= pre@.len(),
            key@ == head + chars_key(pre@.subrange(start as int, i as int)),
        decreases end - i,
    {
        let c = pre.get_char(i);
        key.push(c as u32 as u64 + 1);
        assert(pre@.subrange(start as int, i as int + 1) =~= pre@.subrange(start as int, i as int).push(c));
        assert(chars_key(pre@.subrange(start as int, i as int + 1)) =~= chars_key(pre@.subrange(start as int, i as int)).push(char_code(c)));
        assert(key@ =~= head + chars_key(pre@.subrange(start as int, i as int + 1)));
        i = i + 1;
    }
    key.push(0);
    if digits {
        assert(key@ =~= base + (seq![1u64, id.len() as u64] + chars_key(id) + seq![0u64]));
    } else {
        assert(key@ =~= base + (seq![2u64] + chars_key(id) + seq![0u64]));
    }
}

/// One more character extends the last piece, or a dot starts a new one.
proof fn lemma_split_step(s: Seq<char>, i: int)
    requires
        0 <= i < s.len(),
    ensures
        s[i] == '.' ==> split_dot(s.subrange(0, i + 1)) == split_dot(s.subrange(0, i)).push(Seq::empty()),
        s[i] != '.' ==> split_dot(s.subrange(0, i + 1)) == split_dot(s.subrange(0, i)).update(
            split_dot(s.subrange(0, i)).len() - 1,
            split_dot(s.subrange(0, i)).last().push(s[i]),
        ),
{
    let t = s.subrange(0, i + 1);
    assert(t.drop_last() =~= s.subrange(0, i));
    assert(t.last() == s[i]);
}

/// The precedence key of a version.
pub fn precedence_key_of(v: &SemVer) -> (r: Vec<u64>)
    ensures
        r@ == precedence_key(v@),
{
    let mut key: Vec<u64> = Vec::new();
    key.push(v.major);
    key.push(v.minor);
    key.push(v.patch);
    let pre = v.pre.as_str();
    let n = pre.unicode_len();
    if n == 0 {
        key.push(1);
        assert(key@ =~= precedence_key(v@));
        return key;
    }
    key.push(0);
    let ghost head = key@;
    let mut start: usize = 0;
    let mut i: usize = 0;
    let ghost mut ids: Seq<Seq<char>> = Seq::empty();
    assert(pre@.subrange(0, 0) =~= Seq::<char>::empty());
    assert(split_dot(Seq::<char>::empty()) == seq![Seq::<char>::empty()]);
    assert(seq![Seq::<char>::empty()] =~= ids.push(pre@.subrange(0, 0)));
    while i < n
        invariant
            start <= i <= n,
            n == pre@.len(),
            split_dot(pre@.subrange(0, i as int)) == ids.push(pre@.subrange(start as int, i as int)),
            key@ == head + ids_key(ids),
        decreases n - i,
    {
        let c = pre.get_char(i);
        proof {
            lemma_split_step(pre@, i as int);
        }
        if c == '.' {
            let ghost cur = pre@.subrange(start as int, i as int);
            push_ident_key(&mut key, pre, start, i);
            proof {
                assert(ids.push(cur).drop_last() =~= ids);
                ids = ids.push(cur);
                assert(pre@.subrange(i as int + 1, i as int + 1) =~= Seq::<char>::empty());
            }
            start = i + 1;
        } else {
            let ghost cur = pre@.subrange(start as int, i as int);
            assert(cur.push(c) =~= pre@.subrange(start as int, i as int + 1));
            assert(ids.push(cur).update(ids.len() as int, cur.push(c)) =~= ids.push(cur.push(c)));
        }
        i = i + 1;
    }
    let ghost last = pre@.subrange(start as int, n as int);
    push_ident_key(&mut key, pre, start, n);
    proof {
        assert(ids.push(last).drop_last() =~= ids);
        assert(pre@.subrange(0, n as int) =~= pre@);
    }
    assert(key@ =~= precedence_key(v@));
    key
}

/// Whether `a` has lower precedence than `b`.
pub fn precedes(a: &SemVer, b: &SemVer) -> (r: bool)
    ensures
        r == prec_lt(a@, b@),
{
    let ka = precedence_key_of(a);
    let kb = precedence_key_of(b);
    key_lt(&ka, &kb)
}

} // verus!
