use vstd::prelude::*;

verus! {

/// Order on characters by Unicode scalar value, the order in which the
/// store keeps its keys.
pub open spec fn char_lt(a: char, b: char) -> bool {
    (a as int) < (b as int)
}

/// Strict lexicographic order on character sequences.
pub open spec fn lex_lt(a: Seq<char>, b: Seq<char>) -> bool
    decreases a.len(),
{
    if b.len() == 0 {
        false
    } else if a.len() == 0 {
        true
    } else if char_lt(a[0], b[0]) {
        true
    } else if a[0] == b[0] {
        lex_lt(a.skip(1), b.skip(1))
    } else {
        false
    }
}

pub proof fn lemma_lex_irrefl(a: Seq<char>)
    ensures
        !lex_lt(a, a),
    decreases a.len(),
{
    if a.len() > 0 {
        lemma_lex_irrefl(a.skip(1));
    }
}

pub proof fn lemma_lex_trichotomy(a: Seq<char>, b: Seq<char>)
    ensures
        lex_lt(a, b) || lex_lt(b, a) || a == b,
    decreases a.len(),
{
    if a.len() == 0 && b.len() == 0 {
        assert(a =~= b);
    } else if a.len() > 0 && b.len() > 0 {
        if a[0] == b[0] {
            lemma_lex_trichotomy(a.skip(1), b.skip(1));
            if a.skip(1) == b.skip(1) {
                assert(a.skip(1).len() == a.len() - 1);
                assert(b.skip(1).len() == b.len() - 1);
                assert(a.len() == b.len());
                assert forall|j: int| 0 <= j < a.len() implies a[j] == b[j] by {
                    if j > 0 {
                        assert(a[j] == a.skip(1)[j - 1]);
                        assert(b[j] == b.skip(1)[j - 1]);
                    }
                }
                assert(a =~= b);
            }
        } else {
            assert(char_lt(a[0], b[0]) || char_lt(b[0], a[0])) by {
                assert((a[0] as int) != (b[0] as int));
            }
        }
    }
}

pub proof fn lemma_lex_asym(a: Seq<char>, b: Seq<char>)
    requires
        lex_lt(a, b),
    ensures
        !lex_lt(b, a),
        a != b,
    decreases a.len(),
{
    lemma_lex_irrefl(a);
    if a.len() > 0 && b.len() > 0 && a[0] == b[0] {
        lemma_lex_asym(a.skip(1), b.skip(1));
        assert(a[0] == b[0] && a.skip(1) != b.skip(1) ==> a != b) by {
            if a =~= b {
                assert(a.skip(1) =~= b.skip(1));
            }
        }
    }
}

pub proof fn lemma_lex_trans(a: Seq<char>, b: Seq<char>, c: Seq<char>)
    requires
        lex_lt(a, b),
        lex_lt(b, c),
    ensures
        lex_lt(a, c),
    decreases a.len(),
{
    if a.len() > 0 && b.len() > 0 && c.len() > 0 {
        if a[0] == b[0] && b[0] == c[0] {
            lemma_lex_trans(a.skip(1), b.skip(1), c.skip(1));
        }
    }
}

/// Whether `p` is a prefix of `s`.
pub open spec fn has_prefix(s: Seq<char>, p: Seq<char>) -> bool {
    p.len() <= s.len() && s.subrange(0, p.len() as int) == p
}

/// Sequences that share a prefix of length `n` order by their tails.
pub proof fn lemma_lex_skip(a: Seq<char>, b: Seq<char>, n: int)
    requires
        0 <= n <= a.len(),
        n <= b.len(),
        a.subrange(0, n) == b.subrange(0, n),
    ensures
        lex_lt(a, b) == lex_lt(a.skip(n), b.skip(n)),
    decreases n,
{
    if n == 0 {
        assert(a.skip(0) =~= a);
        assert(b.skip(0) =~= b);
    } else {
        assert(a[0] == b[0]) by {
            assert(a.subrange(0, n)[0] == a[0]);
            assert(b.subrange(0, n)[0] == b[0]);
        }
        assert(a.skip(1).subrange(0, n - 1) == b.skip(1).subrange(0, n - 1)) by {
            assert(a.skip(1).subrange(0, n - 1) =~= a.subrange(0, n).skip(1));
            assert(b.skip(1).subrange(0, n - 1) =~= b.subrange(0, n).skip(1));
        }
        lemma_lex_skip(a.skip(1), b.skip(1), n - 1);
        assert(a.skip(1).skip(n - 1) =~= a.skip(n));
        assert(b.skip(1).skip(n - 1) =~= b.skip(n));
        assert(a.len() > 0 && b.len() > 0 && a[0] == b[0]);
    }
}

/// Compares two strings in lexicographic character order: negative, zero or
/// positive as `a` sorts before, equal to or after `b`.
pub fn str_cmp(a: &str, b: &str) -> (c: i32)
    ensures
        c == -1 <==> lex_lt(a@, b@),
        c == 0 <==> a@ == b@,
        c == 1 <==> lex_lt(b@, a@),
{
    let a_len = a.unicode_len();
    let b_len = b.unicode_len();
    let mut i: usize = 0;
    loop
        invariant
            i <= a_len,
            i <= b_len,
            a_len == a@.len(),
            b_len == b@.len(),
            a@.subrange(0, i as int) == b@.subrange(0, i as int),
        decreases a_len - i,
    {
        proof {
            lemma_lex_skip(a@, b@, i as int);
            lemma_lex_skip(b@, a@, i as int);
        }
        if i == a_len && i == b_len {
            proof {
                assert(a@ =~= b@) by {
                    assert(forall|j: int|
                        0 <= j < i ==> #[trigger] a@[j] == a@.subrange(0, i as int)[j]
                            && b@[j] == b@.subrange(0, i as int)[j]);
                }
            }
            return 0;
        }
        if i == a_len {
            // `a` is a strict prefix of `b`
            assert(lex_lt(a@, b@));
            proof {
                lemma_lex_asym(a@, b@);
            }
            return -1;
        }
        if i == b_len {
            assert(lex_lt(b@, a@));
            proof {
                lemma_lex_asym(b@, a@);
            }
            return 1;
        }
        let ca = a.get_char(i);
        let cb = b.get_char(i);
        if ca != cb {
            assert(a@.skip(i as int)[0] == ca && b@.skip(i as int)[0] == cb);
            if (ca as u32) < (cb as u32) {
                assert(lex_lt(a@, b@));
                proof {
                    lemma_lex_asym(a@, b@);
                }
                return -1;
            } else {
                assert(lex_lt(b@, a@));
                proof {
                    lemma_lex_asym(b@, a@);
                }
                return 1;
            }
        }
        proof {
            assert(a@.subrange(0, i + 1 as int) =~= b@.subrange(0, i + 1 as int)) by {
                assert(forall|j: int|
                    0 <= j < i ==> #[trigger] a@.subrange(0, i as int)[j] == b@.subrange(
                        0,
                        i as int,
                    )[j]);
                assert(forall|j: int|
                    0 <= j < i ==> a@[j] == b@[j]) by {
                    assert(forall|j: int|
                        0 <= j < i ==> #[trigger] a@[j] == a@.subrange(0, i as int)[j]
                            && b@[j] == b@.subrange(0, i as int)[j]);
                }
            }
        }
        i = i + 1;
    }
}

/// Whether the two strings hold the same characters.
pub fn str_eq(a: &str, b: &str) -> (r: bool)
    ensures
        r == (a@ == b@),
{
    str_cmp(a, b) == 0
}

/// Whether `a` sorts strictly before `b`.
pub fn str_lt(a: &str, b: &str) -> (r: bool)
    ensures
        r == lex_lt(a@, b@),
{
    str_cmp(a, b) == -1
}

/// Whether `p` is a prefix of `s`.
pub fn str_has_prefix(s: &str, p: &str) -> (r: bool)
    ensures
        r == has_prefix(s@, p@),
{
    let s_len = s.unicode_len();
    let p_len = p.unicode_len();
    if p_len > s_len {
        return false;
    }
    let head = s.substring_char(0, p_len);
    str_eq(head, p)
}

/// Removes the prefix `p` from `s`; `None` when `p` is not a prefix.
pub fn str_strip_prefix(s: &str, p: &str) -> (r: Option<String>)
    ensures
        match r {
            Some(t) => has_prefix(s@, p@) && t@ == s@.skip(p@.len() as int),
            None => !has_prefix(s@, p@),
        },
{
    if str_has_prefix(s, p) {
        let s_len = s.unicode_len();
        let p_len = p.unicode_len();
        let tail = s.substring_char(p_len, s_len);
        proof {
            assert(tail@ =~= s@.skip(p@.len() as int));
        }
        Some(tail.to_owned())
    } else {
        None
    }
}

/// A concatenation begins with its first part.
pub proof fn lemma_prefix_of_concat(a: Seq<char>, b: Seq<char>)
    ensures
        has_prefix(a + b, a),
{
    assert((a + b).subrange(0, a.len() as int) =~= a);
}

/// Prefixes chain: a prefix of a prefix is a prefix.
pub proof fn lemma_has_prefix_trans(k: Seq<char>, a: Seq<char>, b: Seq<char>)
    requires
        has_prefix(k, a),
        has_prefix(a, b),
    ensures
        has_prefix(k, b),
{
    assert(k.subrange(0, b.len() as int) =~= b) by {
        assert(forall|i: int|
            0 <= i < a.len() ==> #[trigger] k[i] == k.subrange(0, a.len() as int)[i]);
        assert(forall|i: int|
            0 <= i < b.len() ==> #[trigger] a[i] == a.subrange(0, b.len() as int)[i]);
    }
}

/// A sequence splits into any of its prefixes and the rest.
pub proof fn lemma_prefix_decompose(s: Seq<char>, p: Seq<char>)
    requires
        has_prefix(s, p),
    ensures
        s == p + s.skip(p.len() as int),
{
    assert(s =~= p + s.skip(p.len() as int)) by {
        assert(forall|i: int|
            0 <= i < p.len() ==> #[trigger] s[i] == s.subrange(0, p.len() as int)[i]);
    }
}

/// The view of the separator literal is the one-character sequence `/`.
pub proof fn reveal_slash()
    ensures
        "/"@ == seq!['/'],
{
    reveal_strlit("/");
    assert("/"@ =~= seq!['/']);
}

/// The decimal digit character for `d`.
pub open spec fn digit_char(d: nat) -> char {
    ((d + 48) as u8) as char
}

/// The decimal representation of `n`, without leading zeros.
pub open spec fn dec_str(n: nat) -> Seq<char>
    decreases n,
{
    if n < 10 {
        seq![digit_char(n)]
    } else {
        dec_str(n / 10).push(digit_char(n % 10))
    }
}

fn digit_str(d: u64) -> (s: &'static str)
    requires
        d < 10,
    ensures
        s@ =~= seq![digit_char(d as nat)],
{
    proof {
        reveal_strlit("0");
        reveal_strlit("1");
        reveal_strlit("2");
        reveal_strlit("3");
        reveal_strlit("4");
        reveal_strlit("5");
        reveal_strlit("6");
        reveal_strlit("7");
        reveal_strlit("8");
        reveal_strlit("9");
    }
    match d {
        0 => "0",
        1 => "1",
        2 => "2",
        3 => "3",
        4 => "4",
        5 => "5",
        6 => "6",
        7 => "7",
        8 => "8",
        _ => "9",
    }
}

/// Renders `n` in decimal, as block heights and epochs appear inside keys.
pub fn u64_to_string(n: u64) -> (s: String)
    ensures
        s@ =~= dec_str(n as nat),
    decreases n,
{
    if n < 10 {
        digit_str(n).to_owned()
    } else {
        let mut s = u64_to_string(n / 10);
        s.append(digit_str(n % 10));
        proof {
            assert(dec_str((n / 10) as nat).push(digit_char((n % 10) as nat)) =~= dec_str(
                (n / 10) as nat,
            ) + seq![digit_char((n % 10) as nat)]);
        }
        s
    }
}

/// Every character of a decimal rendering is a digit; in particular it is
/// never the `/` separator of composed keys.
pub proof fn lemma_dec_str_digits(n: nat)
    ensures
        dec_str(n).len() >= 1,
        forall|i: int|
            0 <= i < dec_str(n).len() ==> 48 <= (#[trigger] dec_str(n)[i]) as u32 <= 57,
    decreases n,
{
    if n >= 10 {
        lemma_dec_str_digits(n / 10);
    }
}

} // verus!
