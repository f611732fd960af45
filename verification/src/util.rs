//! Hashing of strings and the string-level helpers the chain's rules rest on:
//! decimal rendering of integers and lexicographic comparison of hash strings.

use vstd::prelude::*;
use vstd::string::StrSliceExecFns;
use vstd::string::StringExecFns;

verus! {

broadcast use vstd::string::group_string_axioms;

/// What `sha2::Sha256` followed by `hex::encode` returns on a string's bytes:
/// the 64 lowercase hex digits of the input's SHA-256 digest. The digest is a
/// function of the input characters alone.
pub uninterp spec fn sha256_hex(s: Seq<char>) -> Seq<char>;

/// A lowercase hexadecimal digit.
pub open spec fn is_hex_digit(c: char) -> bool {
    ('0' as int <= c as int && c as int <= '9' as int) || ('a' as int <= c as int && c as int
        <= 'f' as int)
}

/// Relies on `sha2::Sha256::digest` (the 32-byte SHA-256 digest of the input
/// bytes) and `hex::encode` (two lowercase hex digits for each byte, so 64
/// characters in all).
#[verifier::external_body]
fn sha256_hex_exec(s: &str) -> (r: String)
    ensures
        r@ == sha256_hex(s@),
        r@.len() == 64,
        forall|i: int| 0 <= i < r@.len() ==> is_hex_digit(#[trigger] r@[i]),
{
    let digest = <sha2::Sha256 as sha2::Digest>::digest(s.as_bytes());
    hex::encode(digest)
}

/// A full hash string: `0x` followed by the hex-encoded SHA-256 digest of `s`.
pub open spec fn hash_str(s: Seq<char>) -> Seq<char> {
    seq!['0', 'x'] + sha256_hex(s)
}

/// Hash a string: `0x` + hex(SHA-256(utf8 bytes of `raw_string`)).
pub fn hash(raw_string: &String) -> (r: String)
    ensures
        r@ == hash_str(raw_string@),
        r@.len() == 66,
{
    let digest = sha256_hex_exec(raw_string.as_str());
    proof {
        reveal_strlit("0x");
    }
    let mut out = String::from_str("0x");
    out.append(digest.as_str());
    proof {
        assert(out@ =~= hash_str(raw_string@));
    }
    out
}

/// The character for the decimal digit `d`.
pub open spec fn digit_char(d: int) -> char {
    if d == 0 {
        '0'
    } else if d == 1 {
        '1'
    } else if d == 2 {
        '2'
    } else if d == 3 {
        '3'
    } else if d == 4 {
        '4'
    } else if d == 5 {
        '5'
    } else if d == 6 {
        '6'
    } else if d == 7 {
        '7'
    } else if d == 8 {
        '8'
    } else {
        '9'
    }
}

/// The decimal digits of `n`, most significant first, without leading zeros.
pub open spec fn dec_str(n: nat) -> Seq<char>
    decreases n,
{
    if n < 10 {
        seq![digit_char(n as int)]
    } else {
        dec_str(n / 10).push(digit_char((n % 10) as int))
    }
}

fn digit_str(d: u64) -> (r: &'static str)
    requires
        d < 10,
    ensures
        r@ =~= seq![digit_char(d as int)],
{
    proof {
        reveal_strlit("0");
        reveal_strlit("1");
        reveal_strlit("2");
        reveal_strlit("3");
        reveal_strlit("4");
        reveal_strlit("5");
        reveal_strlit("6");
        reveal_strlit("7");
        reveal_strlit("8");
        reveal_strlit("9");
    }
    match d {
        0 => "0",
        1 => "1",
        2 => "2",
        3 => "3",
        4 => "4",
        5 => "5",
        6 => "6",
        7 => "7",
        8 => "8",
        _ => "9",
    }
}

/// Decimal rendering of `n`, as `u64`'s `Display` writes it.
pub fn u64_to_string(n: u64) -> (r: String)
    ensures
        r@ == dec_str(n as nat),
    decreases n,
{
    if n < 10 {
        let r = String::from_str(digit_str(n));
        proof {
            assert(r@ =~= dec_str(n as nat));
        }
        r
    } else {
        let mut r = u64_to_string(n / 10);
        r.append(digit_str(n % 10));
        proof {
            assert(r@ =~= dec_str(n as nat));
        }
        r
    }
}

/// Lexicographic comparison of `a` and `b` from position `i` on: true when the
/// suffix of `a` orders strictly before the suffix of `b`.
pub open spec fn str_lt_from(a: Seq<char>, b: Seq<char>, i: int) -> bool
    decreases b.len() - i,
    when 0 <= i
{
    if i >= b.len() {
        false
    } else if i >= a.len() {
        true
    } else if a[i] != b[i] {
        (a[i] as int) < (b[i] as int)
    } else {
        str_lt_from(a, b, i + 1)
    }
}

/// Strict lexicographic order on strings by character value, the order in
/// which `str`'s own comparison ranks ASCII strings.
pub open spec fn str_lt(a: Seq<char>, b: Seq<char>) -> bool {
    str_lt_from(a, b, 0)
}

/// `a` orders strictly before `b` lexicographically.
pub fn str_less_than(a: &str, b: &str) -> (r: bool)
    ensures
        r == str_lt(a@, b@),
{
    let alen = a.unicode_len();
    let blen = b.unicode_len();
    let mut i: usize = 0;
    loop
        invariant
            i <= alen,
            i <= blen,
            alen == a@.len(),
            blen == b@.len(),
            str_lt(a@, b@) == str_lt_from(a@, b@, i as int),
        decreases blen - i,
    {
        if i >= blen {
            return false;
        }
        if i >= alen {
            return true;
        }
        let ca = a.get_char(i);
        let cb = b.get_char(i);
        if ca as u32 != cb as u32 {
            return (ca as u32) < (cb as u32);
        }
        proof {
            assert(a@[i as int] == b@[i as int]);
        }
        i += 1;
    }
}

proof fn lemma_str_lt_conn(a: Seq<char>, b: Seq<char>, i: int)
    requires
        0 <= i,
    ensures
        str_lt_from(a, b, i) ==> !str_lt_from(b, a, i),
        (!str_lt_from(a, b, i) && !str_lt_from(b, a, i) && i <= a.len() && i <= b.len()) ==> (
        a.len() == b.len() && (forall|j: int| i <= j < a.len() ==> a[j] == b[j])),
    decreases b.len() - i,
{
    if i < b.len() && i < a.len() && a[i] == b[i] {
        lemma_str_lt_conn(a, b, i + 1);
    }
}

/// The comparison is asymmetric, and two strings neither of which orders
/// before the other are equal.
pub proof fn lemma_str_lt_total(a: Seq<char>, b: Seq<char>)
    ensures
        str_lt(a, b) ==> !str_lt(b, a),
        (!str_lt(a, b) && !str_lt(b, a)) ==> a == b,
{
    lemma_str_lt_conn(a, b, 0);
    if !str_lt(a, b) && !str_lt(b, a) {
        assert(a =~= b);
    }
}

} // verus!
