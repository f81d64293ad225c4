//! Three-way comparison, on numbers and on runs of bytes.

use vstd::prelude::*;

verus! {

/// How one value stands to another.
#[derive(Clone, Copy, PartialEq, Eq, Structural, Debug)]
pub enum Rank {
    Less,
    Equal,
    Greater,
}

/// How one number stands to another.
pub open spec fn rank_of(a: int, b: int) -> Rank {
    if a < b {
        Rank::Less
    } else if a == b {
        Rank::Equal
    } else {
        Rank::Greater
    }
}

/// How one run of bytes stands to another, byte by byte, the shorter first
/// where one is the beginning of the other. Text is ordered the same way, by
/// its UTF-8 bytes.
pub open spec fn rank_bytes(a: Seq<u8>, b: Seq<u8>) -> Rank
    decreases a.len(),
{
    if a.len() == 0 || b.len() == 0 {
        rank_of(a.len() as int, b.len() as int)
    } else if a[0] != b[0] {
        rank_of(a[0] as int, b[0] as int)
    } else {
        rank_bytes(a.skip(1), b.skip(1))
    }
}

/// Comparing bytes orders them: the order is total, and only equal runs tie.
pub proof fn lemma_rank_bytes(a: Seq<u8>, b: Seq<u8>, c: Seq<u8>)
    ensures
        rank_bytes(a, a) == Rank::Equal,
        rank_bytes(a, b) == Rank::Equal ==> a == b,
        rank_bytes(a, b) == Rank::Less <==> rank_bytes(b, a) == Rank::Greater,
        rank_bytes(a, b) == Rank::Less && rank_bytes(b, c) == Rank::Less ==> rank_bytes(a, c)
            == Rank::Less,
    decreases a.len(),
{
    if a.len() > 0 {
        let (x, y, z) = (a.skip(1), b.skip(1), c.skip(1));
        lemma_rank_bytes(x, y, z);
        if b.len() > 0 && rank_bytes(a, b) == Rank::Equal {
            assert(a =~= seq![a[0]] + x);
            assert(b =~= seq![b[0]] + y);
        }
    } else if rank_bytes(a, b) == Rank::Equal {
        assert(a =~= b);
    }
}

/// Compare two signed numbers.
pub fn rank_i64(a: i64, b: i64) -> (r: Rank)
    ensures
        r == rank_of(a as int, b as int),
{
    if a < b {
        Rank::Less
    } else if a == b {
        Rank::Equal
    } else {
        Rank::Greater
    }
}

/// Compare an unsigned number with a signed one.
pub fn rank_mixed(a: u64, b: i64) -> (r: Rank)
    ensures
        r == rank_of(a as int, b as int),
{
    if b < 0 {
        Rank::Greater
    } else if a < b as u64 {
        Rank::Less
    } else if a == b as u64 {
        Rank::Equal
    } else {
        Rank::Greater
    }
}

/// Compare two booleans, `false` before `true`.
pub fn rank_bool(a: bool, b: bool) -> (r: Rank)
    ensures
        r == rank_of(if a {
            1
        } else {
            0
        }, if b {
            1
        } else {
            0
        }),
{
    if a == b {
        Rank::Equal
    } else if b {
        Rank::Less
    } else {
        Rank::Greater
    }
}

/// Compare two runs of bytes.
pub fn compare_bytes(a: &[u8], b: &[u8]) -> (r: Rank)
    ensures
        r == rank_bytes(a@, b@),
{
    let mut i: usize = 0;
    assert(a@.skip(0) =~= a@);
    assert(b@.skip(0) =~= b@);
    while i < a.len() && i < b.len()
        invariant
            i <= a@.len(),
            i <= b@.len(),
            rank_bytes(a@, b@) == rank_bytes(a@.skip(i as int), b@.skip(i as int)),
        decreases a@.len() - i,
    {
        assert(a@.skip(i as int)[0] == a@[i as int]);
        assert(b@.skip(i as int)[0] == b@[i as int]);
        if a[i] < b[i] {
            return Rank::Less;
        }
        if a[i] > b[i] {
            return Rank::Greater;
        }
        assert(a@.skip(i as int).skip(1) =~= a@.skip(i + 1));
        assert(b@.skip(i as int).skip(1) =~= b@.skip(i + 1));
        i = i + 1;
    }
    if a.len() < b.len() {
        Rank::Less
    } else if a.len() == b.len() {
        Rank::Equal
    } else {
        Rank::Greater
    }
}

/// Whether two runs of bytes are the same.
pub fn same_bytes(a: &[u8], b: &[u8]) -> (r: bool)
    ensures
        r == (a@ == b@),
{
    if a.len() != b.len() {
        return false;
    }
    let mut i: usize = 0;
    while i < a.len()
        invariant
            a@.len() == b@.len(),
            i <= a@.len(),
            forall|k: int| 0 <= k < i ==> a@[k] == b@[k],
        decreases a@.len() - i,
    {
        if a[i] != b[i] {
            return false;
        }
        i = i + 1;
    }
    assert(a@ =~= b@);
    true
}

/// The UTF-8 bytes of a text.
pub open spec fn utf8(s: Seq<char>) -> Seq<u8> {
    vstd::utf8::encode_utf8(s)
}

/// Two texts with the same UTF-8 bytes are the same text.
pub proof fn lemma_utf8_injective(a: Seq<char>, b: Seq<char>)
    ensures
        utf8(a) == utf8(b) ==> a == b,
{
    vstd::utf8::encode_utf8_decode_utf8(a);
    vstd::utf8::encode_utf8_decode_utf8(b);
}

/// Whether two texts are the same.
pub fn same_text(a: &str, b: &str) -> (r: bool)
    ensures
        r == (a@ == b@),
{
    proof {
        lemma_utf8_injective(a@, b@);
    }
    same_bytes(a.as_bytes(), b.as_bytes())
}

/// Compare two texts.
pub fn compare_text(a: &str, b: &str) -> (r: Rank)
    ensures
        r == rank_bytes(utf8(a@), utf8(b@)),
{
    compare_bytes(a.as_bytes(), b.as_bytes())
}

/// Whether `needle` occurs in `hay` as a contiguous run.
pub open spec fn occurs(hay: Seq<u8>, needle: Seq<u8>) -> bool {
    exists|i: int|
        0 <= i && i + needle.len() <= hay.len() && #[trigger] hay.subrange(i, i + needle.len()) == needle
}

fn matches_at(hay: &[u8], i: usize, needle: &[u8]) -> (r: bool)
    requires
        i + needle@.len() <= hay@.len(),
    ensures
        r == (hay@.subrange(i as int, i + needle@.len()) == needle@),
{
    let end: usize = hay.len();
    let mut k: usize = 0;
    while k < needle.len()
        invariant
            k <= needle@.len(),
            i + needle@.len() <= hay@.len(),
            end == hay@.len(),
            forall|m: int| 0 <= m < k ==> hay@[i + m] == needle@[m],
        decreases needle@.len() - k,
    {
        if hay[i + k] != needle[k] {
            assert(hay@.subrange(i as int, i + needle@.len())[k as int] != needle@[k as int]);
            return false;
        }
        k = k + 1;
    }
    assert(hay@.subrange(i as int, i + needle@.len()) =~= needle@);
    true
}

/// Whether `needle` occurs in `hay`.
pub fn contains_text(hay: &str, needle: &str) -> (r: bool)
    ensures
        r == occurs(utf8(hay@), utf8(needle@)),
{
    let h = hay.as_bytes();
    let n = needle.as_bytes();
    if n.len() > h.len() {
        return false;
    }
    let last: usize = h.len() - n.len();
    let mut i: usize = 0;
    loop
        invariant
            i <= last,
            last + n@.len() == h@.len(),
            forall|k: int| 0 <= k < i ==> #[trigger] h@.subrange(k, k + n@.len()) != n@,
            h@ == utf8(hay@),
            n@ == utf8(needle@),
        decreases last - i,
    {
        if matches_at(h, i, n) {
            assert(h@.subrange(i as int, i + n@.len()) == n@);
            return true;
        }
        if i == last {
            return false;
        }
        i = i + 1;
    }
}

} // verus!
