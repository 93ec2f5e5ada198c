//! Bounded-length bounds for text and binary values.
//!
//! A minimum or maximum of a text or binary column may be arbitrarily long.
//! The statistics keep at most [`BINARY_PREFIX_LENGTH`] bytes of it, chosen so
//! that what is kept is still a lower bound (for a minimum) or an upper bound
//! (for a maximum) of every value of the chunk.

use vstd::prelude::*;

verus! {

/// Max number of bytes that are included in statistics for text and binary
/// columns.
pub const BINARY_PREFIX_LENGTH: usize = 16;

/// `a` comes strictly before `b` in the lexicographic order of byte strings:
/// at the first place where they part, `a` has ended or holds the smaller byte.
pub open spec fn lex_lt(a: Seq<u8>, b: Seq<u8>) -> bool {
    exists|k: int|
        0 <= k <= a.len() && k <= b.len() && #[trigger] a.take(k) == b.take(k) && ((k == a.len()
            && k < b.len()) || (k < a.len() && k < b.len() && a[k] < b[k]))
}

/// `a` is `b` or comes before it in the lexicographic order.
pub open spec fn lex_le(a: Seq<u8>, b: Seq<u8>) -> bool {
    a == b || lex_lt(a, b)
}

/// A byte that continues a multi-byte character of UTF-8 text.
pub open spec fn is_continuation(b: u8) -> bool {
    128 <= b < 192
}

/// A character of UTF-8 text starts at offset `i` of `bytes`, or the text
/// ends there.
pub open spec fn is_char_boundary(bytes: Seq<u8>, i: int) -> bool {
    i == 0 || i == bytes.len() || (0 < i < bytes.len() && !is_continuation(bytes[i]))
}

/// The last character boundary of `bytes` at or below offset `i`.
pub open spec fn boundary_at_or_below(bytes: Seq<u8>, i: int) -> int
    decreases i,
{
    if i <= 0 || is_char_boundary(bytes, i) {
        i
    } else {
        boundary_at_or_below(bytes, i - 1)
    }
}

/// How many leading bytes of a value the statistics keep: all of a value
/// within the budget; else the budget, for text lowered to the nearest
/// character boundary.
pub open spec fn prefix_length(bytes: Seq<u8>, text: bool) -> int {
    if bytes.len() <= BINARY_PREFIX_LENGTH {
        bytes.len() as int
    } else if text {
        boundary_at_or_below(bytes, BINARY_PREFIX_LENGTH as int)
    } else {
        BINARY_PREFIX_LENGTH as int
    }
}

/// The byte at offset `i` can be raised by one to give a greater value of
/// the same kind that ends there. In a binary value any byte below 0xFF can.
/// In text the last byte of a character can, unless it is the greatest such
/// byte: a one-byte character below 0x7F, or a last continuation byte below
/// 0xBF, whose successor continues the same leading bytes.
pub open spec fn raisable(bytes: Seq<u8>, i: int, text: bool) -> bool {
    if text {
        is_char_boundary(bytes, i + 1) && (bytes[i] < 127 || 128 <= bytes[i] < 191)
    } else {
        bytes[i] < 255
    }
}

/// The shortest successor of the first `n` bytes: the bytes up to the last
/// raisable byte among them, with that byte raised by one. None if none of
/// them is raisable.
pub open spec fn successor(bytes: Seq<u8>, n: int, text: bool) -> Option<Seq<u8>>
    decreases n,
{
    if n <= 0 {
        None
    } else if raisable(bytes, n - 1, text) {
        Some(bytes.take(n - 1).push((bytes[n - 1] + 1) as u8))
    } else {
        successor(bytes, n - 1, text)
    }
}

/// The lower bound kept for a minimum `bytes`.
pub open spec fn truncated_min(bytes: Seq<u8>, text: bool) -> Seq<u8> {
    bytes.take(prefix_length(bytes, text))
}

/// The upper bound kept for a maximum `bytes`, if there is one.
pub open spec fn truncated_max(bytes: Seq<u8>, text: bool) -> Option<Seq<u8>> {
    if bytes.len() <= BINARY_PREFIX_LENGTH {
        Some(bytes)
    } else {
        successor(bytes, prefix_length(bytes, text), text)
    }
}

/// The view of an optional byte string.
pub open spec fn opt_bytes(v: Option<Vec<u8>>) -> Option<Seq<u8>> {
    match v {
        Some(b) => Some(b@),
        None => None,
    }
}

/// The lexicographic order is transitive.
pub proof fn lemma_lex_lt_transitive(a: Seq<u8>, b: Seq<u8>, c: Seq<u8>)
    requires
        lex_lt(a, b),
        lex_lt(b, c),
    ensures
        lex_lt(a, c),
{
    let k1 = choose|k: int|
        0 <= k <= a.len() && k <= b.len() && #[trigger] a.take(k) == b.take(k) && ((k == a.len()
            && k < b.len()) || (k < a.len() && k < b.len() && a[k] < b[k]));
    let k2 = choose|k: int|
        0 <= k <= b.len() && k <= c.len() && #[trigger] b.take(k) == c.take(k) && ((k == b.len()
            && k < c.len()) || (k < b.len() && k < c.len() && b[k] < c[k]));
    let k = if k1 <= k2 { k1 } else { k2 };
    assert forall|i: int| 0 <= i < k implies a[i] == c[i] by {
        assert(a.take(k1)[i] == b.take(k1)[i]);
        assert(b.take(k2)[i] == c.take(k2)[i]);
    }
    assert(a.take(k) =~= c.take(k));
    if k1 < k2 {
        assert(b.take(k2)[k1] == c.take(k2)[k1]);
    } else if k2 < k1 {
        assert(a.take(k1)[k2] == b.take(k1)[k2]);
    }
}

/// No byte string comes before itself.
pub proof fn lemma_lex_lt_irreflexive(a: Seq<u8>)
    ensures
        !lex_lt(a, a),
{
}

/// Any two byte strings are equal or ordered one way.
pub proof fn lemma_lex_total(a: Seq<u8>, b: Seq<u8>)
    ensures
        a == b || lex_lt(a, b) || lex_lt(b, a),
{
    assert(a.take(0) =~= b.take(0));
    lemma_common_prefix(a, b, 0);
}

/// Two byte strings that agree on their first `i` bytes are equal or ordered
/// one way.
proof fn lemma_common_prefix(a: Seq<u8>, b: Seq<u8>, i: int)
    requires
        0 <= i <= a.len(),
        i <= b.len(),
        a.take(i) == b.take(i),
    ensures
        a == b || lex_lt(a, b) || lex_lt(b, a),
    decreases a.len() - i,
{
    if i == a.len() || i == b.len() {
        if a.len() == b.len() {
            assert(a.take(i) =~= a);
            assert(b.take(i) =~= b);
        } else if i == a.len() {
            assert(lex_lt(a, b));
        } else {
            assert(b.take(i) == a.take(i));
            assert(lex_lt(b, a));
        }
    } else if a[i] < b[i] {
        assert(lex_lt(a, b));
    } else if b[i] < a[i] {
        assert(b.take(i) == a.take(i));
        assert(lex_lt(b, a));
    } else {
        assert(a.take(i + 1) =~= a.take(i).push(a[i]));
        assert(b.take(i + 1) =~= b.take(i).push(b[i]));
        lemma_common_prefix(a, b, i + 1);
    }
}

/// A proper prefix of a byte string comes before it.
pub proof fn lemma_prefix_is_lower(bytes: Seq<u8>, n: int)
    requires
        0 <= n <= bytes.len(),
    ensures
        lex_le(bytes.take(n), bytes),
{
    let p = bytes.take(n);
    if n == bytes.len() {
        assert(p =~= bytes);
    } else {
        assert(p.take(n) =~= bytes.take(n));
    }
}

/// The offset that `boundary_at_or_below` gives is a character boundary, and
/// the last one at or below `i`.
pub proof fn lemma_boundary_at_or_below(bytes: Seq<u8>, i: int)
    requires
        0 <= i <= bytes.len(),
    ensures
        0 <= boundary_at_or_below(bytes, i) <= i,
        is_char_boundary(bytes, boundary_at_or_below(bytes, i)),
        forall|j: int| boundary_at_or_below(bytes, i) < j <= i ==> !is_char_boundary(bytes, j),
    decreases i,
{
    if i <= 0 || is_char_boundary(bytes, i) {
    } else {
        lemma_boundary_at_or_below(bytes, i - 1);
    }
}

/// A successor of the first `n` bytes comes after `bytes`, is no longer than
/// `n`, and ends with the raised byte; there is none only if none of the
/// first `n` bytes is raisable.
pub proof fn lemma_successor(bytes: Seq<u8>, n: int, text: bool)
    requires
        0 <= n < bytes.len(),
    ensures
        match successor(bytes, n, text) {
            Some(s) => {
                &&& lex_lt(bytes, s)
                &&& 0 < s.len() <= n
                &&& bytes.take(s.len() - 1) == s.take(s.len() - 1)
                &&& raisable(bytes, s.len() - 1, text)
                &&& s[s.len() - 1] == bytes[s.len() - 1] + 1
            },
            None => forall|i: int| 0 <= i < n ==> !raisable(bytes, i, text),
        },
    decreases n,
{
    if n <= 0 {
    } else if raisable(bytes, n - 1, text) {
        let s = bytes.take(n - 1).push((bytes[n - 1] + 1) as u8);
        assert(s.take(n - 1) =~= bytes.take(n - 1));
        assert(s[n - 1] > bytes[n - 1]);
    } else {
        lemma_successor(bytes, n - 1, text);
    }
}

/// A value within the budget is its own lower and upper bound.
pub proof fn lemma_short_value_kept(bytes: Seq<u8>, text: bool)
    requires
        bytes.len() <= BINARY_PREFIX_LENGTH,
    ensures
        truncated_min(bytes, text) == bytes,
        truncated_max(bytes, text) == Some(bytes),
{
    assert(bytes.take(bytes.len() as int) =~= bytes);
}

/// What is kept of a minimum is within the budget and is a lower bound of it.
pub proof fn lemma_truncated_min_is_lower_bound(bytes: Seq<u8>, text: bool)
    ensures
        truncated_min(bytes, text).len() <= BINARY_PREFIX_LENGTH,
        lex_le(truncated_min(bytes, text), bytes),
{
    if bytes.len() > BINARY_PREFIX_LENGTH {
        lemma_boundary_at_or_below(bytes, BINARY_PREFIX_LENGTH as int);
    }
    lemma_prefix_is_lower(bytes, prefix_length(bytes, text));
}

/// What is kept of a maximum over the budget is within the budget and comes
/// strictly after it; nothing is kept exactly if no byte of its prefix can be
/// raised.
pub proof fn lemma_truncated_max_is_upper_bound(bytes: Seq<u8>, text: bool)
    requires
        bytes.len() > BINARY_PREFIX_LENGTH,
    ensures
        match truncated_max(bytes, text) {
            Some(s) => s.len() <= BINARY_PREFIX_LENGTH && lex_lt(bytes, s),
            None => forall|i: int|
                0 <= i < prefix_length(bytes, text) ==> !raisable(bytes, i, text),
        },
{
    lemma_boundary_at_or_below(bytes, BINARY_PREFIX_LENGTH as int);
    lemma_successor(bytes, prefix_length(bytes, text), text);
}

/// Text is cut only where a character starts or the text ends: the length of
/// what is kept of a minimum is a character boundary of the value, and so is
/// the length of what is kept of a maximum. The kept maximum of a value over
/// the budget is the value up to the start of a character, and then that
/// character with its last byte raised.
pub proof fn lemma_text_cut_at_char_boundary(bytes: Seq<u8>)
    ensures
        is_char_boundary(bytes, truncated_min(bytes, true).len() as int),
        match truncated_max(bytes, true) {
            Some(s) => is_char_boundary(bytes, s.len() as int) && (bytes.len()
                > BINARY_PREFIX_LENGTH ==> s.len() > 0 && s.take(s.len() - 1) == bytes.take(
                s.len() - 1,
            ) && is_continuation(s.last()) == is_continuation(bytes[s.len() - 1])),
            None => true,
        },
{
    if bytes.len() > BINARY_PREFIX_LENGTH {
        lemma_boundary_at_or_below(bytes, BINARY_PREFIX_LENGTH as int);
        lemma_successor(bytes, prefix_length(bytes, true), true);
    }
}

/// Whether `a` comes strictly before `b` in the lexicographic order.
pub fn bytes_less(a: &Vec<u8>, b: &Vec<u8>) -> (less: bool)
    ensures
        less == lex_lt(a@, b@),
{
    let mut i: usize = 0;
    while i < a.len() && i < b.len() && a[i] == b[i]
        invariant
            i <= a.len(),
            i <= b.len(),
            a@.take(i as int) =~= b@.take(i as int),
        decreases a.len() - i,
    {
        assert(a@.take(i + 1) =~= a@.take(i as int).push(a@[i as int]));
        assert(b@.take(i + 1) =~= b@.take(i as int).push(b@[i as int]));
        i += 1;
    }
    let less = if i == a.len() {
        i < b.len()
    } else if i == b.len() {
        false
    } else {
        a[i] < b[i]
    };
    proof {
        if !less {
            assert forall|k: int|
                0 <= k <= a@.len() && k <= b@.len() && #[trigger] a@.take(k) == b@.take(k)
                implies !((k == a@.len() && k < b@.len()) || (k < a@.len() && k < b@.len()
                && a@[k] < b@[k])) by {
                if k < i {
                    assert(a@.take(i as int)[k] == b@.take(i as int)[k]);
                } else if k > i {
                    assert(a@.take(k)[i as int] == b@.take(k)[i as int]);
                }
            }
        }
    }
    less
}

/// The first `n` bytes of `value`.
fn copy_prefix(value: &Vec<u8>, n: usize) -> (prefix: Vec<u8>)
    requires
        n <= value.len(),
    ensures
        prefix@ == value@.take(n as int),
{
    let mut prefix: Vec<u8> = Vec::new();
    let mut i: usize = 0;
    while i < n
        invariant
            i <= n <= value.len(),
            prefix@ =~= value@.take(i as int),
        decreases n - i,
    {
        prefix.push(value[i]);
        i += 1;
    }
    prefix
}

/// How many leading bytes of `value` the statistics keep.
pub fn truncation_point(value: &Vec<u8>, text: bool) -> (n: usize)
    ensures
        n == prefix_length(value@, text),
        n <= value.len(),
        n <= BINARY_PREFIX_LENGTH,
{
    if value.len() <= BINARY_PREFIX_LENGTH {
        return value.len();
    }
    let mut n: usize = BINARY_PREFIX_LENGTH;
    if text {
        while n > 0 && 128 <= value[n] && value[n] < 192
            invariant
                n <= BINARY_PREFIX_LENGTH < value.len(),
                boundary_at_or_below(value@, BINARY_PREFIX_LENGTH as int) == boundary_at_or_below(
                    value@,
                    n as int,
                ),
            decreases n,
        {
            n -= 1;
        }
        proof {
            lemma_boundary_at_or_below(value@, BINARY_PREFIX_LENGTH as int);
        }
    }
    n
}

/// Whether the byte at offset `i` of `value` can be raised by one.
fn can_raise(value: &Vec<u8>, i: usize, text: bool) -> (yes: bool)
    requires
        i + 1 < value.len(),
    ensures
        yes == raisable(value@, i as int, text),
{
    let byte = value[i];
    if text {
        let next = value[i + 1];
        !(128 <= next && next < 192) && (byte < 127 || (128 <= byte && byte < 191))
    } else {
        byte < 255
    }
}

/// The lower bound kept for the minimum `value` of a text or binary chunk:
/// the value itself if it is within the budget, else its longest prefix
/// within the budget that, for text, ends at a character boundary.
pub fn truncate_min(value: &Vec<u8>, text: bool) -> (bound: Vec<u8>)
    ensures
        bound@ == truncated_min(value@, text),
{
    let n = truncation_point(value, text);
    copy_prefix(value, n)
}

/// The upper bound kept for the maximum `value` of a text or binary chunk:
/// the value itself if it is within the budget, else the successor of its
/// kept prefix, or nothing where the prefix has no successor.
pub fn truncate_max(value: &Vec<u8>, text: bool) -> (bound: Option<Vec<u8>>)
    ensures
        opt_bytes(bound) == truncated_max(value@, text),
{
    let n = truncation_point(value, text);
    if value.len() <= BINARY_PREFIX_LENGTH {
        proof {
            lemma_short_value_kept(value@, text);
        }
        return Some(copy_prefix(value, n));
    }
    let mut end: usize = n;
    while end > 0 && !can_raise(value, end - 1, text)
        invariant
            end <= n < value@.len(),
            successor(value@, n as int, text) == successor(value@, end as int, text),
        decreases end,
    {
        end -= 1;
    }
    if end == 0 {
        None
    } else {
        let mut bound = copy_prefix(value, end - 1);
        bound.push(value[end - 1] + 1);
        Some(bound)
    }
}

} // verus!
