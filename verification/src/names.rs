//! Deriving output filenames.
//!
//! The destination name of an attachment is its platform identifier,
//! an underscore, and its original filename.  When the original name is
//! taken from a raw download URL rather than from the platform record,
//! it is the last path segment of the URL with any query string
//! stripped.  All names are byte strings.

use vstd::prelude::*;
use crate::digits::{decimal_digits, decimal_bytes};

verus! {

/// Index of the first occurrence of `b` in `s`, or `s.len()` if absent.
pub open spec fn first_index_of(s: Seq<u8>, b: u8) -> int
    decreases s.len(),
{
    if s.len() == 0 {
        0
    } else if s[0] == b {
        0
    } else {
        1 + first_index_of(s.drop_first(), b)
    }
}

/// Index of the last occurrence of `b` in `s`, or `-1` if absent.
pub open spec fn last_index_of(s: Seq<u8>, b: u8) -> int
    decreases s.len(),
{
    if s.len() == 0 {
        -1
    } else if s.last() == b {
        s.len() - 1
    } else {
        last_index_of(s.drop_last(), b)
    }
}

/// `name` up to (excluding) its first `?` (byte 63); all of it if none.
pub open spec fn stripped_of_query(name: Seq<u8>) -> Seq<u8> {
    name.subrange(0, first_index_of(name, 63))
}

/// The part of `url` after its last `/` (byte 47); all of it if none.
pub open spec fn last_segment_of(url: Seq<u8>) -> Seq<u8> {
    url.subrange(last_index_of(url, 47) + 1, url.len() as int)
}

/// The base filename a raw URL yields: last path segment, query stripped.
pub open spec fn url_base_name(url: Seq<u8>) -> Seq<u8> {
    stripped_of_query(last_segment_of(url))
}

/// The destination name for attachment `id` with original name `name`:
/// decimal id, underscore (byte 95), original name.
pub open spec fn derived_name(id: nat, name: Seq<u8>) -> Seq<u8> {
    decimal_digits(id) + seq![95u8] + name
}

/// The destination names of two attachments with distinct identifiers
/// never collide, whatever their original filenames are: the decimal
/// identifier prefix ends at the first underscore, and digit bytes are
/// never underscores.
pub proof fn lemma_derived_names_distinct(id1: nat, n1: Seq<u8>, id2: nat, n2: Seq<u8>)
    requires
        id1 != id2,
    ensures
        derived_name(id1, n1) != derived_name(id2, n2),
{
    let d1 = decimal_digits(id1);
    let d2 = decimal_digits(id2);
    crate::digits::lemma_decimal_digits_are_digits(id1);
    crate::digits::lemma_decimal_digits_are_digits(id2);
    if derived_name(id1, n1) == derived_name(id2, n2) {
        if d1.len() == d2.len() {
            assert(d1 =~= derived_name(id1, n1).subrange(0, d1.len() as int));
            assert(d2 =~= derived_name(id2, n2).subrange(0, d2.len() as int));
            crate::digits::lemma_decimal_digits_injective(id1, id2);
        } else if d1.len() < d2.len() {
            assert(derived_name(id1, n1)[d1.len() as int] == 95);
            assert(derived_name(id2, n2)[d1.len() as int] == d2[d1.len() as int]);
        } else {
            assert(derived_name(id2, n2)[d2.len() as int] == 95);
            assert(derived_name(id1, n1)[d2.len() as int] == d1[d2.len() as int]);
        }
        assert(false);
    }
}

/// `first_index_of` means what its name says: nothing before it is `b`,
/// and it lands on a `b` unless `b` is absent.
pub proof fn lemma_first_index_of_spec(s: Seq<u8>, b: u8)
    ensures
        0 <= first_index_of(s, b) <= s.len(),
        forall|j: int| 0 <= j < first_index_of(s, b) ==> s[j] != b,
        first_index_of(s, b) < s.len() ==> s[first_index_of(s, b)] == b,
    decreases s.len(),
{
    if s.len() > 0 && s[0] != b {
        lemma_first_index_of_spec(s.drop_first(), b);
        assert forall|j: int| 0 <= j < first_index_of(s, b) implies s[j] != b by {
            if j > 0 {
                assert(s.drop_first()[j - 1] == s[j]);
            }
        }
    }
}

/// `last_index_of` means what its name says: nothing after it is `b`,
/// and it lands on a `b` unless `b` is absent.
pub proof fn lemma_last_index_of_spec(s: Seq<u8>, b: u8)
    ensures
        -1 <= last_index_of(s, b) < s.len(),
        forall|j: int| last_index_of(s, b) < j < s.len() ==> s[j] != b,
        last_index_of(s, b) >= 0 ==> s[last_index_of(s, b)] == b,
    decreases s.len(),
{
    if s.len() > 0 && s.last() != b {
        lemma_last_index_of_spec(s.drop_last(), b);
        assert forall|j: int| last_index_of(s, b) < j < s.len() implies s[j] != b by {
            if j < s.len() - 1 {
                assert(s.drop_last()[j] == s[j]);
            }
        }
    }
}

proof fn lemma_first_index_at(s: Seq<u8>, b: u8, i: int)
    requires
        0 <= i <= s.len(),
        forall|j: int| 0 <= j < i ==> s[j] != b,
        i == s.len() || s[i] == b,
    ensures
        first_index_of(s, b) == i,
    decreases i,
{
    if i == 0 {
    } else {
        lemma_first_index_at(s.drop_first(), b, i - 1);
    }
}

proof fn lemma_last_index_at(s: Seq<u8>, b: u8, i: int)
    requires
        0 <= i <= s.len(),
        forall|j: int| i <= j < s.len() ==> s[j] != b,
        i == 0 || s[i - 1] == b,
    ensures
        last_index_of(s, b) == i - 1,
    decreases s.len(),
{
    if i < s.len() {
        lemma_last_index_at(s.drop_last(), b, i);
    }
}

/// Copies `s[lo..hi]` into a fresh vector.
pub(crate) fn copy_range(s: &Vec<u8>, lo: usize, hi: usize) -> (r: Vec<u8>)
    requires
        lo <= hi <= s.len(),
    ensures
        r@ == s@.subrange(lo as int, hi as int),
{
    let mut r: Vec<u8> = Vec::new();
    let mut j: usize = lo;
    while j < hi
        invariant
            lo <= j <= hi <= s.len(),
            r@ =~= s@.subrange(lo as int, j as int),
        decreases hi - j,
    {
        r.push(s[j]);
        j = j + 1;
        assert(r@ =~= s@.subrange(lo as int, j as int));
    }
    r
}

/// Drops the query string: everything from the first `?` on.
pub fn strip_query(name: &Vec<u8>) -> (r: Vec<u8>)
    ensures
        r@ == stripped_of_query(name@),
{
    let mut i: usize = 0;
    while i < name.len() && name[i] != 63
        invariant
            i <= name.len(),
            forall|j: int| 0 <= j < i ==> name@[j] != 63,
        decreases name.len() - i,
    {
        i = i + 1;
    }
    proof {
        lemma_first_index_at(name@, 63, i as int);
    }
    copy_range(name, 0, i)
}

/// The last `/`-separated segment of `url`; the whole of it if it has
/// no `/`.
pub fn last_segment(url: &Vec<u8>) -> (r: Vec<u8>)
    ensures
        r@ == last_segment_of(url@),
{
    let mut i: usize = url.len();
    while i > 0 && url[i - 1] != 47
        invariant
            i <= url.len(),
            forall|j: int| i <= j < url.len() ==> url@[j] != 47,
        decreases i,
    {
        i = i - 1;
    }
    proof {
        lemma_last_index_at(url@, 47, i as int);
    }
    copy_range(url, i, url.len())
}

/// The base filename a raw URL yields.
pub fn base_name_from_url(url: &Vec<u8>) -> (r: Vec<u8>)
    ensures
        r@ == url_base_name(url@),
{
    let seg = last_segment(url);
    strip_query(&seg)
}

/// The destination name for an attachment: `{id}_{name}`.
pub fn output_name(id: u64, name: &Vec<u8>) -> (r: Vec<u8>)
    ensures
        r@ == derived_name(id as nat, name@),
{
    let mut r = decimal_bytes(id);
    r.push(95);
    let mut j: usize = 0;
    while j < name.len()
        invariant
            j <= name.len(),
            r@ =~= decimal_digits(id as nat) + seq![95u8] + name@.subrange(0, j as int),
        decreases name.len() - j,
    {
        r.push(name[j]);
        j = j + 1;
        assert(r@ =~= decimal_digits(id as nat) + seq![95u8] + name@.subrange(0, j as int));
    }
    assert(name@.subrange(0, name@.len() as int) =~= name@);
    r
}

} // verus!
