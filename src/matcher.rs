//! Search of a delimiter in a byte buffer that grows chunk by chunk.
use vstd::prelude::*;

verus! {

/// `needle` stands in `hay` starting at index `i`.
pub open spec fn occurs_at(hay: Seq<u8>, needle: Seq<u8>, i: int) -> bool {
    0 <= i && i + needle.len() <= hay.len() && hay.subrange(i, i + needle.len()) == needle
}

/// The first index at or after `from` where `needle` stands in `hay`.
pub open spec fn first_match(hay: Seq<u8>, needle: Seq<u8>, from: int) -> Option<int>
    decreases hay.len() - from,
{
    if from < 0 || from >= hay.len() || from + needle.len() > hay.len() {
        None
    } else if occurs_at(hay, needle, from) {
        Some(from)
    } else {
        first_match(hay, needle, from + 1)
    }
}

/// What `first_match` returns is a match, and no earlier one follows `from`.
pub proof fn lemma_first_match(hay: Seq<u8>, needle: Seq<u8>, from: int)
    requires
        0 <= from,
        needle.len() > 0,
    ensures
        match first_match(hay, needle, from) {
            Some(i) => from <= i && occurs_at(hay, needle, i) && forall|j: int|
                from <= j < i ==> !#[trigger] occurs_at(hay, needle, j),
            None => forall|j: int| from <= j ==> !#[trigger] occurs_at(hay, needle, j),
        },
    decreases hay.len() - from,
{
    if from >= hay.len() || from + needle.len() > hay.len() {
    } else if occurs_at(hay, needle, from) {
    } else {
        lemma_first_match(hay, needle, from + 1);
    }
}

/// A match that lies wholly inside `buf` is unchanged by bytes appended after it.
pub proof fn lemma_occurs_prefix(buf: Seq<u8>, more: Seq<u8>, needle: Seq<u8>, j: int)
    requires
        0 <= j,
        j + needle.len() <= buf.len(),
    ensures
        occurs_at(buf + more, needle, j) == occurs_at(buf, needle, j),
{
    assert((buf + more).subrange(j, j + needle.len()) =~= buf.subrange(j, j + needle.len()));
}

/// Searching a buffer agrees with searching it once more bytes have arrived:
/// a delimiter found in the buffer is also the first one after `from` in every
/// extension of it, and where none is found, no delimiter of any extension
/// starts before the buffer's last `needle.len() - 1` bytes. So the bytes before
/// that tail can be handed on, whatever the next chunk holds.
pub proof fn lemma_search_extends(buf: Seq<u8>, more: Seq<u8>, needle: Seq<u8>, from: int)
    requires
        0 <= from,
        needle.len() > 0,
    ensures
        first_match(buf, needle, from) is Some ==> first_match(buf + more, needle, from)
            == first_match(buf, needle, from),
        first_match(buf, needle, from) is None ==> forall|j: int|
            from <= j && j + needle.len() <= buf.len() ==> !#[trigger] occurs_at(
                buf + more,
                needle,
                j,
            ),
    decreases buf.len() - from,
{
    if from >= buf.len() || from + needle.len() > buf.len() {
    } else {
        lemma_occurs_prefix(buf, more, needle, from);
        if occurs_at(buf, needle, from) {
        } else {
            lemma_search_extends(buf, more, needle, from + 1);
            assert forall|j: int|
                from <= j && j + needle.len() <= buf.len() && first_match(buf, needle, from) is None
                    implies !#[trigger] occurs_at(buf + more, needle, j) by {
                if j == from {
                } else {
                }
            }
        }
    }
}

/// Finds the first index at or after `from` where `needle` stands in `hay`.
pub fn find(hay: &[u8], needle: &[u8], from: usize) -> (r: Option<usize>)
    requires
        needle@.len() > 0,
    ensures
        match r {
            Some(i) => first_match(hay@, needle@, from as int) == Some(i as int),
            None => first_match(hay@, needle@, from as int) is None,
        },
{
    let n = needle.len();
    let hl = hay.len();
    if n > hay.len() || from > hay.len() - n {
        return None;
    }
    let mut i: usize = from;
    while i <= hay.len() - n
        invariant
            from <= i <= hay@.len() - n + 1,
            n == needle@.len(),
            n > 0,
            hl == hay@.len(),
            n <= hay@.len(),
            first_match(hay@, needle@, from as int) == first_match(hay@, needle@, i as int),
        decreases hay@.len() - n + 1 - i,
    {
        let mut k: usize = 0;
        while k < n
            invariant
                i + n <= hay@.len(),
                hl == hay@.len(),
                n == needle@.len(),
                k <= n,
                forall|t: int| 0 <= t < k ==> hay@[i + t] == needle@[t],
            ensures
                k <= n,
                k < n ==> hay@[i + k] != needle@[k as int],
                forall|t: int| 0 <= t < k ==> hay@[i + t] == needle@[t],
            decreases n - k,
        {
            if hay[i + k] != needle[k] {
                break;
            }
            k += 1;
        }
        if k == n {
            assert(hay@.subrange(i as int, i + n) =~= needle@);
            assert(occurs_at(hay@, needle@, i as int));
            assert(first_match(hay@, needle@, i as int) == Some(i as int));
            return Some(i);
        }
        assert(!occurs_at(hay@, needle@, i as int)) by {
            if occurs_at(hay@, needle@, i as int) {
                assert(hay@.subrange(i as int, i + n)[k as int] == hay@[i + k]);
            }
        }
        i += 1;
    }
    None
}

} // verus!

verus! {

/// Whether two byte strings are equal.
pub fn bytes_eq(a: &[u8], b: &[u8]) -> (r: bool)
    ensures
        r == (a@ == b@),
{
    if a.len() != b.len() {
        return false;
    }
    let mut i: usize = 0;
    while i < a.len()
        invariant
            a@.len() == b@.len(),
            i <= a@.len(),
            forall|t: int| 0 <= t < i ==> a@[t] == b@[t],
        decreases a@.len() - i,
    {
        if a[i] != b[i] {
            return false;
        }
        i += 1;
    }
    assert(a@ =~= b@);
    true
}

} // verus!
