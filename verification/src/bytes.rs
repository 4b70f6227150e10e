//! Byte-sequence vocabulary: where a pattern occurs in a text, where it occurs
//! first, and how a text falls apart at a separator.

use vstd::prelude::*;

verus! {

/// `needle` stands in `hay` at offset `at`.
pub open spec fn occurs_at(hay: Seq<u8>, needle: Seq<u8>, at: int) -> bool {
    &&& 0 <= at
    &&& at + needle.len() <= hay.len()
    &&& hay.subrange(at, at + needle.len()) == needle
}

/// `needle` stands somewhere in `hay`.
pub open spec fn contains(hay: Seq<u8>, needle: Seq<u8>) -> bool {
    exists|at: int| occurs_at(hay, needle, at)
}

/// `at` is the leftmost offset at which `needle` stands in `hay`.
pub open spec fn first_at(hay: Seq<u8>, needle: Seq<u8>, at: int) -> bool {
    &&& occurs_at(hay, needle, at)
    &&& forall|j: int| 0 <= j < at ==> !occurs_at(hay, needle, j)
}

/// The leftmost offset at which `needle` stands in `hay`, if it stands there at all.
pub open spec fn find(hay: Seq<u8>, needle: Seq<u8>) -> Option<int> {
    if contains(hay, needle) {
        Some(choose|at: int| first_at(hay, needle, at))
    } else {
        None
    }
}

/// The part of `text` from offset `from` to its end.
pub open spec fn tail(text: Seq<u8>, from: int) -> Seq<u8> {
    text.subrange(from, text.len() as int)
}

/// The pieces of `text` between the occurrences of a non-empty separator, read
/// left to right: one piece more than there are separators, so never none.
pub open spec fn split(text: Seq<u8>, sep: Seq<u8>) -> Seq<Seq<u8>>
    decreases text.len(),
{
    let hit = find(text, sep);
    if sep.len() > 0 && hit is Some && 0 <= hit->0 && hit->0 + sep.len() <= text.len() {
        seq![text.subrange(0, hit->0)] + split(tail(text, hit->0 + sep.len()), sep)
    } else {
        seq![text]
    }
}

/// Below any occurrence lies a leftmost one.
proof fn lemma_leftmost_exists(hay: Seq<u8>, needle: Seq<u8>, at: int)
    requires
        occurs_at(hay, needle, at),
    ensures
        exists|f: int| first_at(hay, needle, f),
    decreases at,
{
    if forall|j: int| 0 <= j < at ==> !occurs_at(hay, needle, j) {
        assert(first_at(hay, needle, at));
    } else {
        let j = choose|j: int| 0 <= j < at && occurs_at(hay, needle, j);
        lemma_leftmost_exists(hay, needle, j);
    }
}

/// `find` answers with the leftmost occurrence, and with `None` only where
/// there is no occurrence.
pub proof fn lemma_find(hay: Seq<u8>, needle: Seq<u8>)
    ensures
        match find(hay, needle) {
            Some(at) => first_at(hay, needle, at),
            None => !contains(hay, needle),
        },
{
    if contains(hay, needle) {
        let at = choose|at: int| occurs_at(hay, needle, at);
        lemma_leftmost_exists(hay, needle, at);
    }
}

/// A leftmost occurrence is what `find` answers with.
pub proof fn lemma_find_is(hay: Seq<u8>, needle: Seq<u8>, at: int)
    requires
        first_at(hay, needle, at),
    ensures
        find(hay, needle) == Some(at),
{
    lemma_find(hay, needle);
    let f = find(hay, needle)->0;
    assert(contains(hay, needle));
    if f < at {
        assert(!occurs_at(hay, needle, f));
    } else if at < f {
        assert(!occurs_at(hay, needle, at));
    }
}

/// A text with no separator in it is its own single piece.
pub proof fn lemma_split_whole(text: Seq<u8>, sep: Seq<u8>)
    requires
        find(text, sep) is None,
    ensures
        split(text, sep) == seq![text],
{
}

/// A text with a separator in it is the piece before the leftmost one, then
/// the pieces of what follows that separator.
pub proof fn lemma_split_at(text: Seq<u8>, sep: Seq<u8>, at: int)
    requires
        sep.len() > 0,
        find(text, sep) == Some(at),
    ensures
        0 <= at,
        at + sep.len() <= text.len(),
        split(text, sep) == seq![text.subrange(0, at)] + split(tail(text, at + sep.len()), sep),
        split(text, sep).len() == 1 + split(tail(text, at + sep.len()), sep).len(),
        split(text, sep)[0] == text.subrange(0, at),
        split(text, sep).drop_first() == split(tail(text, at + sep.len()), sep),
{
    lemma_find(text, sep);
    let rest = split(tail(text, at + sep.len()), sep);
    assert((seq![text.subrange(0, at)] + rest).drop_first() =~= rest);
}

/// A text always has at least one piece.
pub proof fn lemma_split_nonempty(text: Seq<u8>, sep: Seq<u8>)
    ensures
        split(text, sep).len() >= 1,
{
}

/// Whether the bytes of `hay` from `at` on spell out `needle`.
pub fn matches_at(hay: &[u8], needle: &[u8], at: usize) -> (r: bool)
    ensures
        r == occurs_at(hay@, needle@, at as int),
{
    if needle.len() > hay.len() || at > hay.len() - needle.len() {
        return false;
    }
    let mut k: usize = 0;
    while k < needle.len()
        invariant
            k <= needle.len(),
            at + needle.len() <= hay.len(),
            forall|j: int| 0 <= j < k ==> hay@[at + j] == needle@[j],
        decreases needle.len() - k,
    {
        if hay[at + k] != needle[k] {
            proof {
                assert(hay@.subrange(at as int, at + needle.len())[k as int] == hay@[at + k]);
            }
            return false;
        }
        k += 1;
    }
    proof {
        assert(hay@.subrange(at as int, at + needle.len()) =~= needle@);
    }
    true
}

/// The leftmost offset at which `needle` stands in `hay`.
pub fn find_first(hay: &[u8], needle: &[u8]) -> (r: Option<usize>)
    ensures
        r matches Some(at) ==> find(hay@, needle@) == Some(at as int),
        r is None ==> find(hay@, needle@) is None,
{
    let mut at: usize = 0;
    loop
        invariant
            at <= hay.len(),
            forall|j: int| 0 <= j < at ==> !occurs_at(hay@, needle@, j),
        decreases hay.len() - at,
    {
        if matches_at(hay, needle, at) {
            proof {
                lemma_find_is(hay@, needle@, at as int);
            }
            return Some(at);
        }
        if at == hay.len() {
            proof {
                lemma_find(hay@, needle@);
            }
            return None;
        }
        at += 1;
    }
}

} // verus!
