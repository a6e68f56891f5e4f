//! Case-sensitive substring containment over character sequences.

use vstd::prelude::*;

verus! {

/// The characters with the Unicode `White_Space` property: what trimming
/// removes.
pub open spec fn is_space_char(c: char) -> bool {
    ||| c as int == 0x9
    ||| c as int == 0xA
    ||| c as int == 0xB
    ||| c as int == 0xC
    ||| c as int == 0xD
    ||| c as int == 0x20
    ||| c as int == 0x85
    ||| c as int == 0xA0
    ||| c as int == 0x1680
    ||| (0x2000 <= c as int && c as int <= 0x200A)
    ||| c as int == 0x2028
    ||| c as int == 0x2029
    ||| c as int == 0x202F
    ||| c as int == 0x205F
    ||| c as int == 0x3000
}

/// Whether `s` holds nothing but whitespace: true exactly when trimming
/// would leave it empty. The empty string is blank.
pub fn is_blank(s: &str) -> (r: bool)
    ensures
        r == (forall|i: int| 0 <= i < s@.len() ==> is_space_char(#[trigger] s@[i])),
{
    let len = s.unicode_len();
    let mut i: usize = 0;
    while i < len
        invariant
            i <= len,
            len == s@.len(),
            forall|j: int| 0 <= j < i ==> is_space_char(#[trigger] s@[j]),
        decreases len - i,
    {
        let v = s.get_char(i) as u32;
        let ws = v == 0x9 || v == 0xA || v == 0xB || v == 0xC || v == 0xD || v == 0x20
            || v == 0x85 || v == 0xA0 || v == 0x1680 || (0x2000 <= v && v <= 0x200A)
            || v == 0x2028 || v == 0x2029 || v == 0x202F || v == 0x205F || v == 0x3000;
        if !ws {
            return false;
        }
        i += 1;
    }
    true
}

/// `needle` occurs in `hay` starting at position `i`.
pub open spec fn matches_at(hay: Seq<char>, needle: Seq<char>, i: int) -> bool {
    &&& 0 <= i
    &&& i + needle.len() <= hay.len()
    &&& hay.subrange(i, i + needle.len()) == needle
}

/// `needle` occurs somewhere in `hay` as a contiguous run. The empty
/// sequence occurs in everything, at position 0.
pub open spec fn contains_seq(hay: Seq<char>, needle: Seq<char>) -> bool {
    exists|i: int| matches_at(hay, needle, i)
}

/// Whether `needle` occurs at position `start` of `hay`.
fn match_at(hay: &str, needle: &str, start: usize, needle_len: usize) -> (r: bool)
    requires
        needle_len == needle@.len(),
        start + needle_len <= hay@.len(),
        hay@.len() <= usize::MAX,
    ensures
        r == matches_at(hay@, needle@, start as int),
{
    let mut j: usize = 0;
    while j < needle_len
        invariant
            j <= needle_len,
            needle_len == needle@.len(),
            start + needle_len <= hay@.len(),
            hay@.len() <= usize::MAX,
            forall|k: int| 0 <= k < j ==> hay@[start + k] == needle@[k],
        decreases needle_len - j,
    {
        if hay.get_char(start + j) != needle.get_char(j) {
            proof {
                assert(hay@.subrange(start as int, start + needle@.len())[j as int]
                    == hay@[start + j]);
            }
            return false;
        }
        j += 1;
    }
    proof {
        assert(hay@.subrange(start as int, start + needle@.len()) =~= needle@);
    }
    true
}

/// Whether `needle` occurs in `hay` as a contiguous, case-sensitive
/// substring; the empty needle is found in every string.
pub fn contains_substring(hay: &str, needle: &str) -> (r: bool)
    ensures
        r == contains_seq(hay@, needle@),
{
    let hay_len = hay.unicode_len();
    let needle_len = needle.unicode_len();
    if needle_len > hay_len {
        proof {
            assert(forall|i: int| !matches_at(hay@, needle@, i));
        }
        return false;
    }
    let limit = hay_len - needle_len;
    let mut start: usize = 0;
    loop
        invariant
            hay_len == hay@.len(),
            needle_len == needle@.len(),
            needle_len <= hay_len,
            limit == hay_len - needle_len,
            start <= limit,
            forall|i: int| 0 <= i < start ==> !matches_at(hay@, needle@, i),
        decreases limit - start,
    {
        if match_at(hay, needle, start, needle_len) {
            return true;
        }
        if start == limit {
            proof {
                assert forall|i: int| !matches_at(hay@, needle@, i) by {
                    if matches_at(hay@, needle@, i) {
                        assert(i + needle@.len() <= hay@.len());
                        assert(0 <= i <= limit);
                    }
                }
            }
            return false;
        }
        start += 1;
    }
}

} // verus!
