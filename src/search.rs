//! Answering the changes-when-cased question from a sorted table of records.
use vstd::prelude::*;
use crate::case_info::changes_under;
use crate::encoding::{
    code_behavior, rec_contains, rec_kind, rec_len, rec_start, RK_ALT_LOWER_UPPER,
    RK_ALT_UPPER_LOWER, RK_UNIFORM_BOTH, RK_UNIFORM_LOWER, RK_UNIFORM_UPPER,
};

verus! {

/// Records in ascending order whose half-open intervals do not overlap.
pub open spec fn table_sorted(tab: Seq<u32>) -> bool {
    forall|i: int, j: int|
        0 <= i < j < tab.len() ==> rec_start(#[trigger] tab[i]) + rec_len(tab[i]) <= rec_start(
            #[trigger] tab[j],
        )
}

/// Whether some record of the table holds `c`.
pub open spec fn table_holds(tab: Seq<u32>, c: int) -> bool {
    exists|i: int| 0 <= i < tab.len() && rec_contains(#[trigger] tab[i], c)
}

/// The record whose interval holds `c`, if any.
pub open spec fn table_lookup(tab: Seq<u32>, c: int) -> Option<u32> {
    if table_holds(tab, c) {
        Some(tab[choose|i: int| 0 <= i < tab.len() && rec_contains(#[trigger] tab[i], c)])
    } else {
        None
    }
}

/// What the table says of `c`: no record means no change; otherwise the
/// record's behavior at the offset of `c` decides.
pub open spec fn table_answer(tab: Seq<u32>, c: int, map_lower: bool) -> bool {
    match table_lookup(tab, c) {
        None => false,
        Some(e) => changes_under(code_behavior(rec_kind(e), c - rec_start(e)), map_lower),
    }
}

/// Whether an ASCII codepoint changes under the given mapping: uppercase
/// letters under lowercasing, lowercase letters under uppercasing.
pub open spec fn ascii_changes(c: int, map_lower: bool) -> bool {
    if map_lower {
        0x41 <= c <= 0x5A
    } else {
        0x61 <= c <= 0x7A
    }
}

/// What the table and the ASCII rule together say of `c`.
pub open spec fn changes_when_cased_spec(tab: Seq<u32>, c: int, map_lower: bool) -> bool {
    if c < 0x80 {
        ascii_changes(c, map_lower)
    } else {
        table_answer(tab, c, map_lower)
    }
}

/// In a sorted table, at most one record holds a given codepoint.
pub proof fn lemma_lookup_unique(tab: Seq<u32>, c: int, k: int)
    requires
        table_sorted(tab),
        0 <= k < tab.len(),
        rec_contains(tab[k], c),
    ensures
        table_lookup(tab, c) == Some(tab[k]),
{
    let i = choose|i: int| 0 <= i < tab.len() && rec_contains(#[trigger] tab[i], c);
    assert(rec_contains(tab[k], c));
    if i < k {
        assert(rec_start(tab[i]) + rec_len(tab[i]) <= rec_start(tab[k]));
    } else if k < i {
        assert(rec_start(tab[k]) + rec_len(tab[k]) <= rec_start(tab[i]));
    }
}

proof fn lemma_rec_bounds(e: u32)
    ensures
        rec_start(e) < 0x200000,
        rec_len(e) < 256,
        rec_kind(e) < 8,
{
    assert(e >> 11u32 < 0x200000) by (bit_vector);
    assert(e & 0xff < 256) by (bit_vector);
    assert((e >> 8u32) & 7 < 8) by (bit_vector);
}

/// In a sorted table, at most one index holds a given codepoint.
pub proof fn lemma_index_unique(tab: Seq<u32>, c: int, i: int, k: int)
    requires
        table_sorted(tab),
        0 <= i < tab.len(),
        0 <= k < tab.len(),
        rec_contains(tab[i], c),
        rec_contains(tab[k], c),
    ensures
        i == k,
{
    if i < k {
        assert(rec_start(tab[i]) + rec_len(tab[i]) <= rec_start(tab[k]));
    } else if k < i {
        assert(rec_start(tab[k]) + rec_len(tab[k]) <= rec_start(tab[i]));
    }
}

/// Binary search for the index of the record whose interval holds `n`.
pub(crate) fn find_range_index(n: u32, ranges: &[u32]) -> (r: Option<usize>)
    requires
        table_sorted(ranges@),
    ensures
        r matches Some(i) ==> i < ranges@.len() && rec_contains(ranges@[i as int], n as int),
        r is None ==> !table_holds(ranges@, n as int),
{
    let mut lo: usize = 0;
    let mut hi: usize = ranges.len();
    while lo < hi
        invariant
            table_sorted(ranges@),
            lo <= hi <= ranges@.len(),
            forall|i: int|
                0 <= i < lo ==> rec_start(#[trigger] ranges@[i]) + rec_len(ranges@[i]) <= n,
            forall|i: int| hi <= i < ranges@.len() ==> rec_start(#[trigger] ranges@[i]) > n,
        decreases hi - lo,
    {
        let mid = lo + (hi - lo) / 2;
        let entry = ranges[mid];
        proof {
            lemma_rec_bounds(entry);
        }
        let range_st = entry >> 11;
        let range_len = entry & 0xff;
        if range_st > n {
            proof {
                assert forall|i: int| mid <= i < ranges@.len() implies rec_start(
                    #[trigger] ranges@[i],
                ) > n by {
                    if mid < i {
                        assert(rec_start(ranges@[mid as int]) + rec_len(ranges@[mid as int])
                            <= rec_start(
                            ranges@[i],
                        ));
                    }
                }
            }
            hi = mid;
        } else if range_st + range_len <= n {
            proof {
                assert forall|i: int| 0 <= i < mid + 1 implies rec_start(#[trigger] ranges@[i])
                    + rec_len(ranges@[i]) <= n by {
                    if i < mid {
                        assert(rec_start(ranges@[i]) + rec_len(ranges@[i]) <= rec_start(
                            ranges@[mid as int],
                        ));
                    }
                }
            }
            lo = mid + 1;
        } else {
            return Some(mid);
        }
    }
    proof {
        assert forall|i: int| 0 <= i < ranges@.len() implies !rec_contains(
            #[trigger] ranges@[i],
            n as int,
        ) by {
            if i < lo {
                assert(rec_start(ranges@[i]) + rec_len(ranges@[i]) <= n);
            } else {
                assert(rec_start(ranges@[i]) > n);
            }
        }
    }
    None
}

/// Binary search for the record whose interval holds `needle`.
pub fn find_encoded_case_range(needle: char, ranges: &[u32]) -> (r: Option<u32>)
    requires
        table_sorted(ranges@),
    ensures
        r == table_lookup(ranges@, needle as u32 as int),
{
    match find_range_index(needle as u32, ranges) {
        Some(i) => {
            proof {
                lemma_lookup_unique(ranges@, needle as u32 as int, i as int);
            }
            Some(ranges[i])
        },
        None => None,
    }
}

/// Whether the table says that `needle` changes under lowercasing
/// (`MAP_LOWER`) or uppercasing (`!MAP_LOWER`).
pub fn changes_when_casemapped_nonascii<const MAP_LOWER: bool>(
    needle: char,
    tab: &[u32],
) -> (r: bool)
    requires
        table_sorted(tab@),
    ensures
        r == table_answer(tab@, needle as u32 as int, MAP_LOWER),
{
    let enc = match find_encoded_case_range(needle, tab) {
        Some(e) => e,
        None => {
            return false;
        },
    };
    proof {
        lemma_rec_bounds(enc);
    }
    let range_st = enc >> 11;
    let range_kind = (enc >> 8) & 0x7;
    let map_lower = MAP_LOWER;
    let map_upper = !MAP_LOWER;
    if range_kind == RK_UNIFORM_BOTH {
        true
    } else if range_kind == RK_UNIFORM_UPPER {
        map_upper
    } else if range_kind == RK_UNIFORM_LOWER {
        map_lower
    } else if range_kind == RK_ALT_UPPER_LOWER || range_kind == RK_ALT_LOWER_UPPER {
        let offset = needle as u32 - range_st;
        let odd = (offset & 1) != 0;
        assert(((offset & 1) != 0) == (offset % 2 == 1)) by (bit_vector);
        let odd_is_lower = range_kind == RK_ALT_UPPER_LOWER;
        if MAP_LOWER {
            odd_is_lower == odd
        } else {
            odd_is_lower == !odd
        }
    } else {
        false
    }
}

/// Whether mapping `c` to lowercase changes it: by the letter bounds for
/// ASCII, by the table otherwise.
pub fn changes_when_lowercased(c: char, tab: &[u32]) -> (r: bool)
    requires
        table_sorted(tab@),
    ensures
        r == changes_when_cased_spec(tab@, c as u32 as int, true),
{
    let v = c as u32;
    if v < 0x80 {
        0x41 <= v && v <= 0x5A
    } else {
        changes_when_casemapped_nonascii::<true>(c, tab)
    }
}

/// Whether mapping `c` to uppercase changes it: by the letter bounds for
/// ASCII, by the table otherwise.
pub fn changes_when_uppercased(c: char, tab: &[u32]) -> (r: bool)
    requires
        table_sorted(tab@),
    ensures
        r == changes_when_cased_spec(tab@, c as u32 as int, false),
{
    let v = c as u32;
    if v < 0x80 {
        0x61 <= v && v <= 0x7A
    } else {
        changes_when_casemapped_nonascii::<false>(c, tab)
    }
}

} // verus!
