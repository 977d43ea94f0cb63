//! Building the range table: a per-codepoint case database, greedy discovery
//! of uniform and alternating runs, splitting of long runs, encoding, and a
//! check of the encoded table against the case-mapping oracle.
use vstd::prelude::*;
use crate::case_info::{
    alternates_spec, behavior_of, changes_under, char_from_u32, is_scalar_value,
    CharCaseChanges, CharInfo, NUM_CHARS,
};
use crate::encoding::{
    decode_direct, encode_direct, lemma_code_behavior, lemma_round_trip, rec_contains, rec_kind,
    rec_len, rec_start, type_behavior, type_code, CharRangeType, RANGE_ENCODING_MAX_LEN,
};
use crate::search::{
    changes_when_cased_spec, find_range_index, lemma_index_unique, lemma_lookup_unique,
    table_answer, table_holds, table_sorted,
};

verus! {

/// The full lowercase mapping of `c`, as `char::to_lowercase` gives it.
pub uninterp spec fn lower_of(c: char) -> Seq<char>;

/// The full uppercase mapping of `c`, as `char::to_uppercase` gives it.
pub uninterp spec fn upper_of(c: char) -> Seq<char>;

/// Relies on char::to_lowercase: the characters of the full lowercase
/// mapping of `c`, a function of `c` alone.
#[verifier::external_body]
fn lowercase_mapping(c: char) -> (r: Vec<char>)
    ensures
        r@ == lower_of(c),
{
    c.to_lowercase().collect()
}

/// Relies on char::to_uppercase: the characters of the full uppercase
/// mapping of `c`, a function of `c` alone.
#[verifier::external_body]
fn uppercase_mapping(c: char) -> (r: Vec<char>)
    ensures
        r@ == upper_of(c),
{
    c.to_uppercase().collect()
}

/// Whether the mapping `m` of `c` changes it: anything but the single
/// character `c` itself, expansions and removals included.
pub fn mapping_changes(c: char, m: &Vec<char>) -> (r: bool)
    ensures
        r == (m@ != seq![c]),
{
    if m.len() == 1 && m[0] == c {
        assert(m@ =~= seq![c]);
        false
    } else {
        assert(m@.len() != 1 || m@[0] != c);
        assert(seq![c].len() == 1 && seq![c][0] == c);
        true
    }
}

/// Whether lowercasing the scalar value `cp` changes it.
pub open spec fn oracle_lower(cp: int) -> bool {
    lower_of(cp as u32 as char) != seq![cp as u32 as char]
}

/// Whether uppercasing the scalar value `cp` changes it.
pub open spec fn oracle_upper(cp: int) -> bool {
    upper_of(cp as u32 as char) != seq![cp as u32 as char]
}

/// The case facts that the oracle gives the scalar value `cp`.
fn oracle_info(ch: char, cp: u32) -> (r: CharInfo)
    requires
        ch as u32 == cp,
    ensures
        r == (CharInfo {
            codepoint: cp,
            changes_when_lower: oracle_lower(cp as int),
            changes_when_upper: oracle_upper(cp as int),
        }),
{
    proof {
        vstd::utf8::char_u32_cast(ch, cp);
    }
    let lower = lowercase_mapping(ch);
    let upper = uppercase_mapping(ch);
    CharInfo {
        codepoint: cp,
        changes_when_lower: mapping_changes(ch, &lower),
        changes_when_upper: mapping_changes(ch, &upper),
    }
}

/// The case facts of every codepoint from 0 up to the largest scalar value.
pub struct CaseChangeDb {
    pub infos: Vec<CharInfo>,
}

impl CaseChangeDb {
    /// One entry per codepoint, in order.
    pub open spec fn wf(&self) -> bool {
        &&& self.infos@.len() == NUM_CHARS
        &&& forall|i: int| 0 <= i < NUM_CHARS ==> (#[trigger] self.infos@[i]).codepoint == i
    }

    /// Every entry agrees with the case-mapping oracle; non-scalar values
    /// never change.
    pub open spec fn matches_oracle(&self) -> bool {
        forall|i: int|
            0 <= i < self.infos@.len() ==> {
                let info = #[trigger] self.infos@[i];
                if is_scalar_value(i) {
                    info.changes_when_lower == oracle_lower(i) && info.changes_when_upper
                        == oracle_upper(i)
                } else {
                    !info.changes_when_lower && !info.changes_when_upper
                }
            }
    }

    /// The entry for `c`, or a never-changing one past the end.
    pub open spec fn info_spec(&self, c: int) -> CharInfo {
        if 0 <= c < self.infos@.len() {
            self.infos@[c]
        } else {
            CharInfo { codepoint: c as u32, changes_when_lower: false, changes_when_upper: false }
        }
    }

    /// The behavior of codepoint `c`.
    pub open spec fn beh(&self, c: int) -> CharCaseChanges {
        self.info_spec(c).behavior()
    }

    /// The entry for `c`; a never-changing entry past the end.
    pub fn info(&self, c: u32) -> (r: CharInfo)
        ensures
            r == self.info_spec(c as int),
    {
        if (c as usize) < self.infos.len() {
            self.infos[c as usize]
        } else {
            CharInfo { codepoint: c, changes_when_lower: false, changes_when_upper: false }
        }
    }

    /// Builds the database by asking the case-mapping oracle about every
    /// scalar value.
    pub fn new() -> (r: Self)
        ensures
            r.wf(),
            r.matches_oracle(),
    {
        let mut infos: Vec<CharInfo> = Vec::new();
        let mut cp: u32 = 0;
        while (cp as usize) < NUM_CHARS
            invariant
                cp <= NUM_CHARS,
                infos@.len() == cp,
                forall|i: int| 0 <= i < cp ==> (#[trigger] infos@[i]).codepoint == i,
                forall|i: int|
                    0 <= i < cp ==> {
                        let info = #[trigger] infos@[i];
                        if is_scalar_value(i) {
                            info.changes_when_lower == oracle_lower(i)
                                && info.changes_when_upper == oracle_upper(i)
                        } else {
                            !info.changes_when_lower && !info.changes_when_upper
                        }
                    },
            decreases NUM_CHARS - cp,
        {
            let info = match char_from_u32(cp) {
                Some(ch) => oracle_info(ch, cp),
                None => CharInfo { codepoint: cp, changes_when_lower: false, changes_when_upper: false },
            };
            infos.push(info);
            cp = cp + 1;
        }
        CaseChangeDb { infos }
    }
}

/// A run of codepoints with one shape of case behavior.
#[derive(Debug, Clone, Copy, PartialEq, Eq, Structural)]
pub struct FoundCharRange {
    pub start_char: u32,
    pub length: usize,
    pub kind: CharRangeType,
}

/// The alternating run type that starts with behavior `b`.
pub open spec fn alt_type_from(b: CharCaseChanges) -> CharRangeType {
    if b == CharCaseChanges::LowerOnly {
        CharRangeType::AlternatingLowerUpper
    } else {
        CharRangeType::AlternatingUpperLower
    }
}

impl FoundCharRange {
    /// One past the last codepoint of the run.
    pub open spec fn end_spec(self) -> int {
        self.start_char + self.length
    }

    /// Whether the run holds codepoint `c`.
    pub open spec fn contains(self, c: int) -> bool {
        self.start_char <= c < self.end_spec()
    }

    /// The run is non-empty, lies within the database, and each of its
    /// codepoints has the behavior that its type gives at its offset.
    pub open spec fn range_ok(self, db: &CaseChangeDb) -> bool {
        &&& 1 <= self.length
        &&& self.end_spec() <= NUM_CHARS
        &&& forall|k: int|
            0 <= k < self.length ==> #[trigger] db.beh(self.start_char + k) == type_behavior(
                self.kind,
                k,
            )
    }

    /// The packed record of the run.
    pub open spec fn encode_spec(self) -> u32 {
        (self.length as u32) | (type_code(self.kind)->0 << 8u32) | (self.start_char << 11u32)
    }

    /// One past the last codepoint of the run.
    pub fn end(&self) -> (r: u32)
        requires
            self.end_spec() <= u32::MAX,
        ensures
            r == self.end_spec(),
    {
        self.start_char + (self.length as u32)
    }

    /// The packed record of the run.
    pub fn encode(&self) -> (r: u32)
        requires
            type_code(self.kind) is Some,
            self.start_char < 0x200000,
            self.length <= RANGE_ENCODING_MAX_LEN,
        ensures
            r == self.encode_spec(),
            rec_kind(r) == type_code(self.kind)->0,
            rec_start(r) == self.start_char,
            rec_len(r) == self.length,
    {
        proof {
            lemma_code_behavior(self.kind, 0);
        }
        let kind = match self.kind.encode() {
            Some(k) => k,
            None => 0,
        };
        encode_direct(kind, self.start_char, self.length as u32)
    }

    /// The uniform run of `len` codepoints from `c`, all of one behavior.
    pub fn new_uniform_range(db: &CaseChangeDb, c: u32, len: usize) -> (r: Self)
        requires
            db.wf(),
            1 <= len,
            c + len <= NUM_CHARS,
            forall|k: int| 0 <= k < len ==> #[trigger] db.beh(c + k) == db.beh(c as int),
        ensures
            r == (FoundCharRange {
                start_char: c,
                length: len,
                kind: CharRangeType::Uniform(db.beh(c as int)),
            }),
            r.range_ok(db),
    {
        let kind = db.info(c).case_enum();
        FoundCharRange { start_char: c, length: len, kind: CharRangeType::Uniform(kind) }
    }

    /// The alternating run of `len` codepoints from `c`, each changing under
    /// exactly the other mapping than its predecessor.
    pub fn new_alt_range(db: &CaseChangeDb, c: u32, len: usize) -> (r: Self)
        requires
            db.wf(),
            2 <= len,
            c + len <= NUM_CHARS,
            forall|k: int|
                0 <= k < len - 1 ==> alternates_spec(
                    #[trigger] db.beh(c + k),
                    db.beh(c + k + 1),
                ),
        ensures
            r == (FoundCharRange {
                start_char: c,
                length: len,
                kind: alt_type_from(db.beh(c as int)),
            }),
            r.range_ok(db),
    {
        proof {
            assert(alternates_spec(db.beh(c + 0), db.beh(c + 0 + 1)));
            lemma_alternating(db, c as int, len as int, len as int);
        }
        let kind = db.info(c).case_enum();
        FoundCharRange {
            start_char: c,
            length: len,
            kind: match kind {
                CharCaseChanges::LowerOnly => CharRangeType::AlternatingLowerUpper,
                _ => CharRangeType::AlternatingUpperLower,
            },
        }
    }
}

/// A run whose neighbours alternate pairwise follows the alternating type
/// named by its first behavior.
proof fn lemma_alternating(db: &CaseChangeDb, c: int, len: int, n: int)
    requires
        1 <= n <= len,
        db.beh(c) == CharCaseChanges::UpperOnly || db.beh(c) == CharCaseChanges::LowerOnly,
        forall|k: int| 0 <= k < len - 1
            ==> alternates_spec(#[trigger] db.beh(c + k), db.beh(c + k + 1)),
    ensures
        forall|k: int| 0 <= k < n
            ==> #[trigger] db.beh(c + k) == type_behavior(alt_type_from(db.beh(c)), k),
    decreases n,
{
    if n > 1 {
        lemma_alternating(db, c, len, n - 1);
        let k = n - 2;
        assert(alternates_spec(db.beh(c + k), db.beh(c + k + 1)));
        assert(db.beh(c + k) == type_behavior(alt_type_from(db.beh(c)), k));
        assert(c + k + 1 == c + (n - 1));
    } else {
        assert(c + 0 == c);
    }
}

/// The length of the longest prefix of `slice` in which each neighbouring
/// pair passes `test` (0 for an empty slice).
fn group_len<T, F: Fn(&T, &T) -> bool>(slice: &[T], test: F) -> (len: usize)
    requires
        forall|i: int| #![trigger slice@[i]]
            0 <= i < slice@.len() - 1 ==> test.requires((&slice@[i], &slice@[i + 1])),
    ensures
        slice@.len() == 0 ==> len == 0,
        slice@.len() >= 1 ==> 1 <= len <= slice@.len(),
        forall|i: int| #![trigger slice@[i]] 0 <= i < len - 1
            ==> test.ensures((&slice@[i], &slice@[i + 1]), true),
        0 < len < slice@.len() ==> test.ensures(
            (&slice@[len - 1], &slice@[len as int]),
            false,
        ),
{
    if slice.len() < 2 {
        return slice.len();
    }
    let mut len: usize = 1;
    while len < slice.len()
        invariant
            1 <= len <= slice@.len(),
            forall|i: int| #![trigger slice@[i]]
                0 <= i < slice@.len() - 1 ==> test.requires((&slice@[i], &slice@[i + 1])),
            forall|i: int| #![trigger slice@[i]] 0 <= i < len - 1
                ==> test.ensures((&slice@[i], &slice@[i + 1]), true),
        decreases slice@.len() - len,
    {
        if test(&slice[len - 1], &slice[len]) {
            len = len + 1;
        } else {
            return len;
        }
    }
    len
}

/// Links that each pass an equality make the whole prefix equal to its
/// first behavior.
proof fn lemma_uniform_chain(db: &CaseChangeDb, c: int, n: int)
    requires
        1 <= n,
        forall|k: int| 0 <= k < n - 1 ==> #[trigger] db.beh(c + k) == db.beh(c + k + 1),
    ensures
        forall|k: int| 0 <= k < n ==> #[trigger] db.beh(c + k) == db.beh(c),
    decreases n,
{
    if n > 1 {
        lemma_uniform_chain(db, c, n - 1);
        let k = n - 2;
        assert(db.beh(c + k) == db.beh(c + k + 1));
        assert(db.beh(c + k) == db.beh(c));
        assert(c + k + 1 == c + (n - 1));
    } else {
        assert(c + 0 == c);
    }
}

/// Whether `r` is the run that greedy discovery finds at its start: an
/// alternating run where the uniform run there has length 1 and the next
/// codepoint alternates with it, extended as far as the alternation goes;
/// otherwise the maximal uniform run.
pub open spec fn is_found_range(db: &CaseChangeDb, r: FoundCharRange) -> bool {
    &&& r.range_ok(db)
    &&& match r.kind {
        CharRangeType::Uniform(_) => {
            &&& (r.end_spec() == NUM_CHARS || db.beh(r.end_spec()) != db.beh(
                r.start_char as int,
            ))
            &&& !(r.length == 1 && alternates_spec(
                db.beh(r.start_char as int),
                db.beh(r.start_char + 1),
            ))
        },
        _ => {
            &&& r.length >= 2
            &&& (r.end_spec() == NUM_CHARS || !alternates_spec(
                db.beh(r.end_spec() - 1),
                db.beh(r.end_spec()),
            ))
        },
    }
}

/// Runs in ascending order that do not overlap.
pub open spec fn ranges_sorted(rs: Seq<FoundCharRange>) -> bool {
    forall|i: int, j: int|
        0 <= i < j < rs.len() ==> (#[trigger] rs[i]).end_spec() <= (#[trigger] rs[j]).start_char
}

/// Whether some run of `rs` holds `c`.
pub open spec fn ranges_hold(rs: Seq<FoundCharRange>, c: int) -> bool {
    exists|k: int| 0 <= k < rs.len() && (#[trigger] rs[k]).contains(c)
}

/// The runs partition the whole codepoint space: each lies within it, no
/// two overlap, and every codepoint lies in one.
pub open spec fn ranges_partition(db: &CaseChangeDb, rs: Seq<FoundCharRange>) -> bool {
    &&& forall|k: int| 0 <= k < rs.len() ==> (#[trigger] rs[k]).range_ok(db)
    &&& ranges_sorted(rs)
    &&& forall|c: int| 0 <= c < NUM_CHARS ==> ranges_hold(rs, c)
}

/// Whether a run needs a table entry: it changes under some mapping, and
/// it does not lie wholly in the ASCII block (its exclusive end is past 128).
pub open spec fn keep_spec(r: FoundCharRange) -> bool {
    r.kind != CharRangeType::Uniform(CharCaseChanges::Never) && r.end_spec() > 128
}

/// The runs that a table needs: well-formed, sorted, none of them
/// never-changing, and together holding every codepoint outside the ASCII
/// block that changes under some mapping.
pub open spec fn ranges_ok(db: &CaseChangeDb, rs: Seq<FoundCharRange>) -> bool {
    runs_ok(db, rs) && covers_cased(db, rs)
}

/// Sorted runs, each well-formed and none of them never-changing.
pub open spec fn runs_ok(db: &CaseChangeDb, rs: Seq<FoundCharRange>) -> bool {
    &&& forall|k: int|
        0 <= k < rs.len() ==> (#[trigger] rs[k]).range_ok(db) && rs[k].kind
            != CharRangeType::Uniform(CharCaseChanges::Never)
    &&& ranges_sorted(rs)
}

/// The runs hold every codepoint outside the ASCII block that changes
/// under some mapping.
pub open spec fn covers_cased(db: &CaseChangeDb, rs: Seq<FoundCharRange>) -> bool {
    forall|c: int|
        128 <= c < NUM_CHARS && #[trigger] db.beh(c) != CharCaseChanges::Never ==> ranges_hold(
            rs,
            c,
        )
}

impl CaseChangeDb {
    /// The run that greedy discovery finds at `c`.
    #[verifier::rlimit(60)]
    fn find_range_from(&self, c: u32) -> (r: FoundCharRange)
        requires
            self.wf(),
            c < NUM_CHARS,
        ensures
            r.start_char == c,
            is_found_range(self, r),
    {
        let slice = vstd::slice::slice_subrange(self.infos.as_slice(), c as usize, self.infos.len());
        assert(forall|i: int| 0 <= i < slice@.len()
            ==> #[trigger] slice@[i] == self.info_spec(c + i));
        let uniform_len = group_len(
            slice,
            (|a: &CharInfo, b: &CharInfo| -> (r: bool)
                ensures
                    r == (a.behavior() == b.behavior()),
                { a.case_enum() == b.case_enum() }),
        );
        proof {
            assert forall|k: int| 0 <= k < uniform_len - 1 implies #[trigger] self.beh(c + k)
                == self.beh(c + k + 1) by {
                assert(slice@[k] == self.info_spec(c + k));
                assert(slice@[k + 1] == self.info_spec(c + k + 1));
            }
            lemma_uniform_chain(self, c as int, uniform_len as int);
            if uniform_len < slice@.len() {
                assert(slice@[uniform_len - 1] == self.info_spec(c + uniform_len - 1));
                assert(slice@[uniform_len as int] == self.info_spec(c + uniform_len));
                assert(self.beh(c + (uniform_len - 1)) == self.beh(c as int));
            }
        }
        if uniform_len == 1 && self.info(c).alternates_with(&self.info(c + 1)) {
            let alt_len = group_len(
                slice,
                (|a: &CharInfo, b: &CharInfo| -> (r: bool)
                    ensures
                        r == alternates_spec(a.behavior(), b.behavior()),
                    { a.alternates_with(b) }),
            );
            proof {
                assert(slice@[0] == self.info_spec(c + 0));
                assert(slice@[1] == self.info_spec(c + 1));
                assert forall|k: int| 0 <= k < alt_len - 1 implies alternates_spec(
                    #[trigger] self.beh(c + k),
                    self.beh(c + k + 1),
                ) by {
                    assert(slice@[k] == self.info_spec(c + k));
                    assert(slice@[k + 1] == self.info_spec(c + k + 1));
                }
                if alt_len < slice@.len() {
                    assert(slice@[alt_len - 1] == self.info_spec(c + alt_len - 1));
                    assert(slice@[alt_len as int] == self.info_spec(c + alt_len));
                }
            }
            FoundCharRange::new_alt_range(self, c, alt_len)
        } else {
            FoundCharRange::new_uniform_range(self, c, uniform_len)
        }
    }

    /// All runs that greedy discovery finds, before any is discarded.
    pub fn find_raw_ranges(&self) -> (r: Vec<FoundCharRange>)
        requires
            self.wf(),
        ensures
            ranges_partition(self, r@),
            forall|k: int| 0 <= k < r@.len() ==> is_found_range(self, #[trigger] r@[k]),
    {
        let mut ranges: Vec<FoundCharRange> = Vec::new();
        let mut cur: u32 = 0;
        while (cur as usize) < self.infos.len()
            invariant
                self.wf(),
                cur <= NUM_CHARS,
                forall|k: int| 0 <= k < ranges@.len()
                    ==> is_found_range(self, #[trigger] ranges@[k]),
                forall|k: int| 0 <= k < ranges@.len() ==> (#[trigger] ranges@[k]).end_spec() <= cur,
                ranges_sorted(ranges@),
                forall|c: int| 0 <= c < cur ==> ranges_hold(ranges@, c),
            decreases NUM_CHARS - cur,
        {
            let found = self.find_range_from(cur);
            let end = found.end();
            let ghost old_ranges = ranges@;
            ranges.push(found);
            proof {
                assert forall|c: int| 0 <= c < end implies ranges_hold(ranges@, c) by {
                    if c < cur {
                        assert(ranges_hold(old_ranges, c));
                        let k = choose|k: int| 0 <= k < old_ranges.len()
                            && (#[trigger] old_ranges[k]).contains(c);
                        assert(ranges@[k] == old_ranges[k]);
                    } else {
                        assert(ranges@[old_ranges.len() as int].contains(c));
                    }
                }
            }
            cur = end;
        }
        ranges
    }

    /// The runs that greedy discovery finds, without those that need no
    /// table entry.
    pub fn find_ranges(&self) -> (r: Vec<FoundCharRange>)
        requires
            self.wf(),
        ensures
            exists|raw: Seq<FoundCharRange>|
                #[trigger] ranges_partition(self, raw) && (forall|k: int|
                    0 <= k < raw.len() ==> is_found_range(self, #[trigger] raw[k])) && r@
                    == raw.filter(|x: FoundCharRange| keep_spec(x)),
            ranges_ok(self, r@),
            forall|k: int|
                0 <= k < r@.len() ==> is_found_range(self, #[trigger] r@[k]) && keep_spec(r@[k]),
    {
        let all = self.find_raw_ranges();
        let mut ranges: Vec<FoundCharRange> = Vec::new();
        let mut i: usize = 0;
        let ghost mut lim: int = 0;
        while i < all.len()
            invariant
                self.wf(),
                ranges_partition(self, all@),
                forall|k: int| 0 <= k < all@.len() ==> is_found_range(self, #[trigger] all@[k]),
                i <= all@.len(),
                0 <= lim,
                i < all@.len() ==> lim <= all@[i as int].start_char,
                forall|k: int| 0 <= k < ranges@.len()
                    ==> is_found_range(self, #[trigger] ranges@[k]) && keep_spec(ranges@[k]),
                forall|k: int| 0 <= k < ranges@.len() ==> (#[trigger] ranges@[k]).end_spec() <= lim,
                ranges_sorted(ranges@),
                forall|j: int| 0 <= j < i && keep_spec(#[trigger] all@[j])
                    ==> exists|k: int| 0 <= k < ranges@.len() && ranges@[k] == all@[j],
                ranges@ == all@.subrange(0, i as int).filter(|x: FoundCharRange| keep_spec(x)),
            decreases all@.len() - i,
        {
            let r = all[i];
            let ghost old_ranges = ranges@;
            if self.should_keep_range(&r) {
                ranges.push(r);
                proof {
                    assert(ranges@[old_ranges.len() as int] == all@[i as int]);
                }
            }
            proof {
                assert forall|j: int| 0 <= j < i + 1 && keep_spec(#[trigger] all@[j])
                    implies exists|k: int| 0 <= k < ranges@.len() && ranges@[k] == all@[j] by {
                    if j < i {
                        let k = choose|k: int| 0 <= k < old_ranges.len()
                            && old_ranges[k] == all@[j];
                        assert(ranges@[k] == old_ranges[k]);
                    } else {
                        assert(ranges@[old_ranges.len() as int] == all@[i as int]);
                    }
                }
                reveal(Seq::filter);
                assert(all@.subrange(0, i + 1).drop_last() =~= all@.subrange(0, i as int));
                assert(all@.subrange(0, i + 1).last() == all@[i as int]);
                lim = all@[i as int].end_spec();
                if i + 1 < all@.len() {
                    assert(all@[i as int].end_spec() <= all@[i + 1].start_char);
                }
            }
            i = i + 1;
        }
        proof {
            assert forall|c: int| 128 <= c < NUM_CHARS
                && #[trigger] self.beh(c) != CharCaseChanges::Never
                implies ranges_hold(ranges@, c) by {
                assert(ranges_hold(all@, c));
                let j = choose|j: int| 0 <= j < all@.len() && (#[trigger] all@[j]).contains(c);
                let rj = all@[j];
                assert(self.beh(rj.start_char + (c - rj.start_char))
                    == type_behavior(rj.kind, c - rj.start_char));
                assert(rj.start_char + (c - rj.start_char) == c);
                assert(keep_spec(rj));
                let k = choose|k: int| 0 <= k < ranges@.len() && ranges@[k] == all@[j];
                assert(ranges@[k].contains(c));
            }
            assert(all@.subrange(0, all@.len() as int) =~= all@);
            assert(ranges_partition(self, all@));
        }
        ranges
    }

    /// Whether the run needs a table entry.
    pub fn should_keep_range(&self, range: &FoundCharRange) -> (r: bool)
        requires
            range.end_spec() <= u32::MAX,
        ensures
            r == keep_spec(*range),
    {
        if range.kind == CharRangeType::Uniform(CharCaseChanges::Never) {
            false
        } else if range.end() <= 128 {
            false
        } else {
            true
        }
    }
}

/// Whether `t` is one of the two alternating run types.
pub open spec fn is_alt_type(t: CharRangeType) -> bool {
    t == CharRangeType::AlternatingUpperLower || t == CharRangeType::AlternatingLowerUpper
}

/// The type that splitting gives a piece of an alternating run: the
/// uniform type of its one codepoint for a piece of length 1, else the
/// alternating type that starts with its first codepoint's behavior.
pub open spec fn split_type(db: &CaseChangeDb, ch: FoundCharRange) -> CharRangeType {
    if ch.length == 1 {
        CharRangeType::Uniform(db.beh(ch.start_char as int))
    } else {
        alt_type_from(db.beh(ch.start_char as int))
    }
}

/// Whether `ch` is a valid piece of `r` when `r` is split into pieces of
/// at most `lenmax` codepoints.
pub open spec fn is_chunk_of(
    db: &CaseChangeDb,
    r: FoundCharRange,
    lenmax: int,
    ch: FoundCharRange,
) -> bool {
    &&& ch.range_ok(db)
    &&& ch.length <= lenmax
    &&& r.start_char <= ch.start_char
    &&& ch.end_spec() <= r.end_spec()
    &&& !is_alt_type(r.kind) ==> ch.kind == r.kind
    &&& is_alt_type(r.kind) && r.length >= lenmax ==> ch.kind == split_type(db, ch)
    &&& r.kind != CharRangeType::Uniform(CharCaseChanges::Never) ==> ch.kind
        != CharRangeType::Uniform(CharCaseChanges::Never)
}

/// Whether `v` is what splitting `r` into pieces of at most `lenmax`
/// codepoints gives: `r` itself when it is shorter than `lenmax`; else the
/// pieces from its start, each `lenmax` long but the last, which ends where
/// `r` ends, each with the type that `is_chunk_of` fixes.
pub open spec fn is_split_of(
    db: &CaseChangeDb,
    r: FoundCharRange,
    lenmax: int,
    v: Seq<FoundCharRange>,
) -> bool {
    &&& 1 <= v.len()
    &&& r.length < lenmax ==> v == seq![r]
    &&& forall|k: int| 0 <= k < v.len() ==> is_chunk_of(db, r, lenmax, #[trigger] v[k])
    &&& ranges_sorted(v)
    &&& forall|c: int| r.contains(c) ==> ranges_hold(v, c)
    &&& r.length >= lenmax ==> forall|k: int|
        0 <= k < v.len() ==> (#[trigger] v[k]).start_char == r.start_char + k * lenmax && (k
            < v.len() - 1 ==> v[k].length == lenmax)
    &&& v.last().end_spec() == r.end_spec()
}

/// What encoding makes of run `r`: `r` itself when a record can hold it,
/// else its split into pieces of at most a record's length.
pub open spec fn is_encoding_group(db: &CaseChangeDb, r: FoundCharRange, g: Seq<FoundCharRange>) -> bool {
    if r.length <= RANGE_ENCODING_MAX_LEN {
        g == seq![r]
    } else {
        is_split_of(db, r, RANGE_ENCODING_MAX_LEN as int, g)
    }
}

/// The groups joined in order.
pub open spec fn concat_groups(gs: Seq<Seq<FoundCharRange>>) -> Seq<FoundCharRange>
    decreases gs.len(),
{
    if gs.len() == 0 {
        Seq::empty()
    } else {
        concat_groups(gs.drop_last()) + gs.last()
    }
}

/// Within an alternating run, the part from offset `off` follows the
/// alternating type that starts with the behavior at `off`.
proof fn lemma_alt_shift(t: CharRangeType, off: int, k: int)
    requires
        is_alt_type(t),
        0 <= off,
        0 <= k,
    ensures
        type_behavior(alt_type_from(type_behavior(t, off)), k) == type_behavior(t, off + k),
{
    if off % 2 == 0 {
        assert((off + k) % 2 == k % 2);
    } else {
        assert((off + k) % 2 != k % 2);
    }
}

/// The table answers, for every codepoint outside ASCII and for both
/// mappings, what the database's behavior for it says.
pub open spec fn table_agrees(db: &CaseChangeDb, tab: Seq<u32>) -> bool {
    forall|c: int, map_lower: bool|
        128 <= c < NUM_CHARS ==> #[trigger] table_answer(tab, c, map_lower) == changes_under(
            db.beh(c),
            map_lower,
        )
}

/// The records of sorted runs, each of at most a record's length, decode
/// to those runs and form a sorted table.
pub proof fn lemma_encoded_records(db: &CaseChangeDb, rs: Seq<FoundCharRange>, tab: Seq<u32>)
    requires
        runs_ok(db, rs),
        forall|k: int| 0 <= k < rs.len() ==> (#[trigger] rs[k]).length <= RANGE_ENCODING_MAX_LEN,
        tab.len() == rs.len(),
        forall|k: int| 0 <= k < rs.len() ==> #[trigger] tab[k] == rs[k].encode_spec(),
    ensures
        table_sorted(tab),
        forall|k: int| 0 <= k < rs.len() ==> rec_start(#[trigger] tab[k]) == rs[k].start_char
            && rec_len(tab[k]) == rs[k].length && rec_kind(tab[k]) == type_code(rs[k].kind)->0,
        forall|k: int| 0 <= k < tab.len()
            ==> 1 <= rec_len(#[trigger] tab[k]) <= RANGE_ENCODING_MAX_LEN,
{
    assert forall|k: int| 0 <= k < rs.len() implies rec_start(#[trigger] tab[k])
        == rs[k].start_char && rec_len(tab[k]) == rs[k].length && rec_kind(tab[k]) == type_code(
        rs[k].kind,
    )->0 by {
        let r = rs[k];
        assert(r.range_ok(db));
        lemma_code_behavior(r.kind, 0);
        lemma_round_trip(type_code(r.kind)->0, r.start_char, r.length as u32);
    }
    assert forall|i: int, j: int| 0 <= i < j < tab.len() implies rec_start(#[trigger] tab[i])
        + rec_len(tab[i]) <= rec_start(#[trigger] tab[j]) by {
        assert(rs[i].end_spec() <= rs[j].start_char);
    }
}

/// Encoding runs that a table needs, each of at most the record's length,
/// gives a sorted table that agrees with the database outside ASCII.
pub proof fn lemma_encoded_agrees(db: &CaseChangeDb, rs: Seq<FoundCharRange>, tab: Seq<u32>)
    requires
        db.wf(),
        ranges_ok(db, rs),
        forall|k: int| 0 <= k < rs.len() ==> (#[trigger] rs[k]).length <= RANGE_ENCODING_MAX_LEN,
        tab.len() == rs.len(),
        forall|k: int| 0 <= k < rs.len() ==> #[trigger] tab[k] == rs[k].encode_spec(),
    ensures
        table_sorted(tab),
        table_agrees(db, tab),
        forall|k: int| 0 <= k < tab.len()
            ==> 1 <= rec_len(#[trigger] tab[k]) <= RANGE_ENCODING_MAX_LEN,
{
    lemma_encoded_records(db, rs, tab);
    assert forall|c: int, map_lower: bool| 128 <= c < NUM_CHARS implies #[trigger] table_answer(
        tab,
        c,
        map_lower,
    ) == changes_under(db.beh(c), map_lower) by {
        if db.beh(c) != CharCaseChanges::Never {
            assert(ranges_hold(rs, c));
            let k = choose|k: int| 0 <= k < rs.len() && (#[trigger] rs[k]).contains(c);
            let r = rs[k];
            assert(rec_contains(tab[k], c));
            lemma_lookup_unique(tab, c, k);
            lemma_code_behavior(r.kind, c - r.start_char);
            assert(db.beh(r.start_char + (c - r.start_char))
                == type_behavior(r.kind, c - r.start_char));
            assert(r.start_char + (c - r.start_char) == c);
        } else if table_holds(tab, c) {
            let k = choose|k: int| 0 <= k < tab.len() && rec_contains(#[trigger] tab[k], c);
            let r = rs[k];
            assert(db.beh(r.start_char + (c - r.start_char))
                == type_behavior(r.kind, c - r.start_char));
            assert(r.start_char + (c - r.start_char) == c);
        }
    }
}

impl FoundCharRange {
    /// Splits the run into consecutive pieces of at most `lenmax`
    /// codepoints; a run shorter than `lenmax` stays whole. Pieces of an
    /// alternating run take their type from their own first codepoint.
    pub fn split_into_chunks(&self, db: &CaseChangeDb, lenmax: usize) -> (v: Vec<Self>)
        requires
            db.wf(),
            self.range_ok(db),
            1 <= lenmax,
        ensures
            is_split_of(db, *self, lenmax as int, v@),
    {
        let mut v: Vec<Self> = Vec::new();
        if self.length < lenmax {
            v.push(*self);
            proof {
                assert(v@ == seq![*self]);
                assert forall|c: int| self.contains(c) implies ranges_hold(v@, c) by {
                    assert(v@[0].contains(c));
                }
            }
        } else {
            let mut c0 = self.start_char;
            let end = self.end();
            while c0 < end
                invariant
                    db.wf(),
                    self.range_ok(db),
                    1 <= lenmax <= self.length,
                    end == self.end_spec(),
                    self.start_char <= c0 <= end,
                    forall|k: int| 0 <= k < v@.len()
                        ==> is_chunk_of(db, *self, lenmax as int, #[trigger] v@[k]),
                    forall|k: int| 0 <= k < v@.len() ==> (#[trigger] v@[k]).end_spec() <= c0,
                    ranges_sorted(v@),
                    forall|c: int| self.start_char <= c < c0 ==> ranges_hold(v@, c),
                    c0 > self.start_char ==> v@.len() >= 1,
                    c0 > self.start_char ==> v@.last().end_spec() == c0,
                    c0 == self.start_char + v@.len() * lenmax || c0 == end,
                    forall|k: int|
                        0 <= k < v@.len() ==> (#[trigger] v@[k]).start_char == self.start_char + k
                            * lenmax && (k < v@.len() - 1 ==> v@[k].length == lenmax),
                decreases end - c0,
            {
                let remaining = end - c0;
                let new_len: u32 = if (remaining as usize) < lenmax {
                    remaining
                } else {
                    lenmax as u32
                };
                let ghost off: int = c0 - self.start_char;
                proof {
                    assert(db.beh(self.start_char + off) == type_behavior(self.kind, off));
                    assert(self.start_char + off == c0);
                }
                let new_kind = if self.kind.is_alt() {
                    let chty = db.info(c0).case_enum();
                    if new_len == 1 {
                        CharRangeType::Uniform(chty)
                    } else if chty == CharCaseChanges::LowerOnly {
                        CharRangeType::AlternatingLowerUpper
                    } else {
                        CharRangeType::AlternatingUpperLower
                    }
                } else {
                    self.kind
                };
                let piece = FoundCharRange { start_char: c0, length: new_len as usize, kind: new_kind };
                proof {
                    assert forall|k: int| 0 <= k < piece.length
                        implies #[trigger] db.beh(piece.start_char + k)
                        == type_behavior(piece.kind, k) by {
                        assert(db.beh(self.start_char + (off + k))
                            == type_behavior(self.kind, off + k));
                        assert(self.start_char + (off + k) == piece.start_char + k);
                        if is_alt_type(self.kind) {
                            lemma_alt_shift(self.kind, off, k);
                            if piece.length == 1 {
                                assert(k == 0);
                                assert(piece.start_char + 0 == c0);
                            }
                        }
                    }
                }
                let ghost old_v = v@;
                v.push(piece);
                proof {
                    assert(c0 == self.start_char + old_v.len() * lenmax) by {
                        if c0 == end {
                            assert(false);
                        }
                    }
                    assert(self.start_char + old_v.len() * lenmax + lenmax
                        == self.start_char + (old_v.len() + 1) * lenmax) by (nonlinear_arith);
                    if old_v.len() > 0 {
                        assert(old_v.last().end_spec() == c0);
                        assert(old_v[old_v.len() - 1] == v@[old_v.len() - 1]);
                        assert(old_v[old_v.len() - 1].length == lenmax) by {
                            assert(old_v[old_v.len() - 1].start_char
                                == self.start_char + (old_v.len() - 1) * lenmax);
                            assert(self.start_char + (old_v.len() - 1) * lenmax + lenmax
                                == self.start_char + old_v.len() * lenmax) by (nonlinear_arith);
                        }
                    }
                    assert forall|c: int| self.start_char <= c < c0 + new_len
                        implies ranges_hold(v@, c) by {
                        if c < c0 {
                            assert(ranges_hold(old_v, c));
                            let k = choose|k: int| 0 <= k < old_v.len()
                                && (#[trigger] old_v[k]).contains(c);
                            assert(v@[k] == old_v[k]);
                        } else {
                            assert(v@[old_v.len() as int].contains(c));
                        }
                    }
                }
                c0 = c0 + new_len;
            }
        }
        v
    }
}

impl CaseChangeDb {
    /// Splits every run longer than a record can hold, and encodes each
    /// resulting run as a record.
    pub fn splitify_ranges_for_encoding(&self, rs: &[FoundCharRange]) -> (r: (
        Vec<FoundCharRange>,
        Vec<u32>,
    ))
        requires
            self.wf(),
            runs_ok(self, rs@),
        ensures
            exists|gs: Seq<Seq<FoundCharRange>>|
                gs.len() == rs@.len() && r.0@ == concat_groups(gs) && forall|j: int|
                    0 <= j < rs@.len() ==> is_encoding_group(self, rs@[j], #[trigger] gs[j]),
            runs_ok(self, r.0@),
            forall|k: int| 0 <= k < r.0@.len()
                ==> 1 <= (#[trigger] r.0@[k]).length <= RANGE_ENCODING_MAX_LEN,
            r.1@.len() == r.0@.len(),
            forall|k: int| 0 <= k < r.0@.len() ==> #[trigger] r.1@[k] == r.0@[k].encode_spec(),
            forall|k: int| 0 <= k < r.0@.len() ==> record_matches(r.0@[k], #[trigger] r.1@[k]),
            table_sorted(r.1@),
            forall|k: int| 0 <= k < r.1@.len()
                ==> 1 <= rec_len(#[trigger] r.1@[k]) <= RANGE_ENCODING_MAX_LEN,
            forall|c: int| ranges_hold(rs@, c) ==> ranges_hold(r.0@, c),
            covers_cased(self, rs@) ==> ranges_ok(self, r.0@) && table_agrees(self, r.1@),
            covers_cased(self, rs@) && self.matches_oracle() ==> encoding_ok(r.0@, r.1@),
    {
        let mut split: Vec<FoundCharRange> = Vec::new();
        let mut i: usize = 0;
        let ghost mut lim: int = 0;
        let ghost mut gs: Seq<Seq<FoundCharRange>> = Seq::empty();
        while i < rs.len()
            invariant
                self.wf(),
                runs_ok(self, rs@),
                i <= rs@.len(),
                i == 0 ==> lim == 0,
                i > 0 ==> lim == rs@[i - 1].end_spec(),
                gs.len() == i,
                split@ == concat_groups(gs),
                forall|j: int| 0 <= j < i ==> is_encoding_group(self, rs@[j], #[trigger] gs[j]),
                forall|k: int| 0 <= k < split@.len() ==> (#[trigger] split@[k]).range_ok(self)
                    && split@[k].kind != CharRangeType::Uniform(CharCaseChanges::Never)
                    && split@[k].length <= RANGE_ENCODING_MAX_LEN
                    && split@[k].end_spec() <= lim,
                ranges_sorted(split@),
                forall|j: int, c: int| 0 <= j < i && #[trigger] rs@[j].contains(c)
                    ==> ranges_hold(split@, c),
            decreases rs@.len() - i,
        {
            let rng = rs[i];
            let ghost old_split = split@;
            proof {
                if i > 0 {
                    assert(rs@[i - 1].end_spec() <= rs@[i as int].start_char);
                }
                assert(rng.range_ok(self));
            }
            let mut chunks: Vec<FoundCharRange> = Vec::new();
            if rng.length <= RANGE_ENCODING_MAX_LEN {
                chunks.push(rng);
                proof {
                    assert forall|c: int| rng.contains(c) implies ranges_hold(chunks@, c) by {
                        assert(chunks@[0].contains(c));
                    }
                }
            } else {
                chunks = rng.split_into_chunks(self, RANGE_ENCODING_MAX_LEN);
            }
            let ghost ch = chunks@;
            split.append(&mut chunks);
            proof {
                assert(split@ == old_split + ch);
                let ghost old_gs = gs;
                gs = gs.push(ch);
                assert(gs.drop_last() =~= old_gs);
                assert(concat_groups(gs) == concat_groups(old_gs) + ch);
                assert forall|j: int| 0 <= j < i + 1 implies is_encoding_group(
                    self,
                    rs@[j],
                    #[trigger] gs[j],
                ) by {
                    if j < i {
                        assert(gs[j] == old_gs[j]);
                    }
                }
                assert forall|k: int| 0 <= k < split@.len()
                    implies (#[trigger] split@[k]).range_ok(self)
                    && split@[k].kind != CharRangeType::Uniform(CharCaseChanges::Never)
                    && split@[k].length <= RANGE_ENCODING_MAX_LEN
                    && split@[k].end_spec() <= rng.end_spec() by {
                    if k >= old_split.len() {
                        assert(split@[k] == ch[k - old_split.len()]);
                    } else {
                        assert(split@[k] == old_split[k]);
                    }
                }
                assert forall|a: int, b: int| 0 <= a < b < split@.len()
                    implies (#[trigger] split@[a]).end_spec()
                    <= (#[trigger] split@[b]).start_char by {
                    if b < old_split.len() {
                        assert(split@[a] == old_split[a]);
                        assert(split@[b] == old_split[b]);
                    } else if a < old_split.len() {
                        assert(split@[a] == old_split[a]);
                        assert(split@[b] == ch[b - old_split.len()]);
                    } else {
                        assert(split@[a] == ch[a - old_split.len()]);
                        assert(split@[b] == ch[b - old_split.len()]);
                    }
                }
                assert forall|j: int, c: int| 0 <= j < i + 1 && #[trigger] rs@[j].contains(c)
                    implies ranges_hold(split@, c) by {
                    if j < i {
                        assert(ranges_hold(old_split, c));
                        let k = choose|k: int| 0 <= k < old_split.len()
                            && (#[trigger] old_split[k]).contains(c);
                        assert(split@[k] == old_split[k]);
                    } else {
                        assert(ranges_hold(ch, c));
                        let m = choose|m: int| 0 <= m < ch.len() && (#[trigger] ch[m]).contains(c);
                        assert(split@[old_split.len() + m] == ch[m]);
                    }
                }
                lim = rng.end_spec();
            }
            i = i + 1;
        }
        proof {
            assert forall|c: int| ranges_hold(rs@, c) implies ranges_hold(split@, c) by {
                let j = choose|j: int| 0 <= j < rs@.len() && (#[trigger] rs@[j]).contains(c);
            }
        }
        let mut enc: Vec<u32> = Vec::new();
        let mut k: usize = 0;
        while k < split.len()
            invariant
                self.wf(),
                runs_ok(self, split@),
                forall|m: int| 0 <= m < split@.len()
                    ==> (#[trigger] split@[m]).length <= RANGE_ENCODING_MAX_LEN,
                k <= split@.len(),
                enc@.len() == k,
                forall|m: int| 0 <= m < k ==> #[trigger] enc@[m] == split@[m].encode_spec(),
            decreases split@.len() - k,
        {
            let r = split[k];
            proof {
                assert(r.range_ok(self));
            }
            enc.push(r.encode());
            k = k + 1;
        }
        proof {
            lemma_encoded_records(self, split@, enc@);
            assert forall|m: int| 0 <= m < split@.len() implies 1 <= (#[trigger] split@[m]).length
                <= RANGE_ENCODING_MAX_LEN by {
                assert(split@[m].range_ok(self));
            }
            assert forall|m: int| 0 <= m < split@.len() implies record_matches(
                split@[m],
                #[trigger] enc@[m],
            ) by {
                assert(rec_start(enc@[m]) == split@[m].start_char);
                assert(split@[m].range_ok(self));
                lemma_code_behavior(split@[m].kind, 0);
            }
            if covers_cased(self, rs@) {
                assert forall|c: int| 128 <= c < NUM_CHARS
                    && #[trigger] self.beh(c) != CharCaseChanges::Never
                    implies ranges_hold(split@, c) by {
                    assert(ranges_hold(rs@, c));
                }
                lemma_encoded_agrees(self, split@, enc@);
                if self.matches_oracle() {
                    lemma_generated_table_passes(self, split@, enc@);
                }
            }
        }
        (split, enc)
    }
}

/// Decoding the record of a run gives back the run's kind tag, start
/// codepoint and length, whenever the run has a tag and fits a record.
pub proof fn lemma_range_round_trip(d: FoundCharRange)
    requires
        type_code(d.kind) is Some,
        d.start_char < 0x200000,
        d.length <= RANGE_ENCODING_MAX_LEN,
    ensures
        (rec_kind(d.encode_spec()), rec_start(d.encode_spec()), rec_len(d.encode_spec())) == (
            type_code(d.kind)->0,
            d.start_char,
            d.length as u32,
        ),
{
    lemma_code_behavior(d.kind, 0);
    lemma_round_trip(type_code(d.kind)->0, d.start_char, d.length as u32);
}

/// A table that agrees with a database built from the case-mapping oracle
/// answers, for every scalar value outside ASCII, exactly what the oracle
/// says of lowercasing and of uppercasing it.
pub proof fn lemma_oracle_agreement(db: &CaseChangeDb, tab: Seq<u32>, c: char, map_lower: bool)
    requires
        db.wf(),
        db.matches_oracle(),
        table_agrees(db, tab),
        128 <= c as u32,
    ensures
        changes_when_cased_spec(tab, c as u32 as int, map_lower) == if map_lower {
            lower_of(c) != seq![c]
        } else {
            upper_of(c) != seq![c]
        },
{
    let cp = c as u32;
    vstd::utf8::char_is_scalar(c);
    vstd::utf8::char_u32_cast(c, cp);
    assert(is_scalar_value(cp as int));
    assert(table_answer(tab, cp as int, map_lower) == changes_under(db.beh(cp as int), map_lower));
    let info = db.infos@[cp as int];
    assert(db.info_spec(cp as int) == info);
}

/// A record matches the run at the same index: same start, same length,
/// and the run's kind tag.
pub open spec fn record_matches(r: FoundCharRange, e: u32) -> bool {
    r.start_char == rec_start(e) && r.length == rec_len(e) && type_code(r.kind) == Some(rec_kind(e))
}

/// The behavior that the case-mapping oracle gives the scalar value `c`.
pub open spec fn oracle_behavior(c: int) -> CharCaseChanges {
    behavior_of(oracle_lower(c), oracle_upper(c))
}

/// What the check demands of codepoint `c`: no record holds it exactly
/// when the oracle says it never changes; a record that holds it matches
/// its run.
pub open spec fn encoding_ok_at(rs: Seq<FoundCharRange>, tab: Seq<u32>, c: int) -> bool {
    if table_holds(tab, c) {
        exists|i: int|
            0 <= i < tab.len() && rec_contains(#[trigger] tab[i], c) && oracle_behavior(c)
                != CharCaseChanges::Never && record_matches(rs[i], tab[i])
    } else {
        oracle_behavior(c) == CharCaseChanges::Never
    }
}

/// The table is sorted, pairs with the runs one to one, and meets
/// `encoding_ok_at` on every scalar value outside ASCII.
pub open spec fn encoding_ok(rs: Seq<FoundCharRange>, tab: Seq<u32>) -> bool {
    &&& table_sorted(tab)
    &&& rs.len() == tab.len()
    &&& forall|c: int|
        128 <= c < NUM_CHARS && is_scalar_value(c) ==> #[trigger] encoding_ok_at(rs, tab, c)
}

/// The runs and records that splitting and encoding produce from a
/// database built by the oracle pass the check.
pub proof fn lemma_generated_table_passes(db: &CaseChangeDb, rs: Seq<FoundCharRange>, tab: Seq<u32>)
    requires
        db.wf(),
        db.matches_oracle(),
        ranges_ok(db, rs),
        forall|k: int| 0 <= k < rs.len() ==> (#[trigger] rs[k]).length <= RANGE_ENCODING_MAX_LEN,
        tab.len() == rs.len(),
        forall|k: int| 0 <= k < rs.len() ==> #[trigger] tab[k] == rs[k].encode_spec(),
    ensures
        encoding_ok(rs, tab),
{
    lemma_encoded_agrees(db, rs, tab);
    assert forall|c: int| 128 <= c < NUM_CHARS && is_scalar_value(c)
        implies #[trigger] encoding_ok_at(rs, tab, c) by {
        assert(db.info_spec(c) == db.infos@[c]);
        assert(db.beh(c) == oracle_behavior(c));
        assert(table_answer(tab, c, true) == changes_under(db.beh(c), true));
        assert(table_answer(tab, c, false) == changes_under(db.beh(c), false));
        if table_holds(tab, c) {
            let k = choose|k: int| 0 <= k < tab.len() && rec_contains(#[trigger] tab[k], c);
            lemma_lookup_unique(tab, c, k);
            lemma_range_round_trip(rs[k]);
            lemma_code_behavior(rs[k].kind, c - rec_start(tab[k]));
            assert(record_matches(rs[k], tab[k]));
        }
    }
}

impl CaseChangeDb {
    /// Checks the encoded table against the runs it came from and against
    /// the case-mapping oracle, on every scalar value outside ASCII.
    pub fn check_encoding(&self, rs: &[FoundCharRange], table: &[u32]) -> (r: bool)
        requires
            rs@.len() == table@.len(),
        ensures
            r == encoding_ok(rs@, table@),
    {
        if table.len() > 1 {
            let mut i: usize = 1;
            while i < table.len()
                invariant
                    1 <= i <= table@.len(),
                    forall|a: int, b: int| 0 <= a < b < i
                        ==> rec_start(#[trigger] table@[a]) + rec_len(table@[a])
                        <= rec_start(#[trigger] table@[b]),
                decreases table@.len() - i,
            {
                let (_, prev_st, prev_len) = decode_direct(table[i - 1]);
                let (_, st, _) = decode_direct(table[i]);
                if prev_st + prev_len > st {
                    proof {
                        assert(!table_sorted(table@)) by {
                            assert(!(rec_start(table@[i - 1]) + rec_len(table@[i - 1])
                                <= rec_start(table@[i as int])));
                        }
                    }
                    return false;
                }
                proof {
                    assert forall|a: int, b: int| 0 <= a < b < i + 1
                        implies rec_start(#[trigger] table@[a]) + rec_len(table@[a])
                        <= rec_start(#[trigger] table@[b]) by {
                        if b == i && a < i - 1 {
                            assert(rec_start(table@[a]) + rec_len(table@[a])
                                <= rec_start(table@[i - 1]));
                        }
                    }
                }
                i = i + 1;
            }
        }
        assert(table_sorted(table@));
        let mut cp: u32 = 128;
        while (cp as usize) < NUM_CHARS
            invariant
                128 <= cp <= NUM_CHARS,
                table_sorted(table@),
                rs@.len() == table@.len(),
                forall|c: int| 128 <= c < cp && is_scalar_value(c)
                    ==> #[trigger] encoding_ok_at(rs@, table@, c),
            decreases NUM_CHARS - cp,
        {
            if let Some(ch) = char_from_u32(cp) {
                let res = oracle_info(ch, cp);
                let beh = res.case_enum();
                let ok = match find_range_index(cp, table) {
                    None => beh == CharCaseChanges::Never,
                    Some(i) => {
                        let (re_kind, re_ch, re_len) = decode_direct(table[i]);
                        let real_range = rs[i];
                        beh != CharCaseChanges::Never && real_range.start_char == re_ch
                            && real_range.length == re_len as usize
                            && match real_range.kind.encode() {
                            Some(k) => k == re_kind,
                            None => false,
                        }
                    },
                };
                proof {
                    if table_holds(table@, cp as int) {
                        let k = choose|k: int| 0 <= k < table@.len()
                            && rec_contains(#[trigger] table@[k], cp as int);
                        assert forall|j: int| 0 <= j < table@.len()
                            && rec_contains(#[trigger] table@[j], cp as int) implies j == k by {
                            lemma_index_unique(table@, cp as int, j, k);
                        }
                    }
                }
                if !ok {
                    assert(!encoding_ok_at(rs@, table@, cp as int));
                    return false;
                }
            }
            cp = cp + 1;
        }
        true
    }
}

} // verus!
