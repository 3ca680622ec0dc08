//! Character-level diffing: indexed text buffers, the longest-common-
//! subsequence anchors, the edit script that classifies every character as
//! an addition, a deletion or common, the rope that rebuilds the changed
//! text, and the colored renderings.

use vstd::prelude::*;
use vstd::string::StrSliceExecFns;
use crate::lcs::{lcs_len, is_match, pairs_int, lcs_pairs, chosen_match};
use crate::strutil::chars_to_string;

verus! {

/// A generic pair, used for table cells and coordinates.
#[derive(Clone)]
pub struct Pair<T, U> {
    pub first: T,
    pub second: U,
}

impl<T, U> Pair<T, U> {
    pub fn new(first: T, second: U) -> (r: Pair<T, U>)
        ensures
            r.first == first,
            r.second == second,
    {
        Pair { first, second }
    }
}

/// The mathematical content of one character position.
pub ghost struct IndexModel {
    pub line: nat,
    pub column: nat,
    pub flat: nat,
}

/// A character's position: its line, its column in that line, and its flat
/// offset from the start of the buffer.
#[derive(Clone, Copy, Debug)]
pub struct Index {
    pub line: usize,
    pub column: usize,
    pub flat: usize,
}

impl View for Index {
    type V = IndexModel;

    open spec fn view(&self) -> IndexModel {
        IndexModel {
            line: self.line as nat,
            column: self.column as nat,
            flat: self.flat as nat,
        }
    }
}

/// The line number of position i: the count of newlines before it.
pub open spec fn line_at(s: Seq<char>, i: int) -> nat
    decreases i,
{
    if i <= 0 {
        0
    } else {
        line_at(s, i - 1) + (if s[i - 1] == '\n' {
            1nat
        } else {
            0nat
        })
    }
}

/// The column of position i: how far it stands after the last newline.
pub open spec fn col_at(s: Seq<char>, i: int) -> nat
    decreases i,
{
    if i <= 0 {
        0
    } else if s[i - 1] == '\n' {
        0
    } else {
        col_at(s, i - 1) + 1
    }
}

/// The canonical position of offset i in buffer s.
pub open spec fn index_at(s: Seq<char>, i: int) -> IndexModel {
    IndexModel { line: line_at(s, i), column: col_at(s, i), flat: i as nat }
}

/// The characters of line n among the first i characters, in order; a
/// line's terminating newline belongs to it.
pub open spec fn line_chars(s: Seq<char>, n: nat, i: int) -> Seq<char>
    decreases i,
{
    if i <= 0 {
        Seq::empty()
    } else {
        line_chars(s, n, i - 1) + (if line_at(s, i - 1) == n {
            seq![s[i - 1]]
        } else {
            Seq::empty()
        })
    }
}

/// Whether any character of s lies on line n.
pub open spec fn has_line(s: Seq<char>, n: nat) -> bool {
    exists|i: int| 0 <= i < s.len() && line_at(s, i) == n
}

/// A text buffer with one `Index` per character, built once by a single
/// left-to-right scan and read-only thereafter.
pub struct IndexedString {
    pub content: String,
    pub chars: Vec<char>,
    pub indices: Vec<Index>,
}

impl IndexedString {
    /// The chars mirror the content and every index is the canonical
    /// position of its offset.
    pub open spec fn wf(self) -> bool {
        &&& self.chars@ == self.content@
        &&& self.indices@.len() == self.chars@.len()
        &&& forall|i: int|
            0 <= i < self.indices@.len() ==> (#[trigger] self.indices@[i])@ == index_at(
                self.content@,
                i,
            )
    }

    /// Indexes a buffer: line counts up after each newline, the column
    /// resets to zero there, and the flat offset counts every character.
    pub fn new(content: String) -> (r: IndexedString)
        ensures
            r.wf(),
            r.content@ == content@,
    {
        let n = content.as_str().unicode_len();
        let mut chars: Vec<char> = Vec::new();
        let mut k: usize = 0;
        while k < n
            invariant
                n == content@.len(),
                k <= n,
                chars@ =~= content@.subrange(0, k as int),
            decreases n - k,
        {
            chars.push(content.as_str().get_char(k));
            proof {
                assert(chars@ =~= content@.subrange(0, k + 1));
            }
            k = k + 1;
        }
        proof {
            assert(content@.subrange(0, n as int) =~= content@);
        }
        let mut indices: Vec<Index> = Vec::new();
        let mut line: usize = 0;
        let mut column: usize = 0;
        let mut flat: usize = 0;
        let mut i: usize = 0;
        while i < n
            invariant
                n == content@.len(),
                chars@ == content@,
                i <= n,
                flat == i,
                line == line_at(content@, i as int),
                column == col_at(content@, i as int),
                line <= i,
                column <= i,
                indices@.len() == i,
                forall|t: int|
                    0 <= t < i ==> (#[trigger] indices@[t])@ == index_at(content@, t),
            decreases n - i,
        {
            indices.push(Index { line, column, flat });
            let c = chars[i];
            flat = flat + 1;
            if c == '\n' {
                line = line + 1;
                column = 0;
            } else {
                column = column + 1;
            }
            i = i + 1;
        }
        IndexedString { content, chars, indices }
    }

    /// The number of characters in the buffer.
    pub fn len(&self) -> (r: usize)
        ensures
            r == self.chars@.len(),
    {
        self.chars.len()
    }

    /// Collects the characters of line `line_number`, and whether the
    /// buffer has such a line at all.
    fn collect_line(&self, line_number: usize) -> (r: (Vec<char>, bool))
        requires
            self.wf(),
        ensures
            r.0@ == line_chars(self.content@, line_number as nat, self.content@.len() as int),
            r.1 == has_line(self.content@, line_number as nat),
    {
        let ghost s = self.content@;
        let ghost n = line_number as nat;
        let mut out: Vec<char> = Vec::new();
        let mut found = false;
        let mut i: usize = 0;
        let count = self.chars.len();
        while i < count
            invariant
                self.wf(),
                s == self.content@,
                n == line_number as nat,
                count == self.chars@.len(),
                i <= count,
                out@ == line_chars(s, n, i as int),
                found == exists|t: int| 0 <= t < i && line_at(s, t) == n,
            decreases count - i,
        {
            proof {
                assert(self.indices@[i as int]@ == index_at(s, i as int));
            }
            if self.indices[i].line == line_number {
                out.push(self.chars[i]);
                found = true;
                proof {
                    assert(line_at(s, i as int) == n);
                    assert(out@ =~= line_chars(s, n, i + 1));
                }
            } else {
                proof {
                    assert(out@ =~= line_chars(s, n, i + 1));
                    if exists|t: int| 0 <= t < i + 1 && line_at(s, t) == n {
                        let t = choose|t: int| 0 <= t < i + 1 && line_at(s, t) == n;
                        assert(t < i);
                    }
                }
            }
            i = i + 1;
        }
        (out, found)
    }

    /// The text of line `line_number`, its newline included, or nothing
    /// when the buffer has no such line.
    pub fn get_line(&self, line_number: usize) -> (r: Option<String>)
        requires
            self.wf(),
        ensures
            match r {
                Some(t) => has_line(self.content@, line_number as nat) && t@ == line_chars(
                    self.content@,
                    line_number as nat,
                    self.content@.len() as int,
                ),
                None => !has_line(self.content@, line_number as nat),
            },
    {
        let r = self.collect_line(line_number);
        if r.1 {
            Some(chars_to_string(&r.0))
        } else {
            None
        }
    }
}

/// One matched character of the longest common subsequence, with its
/// position in each buffer.
#[derive(Clone)]
pub struct LCSChar {
    pub value: char,
    pub source_index: Index,
    pub changed_index: Index,
}

impl LCSChar {
    pub fn new(v: char, s: Index, c: Index) -> (r: LCSChar)
        ensures
            r.value == v,
            r.source_index == s,
            r.changed_index == c,
    {
        LCSChar { value: v, source_index: s, changed_index: c }
    }
}

/// Whether an edit-script character was added in the changed buffer or
/// deleted from the source buffer.
#[derive(Clone, Copy, Debug, PartialEq, Eq, PartialOrd, Ord, Structural)]
pub enum DiffCharType {
    Addition,
    Deletion,
}

/// One edit-script operation: a character, its position in the buffer it
/// belongs to, and whether it was added or deleted.
#[derive(Clone)]
pub struct DiffChar {
    pub value: char,
    pub index: Index,
    pub char_type: DiffCharType,
}

/// A pair of indexed buffers with their common-subsequence anchors and the
/// edit script built from them.
pub struct Diff {
    pub source: IndexedString,
    pub changed: IndexedString,
    pub lcs: Vec<LCSChar>,
    pub diff: Vec<DiffChar>,
}

/// The position pairs that the anchor list denotes.
pub open spec fn anchor_pairs(lcs: Seq<LCSChar>) -> Seq<(int, int)> {
    Seq::new(
        lcs.len(),
        |k: int| (lcs[k].source_index.flat as int, lcs[k].changed_index.flat as int),
    )
}

/// The buffers are indexed, the anchors are a matching of their character
/// sequences, and each anchor carries the matched character and the
/// canonical positions of its two offsets.
pub open spec fn anchors_ok(source: IndexedString, changed: IndexedString, lcs: Seq<LCSChar>) -> bool {
    &&& source.wf()
    &&& changed.wf()
    &&& is_match(source.chars@, changed.chars@, anchor_pairs(lcs))
    &&& forall|k: int|
        0 <= k < lcs.len() ==> {
            let e = #[trigger] lcs[k];
            &&& e.source_index@ == index_at(source.content@, e.source_index.flat as int)
            &&& e.changed_index@ == index_at(changed.content@, e.changed_index.flat as int)
            &&& e.value == source.chars@[e.source_index.flat as int]
        }
}

/// Whether some anchor occupies source offset sf.
pub open spec fn src_matched_in(lcs: Seq<LCSChar>, sf: int) -> bool {
    exists|k: int| 0 <= k < lcs.len() && (#[trigger] lcs[k]).source_index.flat == sf
}

/// Whether some anchor occupies changed offset cf.
pub open spec fn ch_matched_in(lcs: Seq<LCSChar>, cf: int) -> bool {
    exists|k: int| 0 <= k < lcs.len() && (#[trigger] lcs[k]).changed_index.flat == cf
}

/// d is the deletion of source offset sf: the character there, its
/// canonical position, and no anchor claims the offset.
pub open spec fn is_del_at(source: IndexedString, lcs: Seq<LCSChar>, d: DiffChar, sf: int) -> bool {
    &&& d.char_type == DiffCharType::Deletion
    &&& d.index.flat == sf
    &&& 0 <= sf < source.chars@.len()
    &&& !src_matched_in(lcs, sf)
    &&& d.value == source.chars@[sf]
    &&& d.index@ == index_at(source.content@, sf)
}

/// d is the addition of changed offset cf, symmetrically.
pub open spec fn is_add_at(changed: IndexedString, lcs: Seq<LCSChar>, d: DiffChar, cf: int) -> bool {
    &&& d.char_type == DiffCharType::Addition
    &&& d.index.flat == cf
    &&& 0 <= cf < changed.chars@.len()
    &&& !ch_matched_in(lcs, cf)
    &&& d.value == changed.chars@[cf]
    &&& d.index@ == index_at(changed.content@, cf)
}

/// How many leading anchors lie strictly before source offset sf: the
/// region of the scan in which offset sf is consumed.
pub open spec fn src_round(lcs: Seq<LCSChar>, sf: int) -> int
    decreases lcs.len(),
{
    if lcs.len() == 0 {
        0
    } else if lcs.first().source_index.flat < sf {
        1 + src_round(lcs.drop_first(), sf)
    } else {
        0
    }
}

/// How many leading anchors lie strictly before changed offset cf.
pub open spec fn ch_round(lcs: Seq<LCSChar>, cf: int) -> int
    decreases lcs.len(),
{
    if lcs.len() == 0 {
        0
    } else if lcs.first().changed_index.flat < cf {
        1 + ch_round(lcs.drop_first(), cf)
    } else {
        0
    }
}

/// When the first d anchors lie below sf and the next does not, sf's
/// region is exactly d.
proof fn lemma_src_round_at(lcs: Seq<LCSChar>, sf: int, d: int)
    requires
        0 <= d <= lcs.len(),
        forall|t: int| 0 <= t < d ==> (#[trigger] lcs[t]).source_index.flat < sf,
        d < lcs.len() ==> lcs[d].source_index.flat >= sf,
    ensures
        src_round(lcs, sf) == d,
    decreases lcs.len(),
{
    if lcs.len() > 0 && d > 0 {
        assert(lcs.first() == lcs[0]);
        assert(forall|t: int|
            0 <= t < lcs.len() - 1 ==> (#[trigger] lcs.drop_first()[t]) == lcs[t + 1]);
        lemma_src_round_at(lcs.drop_first(), sf, d - 1);
    }
}

/// When the first d anchors lie below cf and the next does not, cf's
/// region is exactly d.
proof fn lemma_ch_round_at(lcs: Seq<LCSChar>, cf: int, d: int)
    requires
        0 <= d <= lcs.len(),
        forall|t: int| 0 <= t < d ==> (#[trigger] lcs[t]).changed_index.flat < cf,
        d < lcs.len() ==> lcs[d].changed_index.flat >= cf,
    ensures
        ch_round(lcs, cf) == d,
    decreases lcs.len(),
{
    if lcs.len() > 0 && d > 0 {
        assert(lcs.first() == lcs[0]);
        assert(forall|t: int|
            0 <= t < lcs.len() - 1 ==> (#[trigger] lcs.drop_first()[t]) == lcs[t + 1]);
        lemma_ch_round_at(lcs.drop_first(), cf, d - 1);
    }
}

/// The edit script `ops` is a complete, duplicate-free partition in
/// document order: every operation is a sound deletion or addition,
/// same-kind operations come in ascending offset order, every unmatched
/// source offset appears as a deletion, every unmatched changed offset
/// appears as an addition, and across kinds the order follows the scan's
/// regions -- deletions at a region are listed before additions at that
/// region. Together with the anchors this covers each offset of each
/// buffer exactly once and fixes the script completely.
pub open spec fn script_ok(
    source: IndexedString,
    changed: IndexedString,
    lcs: Seq<LCSChar>,
    ops: Seq<DiffChar>,
) -> bool {
    &&& forall|k: int|
        0 <= k < ops.len() ==> is_del_at(source, lcs, #[trigger] ops[k], ops[k].index.flat as int)
            || is_add_at(changed, lcs, ops[k], ops[k].index.flat as int)
    &&& forall|k: int, l: int|
        #![trigger ops[k], ops[l]]
        0 <= k < l < ops.len() && ops[k].char_type == ops[l].char_type ==> ops[k].index.flat
            < ops[l].index.flat
    &&& forall|sf: int|
        0 <= sf < source.chars@.len() && !src_matched_in(lcs, sf) ==> exists|k: int|
            0 <= k < ops.len() && is_del_at(source, lcs, #[trigger] ops[k], sf)
    &&& forall|cf: int|
        0 <= cf < changed.chars@.len() && !ch_matched_in(lcs, cf) ==> exists|k: int|
            0 <= k < ops.len() && is_add_at(changed, lcs, #[trigger] ops[k], cf)
    &&& forall|k: int, l: int|
        #![trigger ops[k], ops[l]]
        0 <= k < l < ops.len() && ops[k].char_type == DiffCharType::Deletion
            && ops[l].char_type == DiffCharType::Addition ==> src_round(
            lcs,
            ops[k].index.flat as int,
        ) <= ch_round(lcs, ops[l].index.flat as int)
    &&& forall|k: int, l: int|
        #![trigger ops[k], ops[l]]
        0 <= k < l < ops.len() && ops[k].char_type == DiffCharType::Addition
            && ops[l].char_type == DiffCharType::Deletion ==> ch_round(
            lcs,
            ops[k].index.flat as int,
        ) < src_round(lcs, ops[l].index.flat as int)
}

impl Diff {
    /// The buffers are indexed and the anchors are a sound matching.
    pub open spec fn lcs_wf(self) -> bool {
        anchors_ok(self.source, self.changed, self.lcs@)
    }

    /// The edit script partitions both buffers against the anchors.
    pub open spec fn script_wf(self) -> bool {
        script_ok(self.source, self.changed, self.lcs@, self.diff@)
    }

    /// Wraps the two buffers and their anchors; the edit script starts
    /// empty until `build` fills it.
    pub fn new(source: IndexedString, changed: IndexedString, lcs: Vec<LCSChar>) -> (r: Diff)
        ensures
            r.source == source,
            r.changed == changed,
            r.lcs == lcs,
            r.diff@.len() == 0,
    {
        Diff { source, changed, lcs, diff: Vec::new() }
    }
}

/// A deletion is pinned by its offset: two sound deletions at one offset
/// are the same operation.
proof fn lemma_del_unique(source: IndexedString, lcs: Seq<LCSChar>, x: DiffChar, y: DiffChar, sf: int)
    requires
        is_del_at(source, lcs, x, sf),
        is_del_at(source, lcs, y, sf),
    ensures
        x == y,
{
    assert(x.index@ == y.index@);
    assert(x.index.line == y.index.line);
    assert(x.index.column == y.index.column);
    assert(x.index.flat == y.index.flat);
    assert(x.index == y.index);
}

/// An addition is pinned by its offset likewise.
proof fn lemma_add_unique(changed: IndexedString, lcs: Seq<LCSChar>, x: DiffChar, y: DiffChar, cf: int)
    requires
        is_add_at(changed, lcs, x, cf),
        is_add_at(changed, lcs, y, cf),
    ensures
        x == y,
{
    assert(x.index@ == y.index@);
    assert(x.index.line == y.index.line);
    assert(x.index.column == y.index.column);
    assert(x.index.flat == y.index.flat);
    assert(x.index == y.index);
}

/// Two scripts that agree up to position k agree at k as well.
proof fn lemma_script_agree_at(
    source: IndexedString,
    changed: IndexedString,
    lcs: Seq<LCSChar>,
    ops1: Seq<DiffChar>,
    ops2: Seq<DiffChar>,
    k: int,
)
    requires
        script_ok(source, changed, lcs, ops1),
        script_ok(source, changed, lcs, ops2),
        0 <= k < ops1.len(),
        k < ops2.len(),
        forall|t: int| 0 <= t < k ==> ops1[t] == ops2[t],
    ensures
        ops1[k] == ops2[k],
{
    let a = ops1[k];
    let b = ops2[k];
    let fa = a.index.flat as int;
    let fb = b.index.flat as int;
    if a != b {
        // a is owed a place in ops2 as well
        let j: int = if a.char_type == DiffCharType::Deletion {
            choose|j: int| 0 <= j < ops2.len() && is_del_at(source, lcs, #[trigger] ops2[j], fa)
        } else {
            choose|j: int| 0 <= j < ops2.len() && is_add_at(changed, lcs, #[trigger] ops2[j], fa)
        };
        if a.char_type == DiffCharType::Deletion {
            assert(is_del_at(source, lcs, a, fa));
            assert(is_del_at(source, lcs, ops2[j], fa));
            lemma_del_unique(source, lcs, ops2[j], a, fa);
        } else {
            assert(is_add_at(changed, lcs, a, fa));
            assert(is_add_at(changed, lcs, ops2[j], fa));
            lemma_add_unique(changed, lcs, ops2[j], a, fa);
        }
        assert(ops2[j] == a);
        if j < k {
            assert(ops1[j] == ops2[j]);
            assert(ops1[j] == a);
            assert(ops1[j].index.flat < ops1[k].index.flat);
            assert(false);
        }
        assert(j > k);
        // and b a place in ops1
        let i: int = if b.char_type == DiffCharType::Deletion {
            choose|i: int| 0 <= i < ops1.len() && is_del_at(source, lcs, #[trigger] ops1[i], fb)
        } else {
            choose|i: int| 0 <= i < ops1.len() && is_add_at(changed, lcs, #[trigger] ops1[i], fb)
        };
        if b.char_type == DiffCharType::Deletion {
            assert(is_del_at(source, lcs, b, fb));
            lemma_del_unique(source, lcs, ops1[i], b, fb);
        } else {
            assert(is_add_at(changed, lcs, b, fb));
            lemma_add_unique(changed, lcs, ops1[i], b, fb);
        }
        assert(ops1[i] == b);
        if i < k {
            assert(ops2[i] == ops1[i]);
            assert(ops2[i].index.flat < ops2[k].index.flat);
            assert(false);
        }
        assert(i > k);
        // in ops2, b stands before a; in ops1, a stands before b: the
        // document order forbids both
        if a.char_type == DiffCharType::Deletion && b.char_type == DiffCharType::Deletion {
            assert(b.index.flat < ops2[j].index.flat);
            assert(a.index.flat < ops1[i].index.flat);
            assert(false);
        } else if a.char_type == DiffCharType::Addition && b.char_type
            == DiffCharType::Addition {
            assert(b.index.flat < ops2[j].index.flat);
            assert(a.index.flat < ops1[i].index.flat);
            assert(false);
        } else if a.char_type == DiffCharType::Deletion && b.char_type
            == DiffCharType::Addition {
            assert(ch_round(lcs, fb) < src_round(lcs, fa));
            assert(src_round(lcs, fa) <= ch_round(lcs, fb));
            assert(false);
        } else {
            assert(src_round(lcs, fb) <= ch_round(lcs, fa));
            assert(ch_round(lcs, fa) < src_round(lcs, fb));
            assert(false);
        }
    }
}

/// Two scripts valid for the same buffers and anchors agree on their first
/// k positions.
proof fn lemma_script_agree_upto(
    source: IndexedString,
    changed: IndexedString,
    lcs: Seq<LCSChar>,
    ops1: Seq<DiffChar>,
    ops2: Seq<DiffChar>,
    k: int,
)
    requires
        script_ok(source, changed, lcs, ops1),
        script_ok(source, changed, lcs, ops2),
        0 <= k <= ops1.len(),
        k <= ops2.len(),
    ensures
        forall|t: int| 0 <= t < k ==> ops1[t] == ops2[t],
    decreases k,
{
    if k > 0 {
        lemma_script_agree_upto(source, changed, lcs, ops1, ops2, k - 1);
        lemma_script_agree_at(source, changed, lcs, ops1, ops2, k - 1);
    }
}

/// Two edit scripts valid for the same buffers and anchors are the same
/// script: the partition, the per-kind order and the cross-kind document
/// order determine it completely. In particular, rebuilding a diff yields
/// the identical script.
pub proof fn lemma_script_unique(
    source: IndexedString,
    changed: IndexedString,
    lcs: Seq<LCSChar>,
    ops1: Seq<DiffChar>,
    ops2: Seq<DiffChar>,
)
    requires
        script_ok(source, changed, lcs, ops1),
        script_ok(source, changed, lcs, ops2),
    ensures
        ops1 == ops2,
{
    let n1 = ops1.len() as int;
    let n2 = ops2.len() as int;
    let m = if n1 <= n2 {
        n1
    } else {
        n2
    };
    lemma_script_agree_upto(source, changed, lcs, ops1, ops2, m);
    if n1 < n2 {
        let b = ops2[n1];
        let fb = b.index.flat as int;
        let i: int = if b.char_type == DiffCharType::Deletion {
            choose|i: int| 0 <= i < ops1.len() && is_del_at(source, lcs, #[trigger] ops1[i], fb)
        } else {
            choose|i: int| 0 <= i < ops1.len() && is_add_at(changed, lcs, #[trigger] ops1[i], fb)
        };
        if b.char_type == DiffCharType::Deletion {
            assert(is_del_at(source, lcs, b, fb));
            lemma_del_unique(source, lcs, ops1[i], b, fb);
        } else {
            assert(is_add_at(changed, lcs, b, fb));
            lemma_add_unique(changed, lcs, ops1[i], b, fb);
        }
        assert(ops2[i] == ops1[i]);
        assert(ops2[i] == b);
        assert(ops2[i].index.flat < ops2[n1].index.flat);
        assert(false);
    }
    if n2 < n1 {
        let a = ops1[n2];
        let fa = a.index.flat as int;
        let j: int = if a.char_type == DiffCharType::Deletion {
            choose|j: int| 0 <= j < ops2.len() && is_del_at(source, lcs, #[trigger] ops2[j], fa)
        } else {
            choose|j: int| 0 <= j < ops2.len() && is_add_at(changed, lcs, #[trigger] ops2[j], fa)
        };
        if a.char_type == DiffCharType::Deletion {
            assert(is_del_at(source, lcs, a, fa));
            lemma_del_unique(source, lcs, ops2[j], a, fa);
        } else {
            assert(is_add_at(changed, lcs, a, fa));
            lemma_add_unique(changed, lcs, ops2[j], a, fa);
        }
        assert(ops1[j] == ops2[j]);
        assert(ops1[j] == a);
        assert(ops1[j].index.flat < ops1[n2].index.flat);
        assert(false);
    }
    assert(ops1 =~= ops2);
}

/// The source offset at which the run of deletions before anchor di ends.
pub open spec fn src_target(source: IndexedString, lcs: Seq<LCSChar>, di: int) -> int {
    if di < lcs.len() {
        lcs[di].source_index.flat as int
    } else {
        source.chars@.len() as int
    }
}

/// The changed offset at which the run of additions before anchor di ends.
pub open spec fn ch_target(changed: IndexedString, lcs: Seq<LCSChar>, di: int) -> int {
    if di < lcs.len() {
        lcs[di].changed_index.flat as int
    } else {
        changed.chars@.len() as int
    }
}

fn mk_op(ch: char, ix: Index, t: DiffCharType) -> (d: DiffChar)
    ensures
        d.value == ch,
        d.index == ix,
        d.char_type == t,
{
    DiffChar { value: ch, index: ix, char_type: t }
}

impl Diff {
    /// Deletion phase: consumes source characters from `source_idx` up to
    /// the next anchor's source offset (or the end of the source), pushing
    /// one Deletion per character onto `acc`.
    fn parse_source_removal(
        &self,
        source_idx: usize,
        diff_idx: usize,
        acc: &mut Vec<DiffChar>,
    ) -> (r: usize)
        requires
            self.lcs_wf(),
            diff_idx <= self.lcs@.len(),
            source_idx <= src_target(self.source, self.lcs@, diff_idx as int),
            forall|k: int|
                0 <= k < diff_idx ==> (#[trigger] self.lcs@[k]).source_index.flat < source_idx,
        ensures
            r == src_target(self.source, self.lcs@, diff_idx as int),
            final(acc)@.len() == old(acc)@.len() + r - source_idx,
            forall|k: int| 0 <= k < old(acc)@.len() ==> final(acc)@[k] == old(acc)@[k],
            forall|k: int|
                old(acc)@.len() <= k < final(acc)@.len() ==> is_del_at(
                    self.source,
                    self.lcs@,
                    #[trigger] final(acc)@[k],
                    source_idx + k - old(acc)@.len(),
                ),
    {
        let ghost base = acc@.len() as int;
        let ghost acc_init = acc@;
        let ghost target = src_target(self.source, self.lcs@, diff_idx as int);
        let slen = self.source.chars.len();
        let stop: usize = if diff_idx < self.lcs.len() {
            self.lcs[diff_idx].source_index.flat
        } else {
            slen
        };
        proof {
            if diff_idx < self.lcs@.len() {
                assert(anchor_pairs(self.lcs@)[diff_idx as int].0
                    == self.lcs@[diff_idx as int].source_index.flat);
            }
            assert(stop == target);
        }
        let mut si = source_idx;
        while si < stop
            invariant
                self.lcs_wf(),
                diff_idx <= self.lcs@.len(),
                stop == target,
                target == src_target(self.source, self.lcs@, diff_idx as int),
                slen == self.source.chars@.len(),
                source_idx <= si <= stop <= slen,
                forall|k: int|
                    0 <= k < diff_idx ==> (#[trigger] self.lcs@[k]).source_index.flat
                        < source_idx,
                base == acc_init.len(),
                acc_init == old(acc)@,
                acc@.len() == base + si - source_idx,
                forall|k: int| 0 <= k < base ==> acc@[k] == acc_init[k],
                forall|k: int|
                    base <= k < acc@.len() ==> is_del_at(
                        self.source,
                        self.lcs@,
                        #[trigger] acc@[k],
                        source_idx + k - base,
                    ),
            decreases stop - si,
        {
            proof {
                assert(self.source.indices@[si as int]@ == index_at(
                    self.source.content@,
                    si as int,
                ));
                if src_matched_in(self.lcs@, si as int) {
                    let k = choose|k: int|
                        0 <= k < self.lcs@.len() && (#[trigger] self.lcs@[k]).source_index.flat
                            == si;
                    if k >= diff_idx {
                        assert(diff_idx < self.lcs@.len());
                        assert(anchor_pairs(self.lcs@)[diff_idx as int].0
                            == self.lcs@[diff_idx as int].source_index.flat);
                        if k > diff_idx {
                            assert(anchor_pairs(self.lcs@)[diff_idx as int].0 < anchor_pairs(
                                self.lcs@,
                            )[k].0);
                        }
                        assert(false);
                    }
                    assert(false);
                }
            }
            let ch: char = self.source.chars[si];
            let ix: Index = self.source.indices[si];
            let d = mk_op(ch, ix, DiffCharType::Deletion);
            acc.push(d);
            si = si + 1;
        }
        si
    }

    /// Addition phase: the symmetric scan over the changed buffer.
    fn parse_changed_addition(
        &self,
        changed_idx: usize,
        diff_idx: usize,
        acc: &mut Vec<DiffChar>,
    ) -> (r: usize)
        requires
            self.lcs_wf(),
            diff_idx <= self.lcs@.len(),
            changed_idx <= ch_target(self.changed, self.lcs@, diff_idx as int),
            forall|k: int|
                0 <= k < diff_idx ==> (#[trigger] self.lcs@[k]).changed_index.flat < changed_idx,
        ensures
            r == ch_target(self.changed, self.lcs@, diff_idx as int),
            final(acc)@.len() == old(acc)@.len() + r - changed_idx,
            forall|k: int| 0 <= k < old(acc)@.len() ==> final(acc)@[k] == old(acc)@[k],
            forall|k: int|
                old(acc)@.len() <= k < final(acc)@.len() ==> is_add_at(
                    self.changed,
                    self.lcs@,
                    #[trigger] final(acc)@[k],
                    changed_idx + k - old(acc)@.len(),
                ),
    {
        let ghost base = acc@.len() as int;
        let ghost acc_init = acc@;
        let ghost target = ch_target(self.changed, self.lcs@, diff_idx as int);
        let clen = self.changed.chars.len();
        let stop: usize = if diff_idx < self.lcs.len() {
            self.lcs[diff_idx].changed_index.flat
        } else {
            clen
        };
        proof {
            if diff_idx < self.lcs@.len() {
                assert(anchor_pairs(self.lcs@)[diff_idx as int].1
                    == self.lcs@[diff_idx as int].changed_index.flat);
            }
            assert(stop == target);
        }
        let mut ci = changed_idx;
        while ci < stop
            invariant
                self.lcs_wf(),
                diff_idx <= self.lcs@.len(),
                stop == target,
                target == ch_target(self.changed, self.lcs@, diff_idx as int),
                clen == self.changed.chars@.len(),
                changed_idx <= ci <= stop <= clen,
                forall|k: int|
                    0 <= k < diff_idx ==> (#[trigger] self.lcs@[k]).changed_index.flat
                        < changed_idx,
                base == acc_init.len(),
                acc_init == old(acc)@,
                acc@.len() == base + ci - changed_idx,
                forall|k: int| 0 <= k < base ==> acc@[k] == acc_init[k],
                forall|k: int|
                    base <= k < acc@.len() ==> is_add_at(
                        self.changed,
                        self.lcs@,
                        #[trigger] acc@[k],
                        changed_idx + k - base,
                    ),
            decreases stop - ci,
        {
            proof {
                assert(self.changed.indices@[ci as int]@ == index_at(
                    self.changed.content@,
                    ci as int,
                ));
                if ch_matched_in(self.lcs@, ci as int) {
                    let k = choose|k: int|
                        0 <= k < self.lcs@.len() && (#[trigger] self.lcs@[k]).changed_index.flat
                            == ci;
                    if k >= diff_idx {
                        assert(diff_idx < self.lcs@.len());
                        assert(anchor_pairs(self.lcs@)[diff_idx as int].1
                            == self.lcs@[diff_idx as int].changed_index.flat);
                        if k > diff_idx {
                            assert(anchor_pairs(self.lcs@)[diff_idx as int].1 < anchor_pairs(
                                self.lcs@,
                            )[k].1);
                        }
                        assert(false);
                    }
                    assert(false);
                }
            }
            let ch: char = self.changed.chars[ci];
            let ix: Index = self.changed.indices[ci];
            let d = mk_op(ch, ix, DiffCharType::Addition);
            acc.push(d);
            ci = ci + 1;
        }
        ci
    }

    /// Common phase: advances over the run of anchors aligned exactly with
    /// both cursors, consuming one matched character per anchor.
    fn parse_common_subsequence(
        &self,
        source_idx: usize,
        changed_idx: usize,
        diff_idx: usize,
    ) -> (r: (usize, usize, usize))
        requires
            self.lcs_wf(),
            diff_idx <= self.lcs@.len(),
        ensures
            diff_idx <= r.2 <= self.lcs@.len(),
            r.0 == source_idx + r.2 - diff_idx,
            r.1 == changed_idx + r.2 - diff_idx,
            forall|k: int|
                diff_idx <= k < r.2 ==> (#[trigger] self.lcs@[k]).source_index.flat == source_idx
                    + k - diff_idx && self.lcs@[k].changed_index.flat == changed_idx + k
                    - diff_idx,
            r.2 == self.lcs@.len() || !(self.lcs@[r.2 as int].source_index.flat == r.0
                && self.lcs@[r.2 as int].changed_index.flat == r.1),
    {
        let mut si = source_idx;
        let mut ci = changed_idx;
        let mut di = diff_idx;
        let slen = self.source.chars.len();
        let clen = self.changed.chars.len();
        while di < self.lcs.len() && si == self.lcs[di].source_index.flat && ci
            == self.lcs[di].changed_index.flat
            invariant
                self.lcs_wf(),
                slen == self.source.chars@.len(),
                clen == self.changed.chars@.len(),
                diff_idx <= di <= self.lcs@.len(),
                si == source_idx + di - diff_idx,
                ci == changed_idx + di - diff_idx,
                forall|k: int|
                    diff_idx <= k < di ==> (#[trigger] self.lcs@[k]).source_index.flat
                        == source_idx + k - diff_idx && self.lcs@[k].changed_index.flat
                        == changed_idx + k - diff_idx,
            decreases self.lcs@.len() - di,
        {
            proof {
                assert(anchor_pairs(self.lcs@)[di as int].0 < self.source.chars@.len());
                assert(anchor_pairs(self.lcs@)[di as int].1 < self.changed.chars@.len());
            }
            si = si + 1;
            ci = ci + 1;
            di = di + 1;
        }
        (si, ci, di)
    }

    /// Builds the edit script by the repeating three-phase scan: deletions
    /// up to the next anchor, additions up to it, then the aligned common
    /// run, until both buffers are exhausted. Deletions at a region come
    /// before additions at that region.
    pub fn build(&mut self)
        requires
            old(self).lcs_wf(),
        ensures
            final(self).source == old(self).source,
            final(self).changed == old(self).changed,
            final(self).lcs == old(self).lcs,
            final(self).lcs_wf(),
            final(self).script_wf(),
    {
        let mut acc: Vec<DiffChar> = Vec::new();
        let mut source_idx: usize = 0;
        let mut changed_idx: usize = 0;
        let mut diff_idx: usize = 0;
        let slen = self.source.chars.len();
        let clen = self.changed.chars.len();
        while source_idx < slen || changed_idx < clen
            invariant
                self.lcs_wf(),
                slen == self.source.chars@.len(),
                clen == self.changed.chars@.len(),
                diff_idx <= self.lcs@.len(),
                source_idx <= src_target(self.source, self.lcs@, diff_idx as int),
                changed_idx <= ch_target(self.changed, self.lcs@, diff_idx as int),
                source_idx <= slen,
                changed_idx <= clen,
                forall|k: int|
                    0 <= k < diff_idx ==> (#[trigger] self.lcs@[k]).source_index.flat
                        < source_idx && self.lcs@[k].changed_index.flat < changed_idx,
                forall|k: int|
                    0 <= k < acc@.len() ==> (is_del_at(
                        self.source,
                        self.lcs@,
                        #[trigger] acc@[k],
                        acc@[k].index.flat as int,
                    ) && acc@[k].index.flat < source_idx) || (is_add_at(
                        self.changed,
                        self.lcs@,
                        acc@[k],
                        acc@[k].index.flat as int,
                    ) && acc@[k].index.flat < changed_idx),
                forall|k: int, l: int|
                    #![trigger acc@[k], acc@[l]]
                    0 <= k < l < acc@.len() && acc@[k].char_type == acc@[l].char_type
                        ==> acc@[k].index.flat < acc@[l].index.flat,
                forall|sf: int|
                    0 <= sf < source_idx && !src_matched_in(self.lcs@, sf) ==> exists|k: int|
                        0 <= k < acc@.len() && is_del_at(
                            self.source,
                            self.lcs@,
                            #[trigger] acc@[k],
                            sf,
                        ),
                forall|cf: int|
                    0 <= cf < changed_idx && !ch_matched_in(self.lcs@, cf) ==> exists|k: int|
                        0 <= k < acc@.len() && is_add_at(
                            self.changed,
                            self.lcs@,
                            #[trigger] acc@[k],
                            cf,
                        ),
                forall|k: int|
                    0 <= k < acc@.len() && (#[trigger] acc@[k]).char_type
                        == DiffCharType::Deletion ==> src_round(self.lcs@, acc@[k].index.flat as int)
                        < diff_idx || (diff_idx == self.lcs@.len() && source_idx == slen
                        && changed_idx == clen),
                forall|k: int|
                    0 <= k < acc@.len() && (#[trigger] acc@[k]).char_type
                        == DiffCharType::Addition ==> ch_round(self.lcs@, acc@[k].index.flat as int)
                        < diff_idx || (diff_idx == self.lcs@.len() && source_idx == slen
                        && changed_idx == clen),
                forall|k: int, l: int|
                    #![trigger acc@[k], acc@[l]]
                    0 <= k < l < acc@.len() && acc@[k].char_type == DiffCharType::Deletion
                        && acc@[l].char_type == DiffCharType::Addition ==> src_round(
                        self.lcs@,
                        acc@[k].index.flat as int,
                    ) <= ch_round(self.lcs@, acc@[l].index.flat as int),
                forall|k: int, l: int|
                    #![trigger acc@[k], acc@[l]]
                    0 <= k < l < acc@.len() && acc@[k].char_type == DiffCharType::Addition
                        && acc@[l].char_type == DiffCharType::Deletion ==> ch_round(
                        self.lcs@,
                        acc@[k].index.flat as int,
                    ) < src_round(self.lcs@, acc@[l].index.flat as int),
            decreases (slen - source_idx) + (clen - changed_idx),
        {
            let ghost si0 = source_idx as int;
            let ghost ci0 = changed_idx as int;
            let ghost di0 = diff_idx as int;
            let ghost acc0 = acc@;
            let ghost loop_live = source_idx < slen || changed_idx < clen;
            source_idx = self.parse_source_removal(source_idx, diff_idx, &mut acc);
            let ghost acc1 = acc@;
            changed_idx = self.parse_changed_addition(changed_idx, diff_idx, &mut acc);
            proof {
                // the operations this round appends all belong to region di0
                assert forall|k: int| acc0.len() <= k < acc1.len() implies src_round(
                    self.lcs@,
                    acc@[k].index.flat as int,
                ) == di0 by {
                    let sf = si0 + k - acc0.len();
                    assert(is_del_at(self.source, self.lcs@, acc@[k], sf));
                    if di0 < self.lcs@.len() {
                        assert(anchor_pairs(self.lcs@)[di0].0
                            == self.lcs@[di0].source_index.flat);
                    }
                    lemma_src_round_at(self.lcs@, sf, di0);
                }
                assert forall|k: int| acc1.len() <= k < acc@.len() implies ch_round(
                    self.lcs@,
                    acc@[k].index.flat as int,
                ) == di0 by {
                    let cf = ci0 + k - acc1.len();
                    assert(is_add_at(self.changed, self.lcs@, acc@[k], cf));
                    if di0 < self.lcs@.len() {
                        assert(anchor_pairs(self.lcs@)[di0].1
                            == self.lcs@[di0].changed_index.flat);
                    }
                    lemma_ch_round_at(self.lcs@, cf, di0);
                }
                // operations of earlier rounds belong to strictly earlier regions
                assert forall|k: int|
                    0 <= k < acc0.len() && (#[trigger] acc@[k]).char_type
                        == DiffCharType::Deletion implies src_round(
                    self.lcs@,
                    acc@[k].index.flat as int,
                ) < di0 by {
                    assert(acc@[k] == acc0[k]);
                }
                assert forall|k: int|
                    0 <= k < acc0.len() && (#[trigger] acc@[k]).char_type
                        == DiffCharType::Addition implies ch_round(
                    self.lcs@,
                    acc@[k].index.flat as int,
                ) < di0 by {
                    assert(acc@[k] == acc0[k]);
                }
                assert forall|sf: int| 0 <= sf < source_idx && !src_matched_in(self.lcs@, sf)
                    implies exists|k: int|
                    0 <= k < acc@.len() && is_del_at(
                        self.source,
                        self.lcs@,
                        #[trigger] acc@[k],
                        sf,
                    ) by {
                    if sf < si0 {
                        let k = choose|k: int|
                            0 <= k < acc0.len() && is_del_at(
                                self.source,
                                self.lcs@,
                                #[trigger] acc0[k],
                                sf,
                            );
                        assert(is_del_at(self.source, self.lcs@, acc@[k], sf));
                    } else {
                        assert(is_del_at(
                            self.source,
                            self.lcs@,
                            acc@[acc0.len() + (sf - si0)],
                            sf,
                        ));
                    }
                }
                assert forall|cf: int| 0 <= cf < changed_idx && !ch_matched_in(self.lcs@, cf)
                    implies exists|k: int|
                    0 <= k < acc@.len() && is_add_at(
                        self.changed,
                        self.lcs@,
                        #[trigger] acc@[k],
                        cf,
                    ) by {
                    if cf < ci0 {
                        let k = choose|k: int|
                            0 <= k < acc0.len() && is_add_at(
                                self.changed,
                                self.lcs@,
                                #[trigger] acc0[k],
                                cf,
                            );
                        assert(is_add_at(self.changed, self.lcs@, acc@[k], cf));
                    } else {
                        assert(is_add_at(
                            self.changed,
                            self.lcs@,
                            acc@[acc1.len() + (cf - ci0)],
                            cf,
                        ));
                    }
                }
            }
            let ghost si1 = source_idx as int;
            let ghost ci1 = changed_idx as int;
            let r = self.parse_common_subsequence(source_idx, changed_idx, diff_idx);
            source_idx = r.0;
            changed_idx = r.1;
            diff_idx = r.2;
            proof {
                if diff_idx > di0 {
                    assert(anchor_pairs(self.lcs@)[diff_idx - 1].0
                        < self.source.chars@.len());
                    assert(anchor_pairs(self.lcs@)[diff_idx - 1].1
                        < self.changed.chars@.len());
                }
                if diff_idx < self.lcs@.len() && diff_idx > di0 {
                    assert(anchor_pairs(self.lcs@)[diff_idx - 1].0 < anchor_pairs(
                        self.lcs@,
                    )[diff_idx as int].0);
                    assert(anchor_pairs(self.lcs@)[diff_idx - 1].1 < anchor_pairs(
                        self.lcs@,
                    )[diff_idx as int].1);
                }
                assert forall|sf: int| si1 <= sf < source_idx implies src_matched_in(
                    self.lcs@,
                    sf,
                ) by {
                    let k = di0 + (sf - si1);
                    assert(self.lcs@[k].source_index.flat == sf);
                }
                assert forall|cf: int| ci1 <= cf < changed_idx implies ch_matched_in(
                    self.lcs@,
                    cf,
                ) by {
                    let k = di0 + (cf - ci1);
                    assert(self.lcs@[k].changed_index.flat == cf);
                }
                assert forall|k: int| 0 <= k < diff_idx implies (
                #[trigger] self.lcs@[k]).source_index.flat < source_idx
                    && self.lcs@[k].changed_index.flat < changed_idx by {
                    if k < di0 {
                        if di0 < self.lcs@.len() {
                            if k < di0 {
                                assert(anchor_pairs(self.lcs@)[k].0 < anchor_pairs(
                                    self.lcs@,
                                )[di0].0);
                                assert(anchor_pairs(self.lcs@)[k].1 < anchor_pairs(
                                    self.lcs@,
                                )[di0].1);
                            }
                        }
                    }
                }
                // progress: the three phases cannot all stand still
                if source_idx == si0 && changed_idx == ci0 {
                    if diff_idx == di0 {
                        if di0 < self.lcs@.len() {
                            assert(false);
                        } else {
                            assert(source_idx == slen && changed_idx == clen);
                            assert(false);
                        }
                    } else {
                        assert(false);
                    }
                }
            }
        }
        self.diff = acc;
    }
}

/// Computes the full diff of two texts: indexes both, finds the longest
/// common subsequence, and builds the edit script against it. The anchors
/// are a longest matching -- no common subsequence is longer -- and are
/// exactly the matching `chosen_match` fixes, so repeated calls on the
/// same texts select the same subsequence; the script partitions both
/// texts against the anchors.
pub fn diff(source: String, changed: String) -> (d: Diff)
    requires
        source@.len() < usize::MAX,
        changed@.len() < usize::MAX,
    ensures
        d.source.content@ == source@,
        d.changed.content@ == changed@,
        d.lcs_wf(),
        d.lcs@.len() == lcs_len(source@, changed@),
        anchor_pairs(d.lcs@) == chosen_match(source@, changed@),
        d.script_wf(),
{
    let source_is = IndexedString::new(source);
    let changed_is = IndexedString::new(changed);
    let pairs = lcs_pairs(&source_is.chars, &changed_is.chars);
    let mut lcs: Vec<LCSChar> = Vec::new();
    let mut k: usize = 0;
    let plen = pairs.len();
    while k < plen
        invariant
            source_is.wf(),
            changed_is.wf(),
            is_match(source_is.chars@, changed_is.chars@, pairs_int(pairs@)),
            plen == pairs@.len(),
            k <= plen,
            lcs@.len() == k,
            forall|t: int|
                0 <= t < k ==> {
                    let e = #[trigger] lcs@[t];
                    &&& e.source_index.flat == pairs@[t].0
                    &&& e.changed_index.flat == pairs@[t].1
                    &&& e.source_index@ == index_at(
                        source_is.content@,
                        e.source_index.flat as int,
                    )
                    &&& e.changed_index@ == index_at(
                        changed_is.content@,
                        e.changed_index.flat as int,
                    )
                    &&& e.value == source_is.chars@[e.source_index.flat as int]
                },
        decreases plen - k,
    {
        proof {
            assert(pairs_int(pairs@)[k as int] == (
                pairs@[k as int].0 as int,
                pairs@[k as int].1 as int,
            ));
            assert(source_is.indices@[pairs@[k as int].0 as int]@ == index_at(
                source_is.content@,
                pairs@[k as int].0 as int,
            ));
            assert(changed_is.indices@[pairs@[k as int].1 as int]@ == index_at(
                changed_is.content@,
                pairs@[k as int].1 as int,
            ));
        }
        let sf = pairs[k].0;
        let cf = pairs[k].1;
        let ch: char = source_is.chars[sf];
        let six: Index = source_is.indices[sf];
        let cix: Index = changed_is.indices[cf];
        let e = LCSChar::new(ch, six, cix);
        lcs.push(e);
        k = k + 1;
    }
    proof {
        assert(anchor_pairs(lcs@) =~= pairs_int(pairs@));
    }
    let mut d = Diff::new(source_is, changed_is, lcs);
    d.build();
    d
}

/// A consistency violation found while rebuilding the changed text: some
/// changed offset is explained by no anchor and no matching addition. It is
/// reported, never papered over.
#[derive(Clone, Copy, Debug, PartialEq, Eq, Structural)]
pub enum DiffError {
    Inconsistent,
}

/// One rope segment: a copy of a source range, or literal text inserted by
/// the edit script.
#[derive(Clone, Debug)]
pub enum RopeSegment {
    FromSource { start: usize, end: usize },
    Literal { text: Vec<char> },
}

/// The text a segment stands for, with copies resolved against the source.
pub open spec fn rope_resolve(seg: RopeSegment, s: Seq<char>) -> Seq<char> {
    match seg {
        RopeSegment::FromSource { start, end } => s.subrange(start as int, end as int),
        RopeSegment::Literal { text } => text@,
    }
}

/// The concatenation, in order, of what every segment stands for.
pub open spec fn rope_concat(segs: Seq<RopeSegment>, s: Seq<char>) -> Seq<char>
    decreases segs.len(),
{
    if segs.len() == 0 {
        Seq::empty()
    } else {
        rope_concat(segs.drop_last(), s) + rope_resolve(segs.last(), s)
    }
}

impl Diff {
    /// Rebuilds the changed text as rope segments: each changed offset is
    /// explained by an anchor (extending a copy of a source range) or by an
    /// addition at that offset (extending a literal); an offset explained
    /// by neither is a fatal consistency error. Whenever segments come
    /// back, concatenating them reproduces the changed text exactly; on a
    /// well-formed diff they always come back.
    pub fn build_rope(&self) -> (r: Result<Vec<RopeSegment>, DiffError>)
        ensures
            r matches Ok(segs) ==> rope_concat(segs@, self.source.chars@)
                == self.changed.chars@,
            self.lcs_wf() && self.script_wf() ==> r is Ok,
    {
        let ghost wf = self.lcs_wf() && self.script_wf();
        let clen = self.changed.chars.len();
        let slen = self.source.chars.len();
        let dlen = self.diff.len();
        let llen = self.lcs.len();
        let mut segs: Vec<RopeSegment> = Vec::new();
        let mut cf: usize = 0;
        let mut di: usize = 0;
        let mut k: usize = 0;
        let mut prev_copy = false;
        let mut prev_lit = false;
        let mut copy_end: usize = 0;
        proof {
            assert(self.changed.chars@.subrange(0, 0) =~= Seq::<char>::empty());
        }
        while cf < clen
            invariant
                wf == (self.lcs_wf() && self.script_wf()),
                clen == self.changed.chars@.len(),
                slen == self.source.chars@.len(),
                dlen == self.diff@.len(),
                llen == self.lcs@.len(),
                cf <= clen,
                di <= llen,
                k <= dlen,
                rope_concat(segs@, self.source.chars@) == self.changed.chars@.subrange(
                    0,
                    cf as int,
                ),
                !(prev_copy && prev_lit),
                prev_copy ==> segs@.len() > 0 && (segs@.last() matches RopeSegment::FromSource {
                    start,
                    end,
                } && end == copy_end && start <= end <= slen),
                prev_lit ==> segs@.len() > 0 && (segs@.last() matches RopeSegment::Literal { .. }),
                wf ==> forall|t: int|
                    0 <= t < di ==> (#[trigger] self.lcs@[t]).changed_index.flat < cf,
                wf ==> forall|t: int|
                    di <= t < llen ==> (#[trigger] self.lcs@[t]).changed_index.flat >= cf,
                wf ==> forall|t: int|
                    0 <= t < k ==> (#[trigger] self.diff@[t]).char_type
                        == DiffCharType::Deletion || self.diff@[t].index.flat < cf,
                wf ==> forall|t: int|
                    0 <= t < dlen && (#[trigger] self.diff@[t]).char_type
                        == DiffCharType::Addition && self.diff@[t].index.flat < cf ==> t < k,
            decreases clen - cf,
        {
            let is_anchor = di < llen && self.lcs[di].changed_index.flat == cf;
            if is_anchor {
                let sf = self.lcs[di].source_index.flat;
                if sf >= slen {
                    proof {
                        if wf {
                            assert(anchor_pairs(self.lcs@)[di as int].0 < slen);
                            assert(false);
                        }
                    }
                    return Err(DiffError::Inconsistent);
                }
                let sc: char = self.source.chars[sf];
                let cc: char = self.changed.chars[cf];
                if sc != cc {
                    proof {
                        if wf {
                            assert(anchor_pairs(self.lcs@)[di as int]
                                == (sf as int, cf as int));
                            assert(self.source.chars@[sf as int]
                                == self.changed.chars@[cf as int]);
                            assert(false);
                        }
                    }
                    return Err(DiffError::Inconsistent);
                }
                let ghost segs0 = segs@;
                if prev_copy && copy_end == sf {
                    let last = segs.pop();
                    match last {
                        Some(RopeSegment::FromSource { start, end }) => {
                            segs.push(RopeSegment::FromSource { start, end: sf + 1 });
                            proof {
                                assert(segs@.drop_last() =~= segs0.drop_last());
                                assert(self.source.chars@.subrange(start as int, sf + 1)
                                    =~= self.source.chars@.subrange(start as int, sf as int)
                                    + seq![self.source.chars@[sf as int]]);
                                assert(rope_resolve(segs@.last(), self.source.chars@)
                                    == self.source.chars@.subrange(start as int, sf + 1));
                                assert(rope_concat(segs0, self.source.chars@) == rope_concat(
                                    segs0.drop_last(),
                                    self.source.chars@,
                                ) + self.source.chars@.subrange(start as int, sf as int));
                                assert(self.changed.chars@.subrange(0, cf + 1)
                                    =~= self.changed.chars@.subrange(0, cf as int) + seq![
                                    self.changed.chars@[cf as int],
                                ]);
                                assert(rope_concat(segs@, self.source.chars@)
                                    =~= self.changed.chars@.subrange(0, cf + 1));
                            }
                        },
                        _ => {
                            return Err(DiffError::Inconsistent);
                        },
                    }
                } else {
                    segs.push(RopeSegment::FromSource { start: sf, end: sf + 1 });
                    proof {
                        assert(segs@.drop_last() =~= segs0);
                        assert(self.source.chars@.subrange(sf as int, sf + 1) =~= seq![
                            self.source.chars@[sf as int],
                        ]);
                        assert(rope_concat(segs@, self.source.chars@)
                            =~= self.changed.chars@.subrange(0, cf + 1));
                    }
                }
                copy_end = sf + 1;
                prev_copy = true;
                prev_lit = false;
                di = di + 1;
                proof {
                    if wf {
                        assert forall|t: int|
                            di <= t < llen implies (#[trigger] self.lcs@[t]).changed_index.flat
                            >= cf + 1 by {
                            if t > di - 1 {
                                assert(anchor_pairs(self.lcs@)[di - 1].1 < anchor_pairs(
                                    self.lcs@,
                                )[t].1);
                            }
                        }
                        assert forall|t: int|
                            0 <= t < dlen && (#[trigger] self.diff@[t]).char_type
                                == DiffCharType::Addition && self.diff@[t].index.flat < cf + 1
                            implies t < k by {
                            if self.diff@[t].index.flat == cf {
                                assert(is_add_at(
                                    self.changed,
                                    self.lcs@,
                                    self.diff@[t],
                                    cf as int,
                                ) || is_del_at(
                                    self.source,
                                    self.lcs@,
                                    self.diff@[t],
                                    cf as int,
                                ));
                                assert(self.lcs@[di - 1].changed_index.flat == cf);
                                assert(ch_matched_in(self.lcs@, cf as int));
                                assert(false);
                            }
                        }
                    }
                }
                cf = cf + 1;
            } else {
                // skip deletions: they never appear in the changed buffer
                while k < dlen && matches!(&self.diff[k].char_type, DiffCharType::Deletion)
                    invariant
                        wf == (self.lcs_wf() && self.script_wf()),
                        dlen == self.diff@.len(),
                        k <= dlen,
                        wf ==> forall|t: int|
                            0 <= t < k ==> (#[trigger] self.diff@[t]).char_type
                                == DiffCharType::Deletion || self.diff@[t].index.flat < cf,
                        wf ==> forall|t: int|
                            0 <= t < dlen && (#[trigger] self.diff@[t]).char_type
                                == DiffCharType::Addition && self.diff@[t].index.flat < cf
                                ==> t < k,
                    decreases dlen - k,
                {
                    k = k + 1;
                }
                proof {
                    if wf {
                        assert forall|t: int| 0 <= t < di implies (
                        #[trigger] self.lcs@[t]).changed_index.flat != cf by {}
                        assert forall|t: int| di <= t < llen implies (
                        #[trigger] self.lcs@[t]).changed_index.flat != cf by {
                            if t == di {
                            } else {
                                assert(anchor_pairs(self.lcs@)[di as int].1 < anchor_pairs(
                                    self.lcs@,
                                )[t].1);
                            }
                        }
                        assert(!ch_matched_in(self.lcs@, cf as int));
                        let j = choose|j: int|
                            0 <= j < dlen && is_add_at(
                                self.changed,
                                self.lcs@,
                                #[trigger] self.diff@[j],
                                cf as int,
                            );
                        assert(j >= k);
                        if j > k {
                            assert(k < dlen);
                            assert(self.diff@[k as int].char_type == DiffCharType::Addition);
                            assert(self.diff@[k as int].index.flat >= cf);
                            assert(self.diff@[k as int].index.flat < self.diff@[j].index.flat);
                            assert(false);
                        }
                        assert(is_add_at(self.changed, self.lcs@, self.diff@[k as int], cf as int));
                    }
                }
                if k >= dlen {
                    proof {
                        if wf {
                            assert(false);
                        }
                    }
                    return Err(DiffError::Inconsistent);
                }
                let cc: char = self.changed.chars[cf];
                let flat_ok = self.diff[k].index.flat == cf;
                let val_ok = self.diff[k].value == cc;
                let is_add = matches!(&self.diff[k].char_type, DiffCharType::Addition);
                if !is_add || !flat_ok || !val_ok {
                    proof {
                        if wf {
                            assert(false);
                        }
                    }
                    return Err(DiffError::Inconsistent);
                }
                let ghost segs0 = segs@;
                if prev_lit {
                    let last = segs.pop();
                    match last {
                        Some(RopeSegment::Literal { text }) => {
                            let ghost text0 = text@;
                            let mut text = text;
                            text.push(cc);
                            segs.push(RopeSegment::Literal { text });
                            proof {
                                assert(segs@.drop_last() =~= segs0.drop_last());
                                assert(rope_resolve(segs@.last(), self.source.chars@)
                                    =~= text0 + seq![cc]);
                                assert(rope_concat(segs0, self.source.chars@) == rope_concat(
                                    segs0.drop_last(),
                                    self.source.chars@,
                                ) + text0);
                                assert(self.changed.chars@.subrange(0, cf + 1)
                                    =~= self.changed.chars@.subrange(0, cf as int) + seq![
                                    self.changed.chars@[cf as int],
                                ]);
                                assert(rope_concat(segs@, self.source.chars@)
                                    =~= self.changed.chars@.subrange(0, cf + 1));
                            }
                        },
                        _ => {
                            return Err(DiffError::Inconsistent);
                        },
                    }
                } else {
                    let mut text: Vec<char> = Vec::new();
                    text.push(cc);
                    segs.push(RopeSegment::Literal { text });
                    proof {
                        assert(segs@.drop_last() =~= segs0);
                        assert(rope_concat(segs@, self.source.chars@)
                            =~= self.changed.chars@.subrange(0, cf + 1));
                    }
                }
                prev_copy = false;
                prev_lit = true;
                k = k + 1;
                proof {
                    if wf {
                        assert forall|t: int|
                            0 <= t < dlen && (#[trigger] self.diff@[t]).char_type
                                == DiffCharType::Addition && self.diff@[t].index.flat < cf + 1
                            implies t < k by {
                            if self.diff@[t].index.flat == cf {
                                if t != k - 1 {
                                    if t < k - 1 {
                                    } else {
                                        assert(self.diff@[k - 1].index.flat
                                            < self.diff@[t].index.flat);
                                    }
                                }
                            }
                        }
                    }
                }
                cf = cf + 1;
            }
        }
        proof {
            assert(self.changed.chars@.subrange(0, clen as int) =~= self.changed.chars@);
        }
        Ok(segs)
    }
}

/// A character wrapped in the terminal escape that paints it red.
pub open spec fn red_chars(c: char) -> Seq<char> {
    seq!['\u{1b}', '[', '3', '1', 'm', c, '\u{1b}', '[', '0', 'm']
}

/// A character wrapped in the terminal escape that paints it green.
pub open spec fn green_chars(c: char) -> Seq<char> {
    seq!['\u{1b}', '[', '3', '2', 'm', c, '\u{1b}', '[', '0', 'm']
}

/// A run of characters, each painted red.
pub open spec fn red_run(cs: Seq<char>) -> Seq<char>
    decreases cs.len(),
{
    if cs.len() == 0 {
        Seq::empty()
    } else {
        red_run(cs.drop_last()) + red_chars(cs.last())
    }
}

/// A run of characters, each painted green.
pub open spec fn green_run(cs: Seq<char>) -> Seq<char>
    decreases cs.len(),
{
    if cs.len() == 0 {
        Seq::empty()
    } else {
        green_run(cs.drop_last()) + green_chars(cs.last())
    }
}

/// The colored diff text from cursors (si, ci) with anchor di onward:
/// deletions painted red up to the next anchor, additions painted green up
/// to it, the anchored character plain, and so on; after the last anchor
/// the remaining deletions and additions.
pub open spec fn spec_diff_string(
    s: Seq<char>,
    c: Seq<char>,
    lcs: Seq<LCSChar>,
    si: int,
    ci: int,
    di: int,
) -> Seq<char>
    decreases lcs.len() - di,
{
    if di < lcs.len() {
        let ts = lcs[di].source_index.flat as int;
        let tc = lcs[di].changed_index.flat as int;
        red_run(s.subrange(si, ts)) + green_run(c.subrange(ci, tc)) + seq![s[ts]]
            + spec_diff_string(s, c, lcs, ts + 1, tc + 1, di + 1)
    } else {
        red_run(s.subrange(si, s.len() as int)) + green_run(c.subrange(ci, c.len() as int))
    }
}


/// Extending a window by one character appends that character.
proof fn lemma_subrange_step(s: Seq<char>, a: int, b: int)
    requires
        0 <= a <= b < s.len(),
    ensures
        s.subrange(a, b + 1).drop_last() =~= s.subrange(a, b),
        s.subrange(a, b + 1).last() == s[b],
{
}

/// Appends one red-painted character.
fn push_red(acc: &mut Vec<char>, c: char)
    ensures
        final(acc)@ == old(acc)@ + red_chars(c),
{
    acc.push('\u{1b}');
    acc.push('[');
    acc.push('3');
    acc.push('1');
    acc.push('m');
    acc.push(c);
    acc.push('\u{1b}');
    acc.push('[');
    acc.push('0');
    acc.push('m');
    proof {
        assert(acc@ =~= old(acc)@ + red_chars(c));
    }
}

/// Appends one green-painted character.
fn push_green(acc: &mut Vec<char>, c: char)
    ensures
        final(acc)@ == old(acc)@ + green_chars(c),
{
    acc.push('\u{1b}');
    acc.push('[');
    acc.push('3');
    acc.push('2');
    acc.push('m');
    acc.push(c);
    acc.push('\u{1b}');
    acc.push('[');
    acc.push('0');
    acc.push('m');
    proof {
        assert(acc@ =~= old(acc)@ + green_chars(c));
    }
}

/// The terminal string that paints one character red.
pub fn red(c: char) -> (r: String)
    ensures
        r@ == red_chars(c),
{
    let mut v: Vec<char> = Vec::new();
    push_red(&mut v, c);
    proof {
        assert(Seq::<char>::empty() + red_chars(c) =~= red_chars(c));
    }
    chars_to_string(&v)
}

/// The terminal string that paints one character green.
pub fn green(c: char) -> (r: String)
    ensures
        r@ == green_chars(c),
{
    let mut v: Vec<char> = Vec::new();
    push_green(&mut v, c);
    proof {
        assert(Seq::<char>::empty() + green_chars(c) =~= green_chars(c));
    }
    chars_to_string(&v)
}

impl Diff {
    /// Renders the diff for a terminal: deletions red, additions green,
    /// common characters plain, in document order.
    pub fn to_string(&self) -> (r: String)
        requires
            self.lcs_wf(),
        ensures
            r@ == spec_diff_string(self.source.chars@, self.changed.chars@, self.lcs@, 0, 0, 0),
    {
        let ghost s = self.source.chars@;
        let ghost c = self.changed.chars@;
        let ghost whole = spec_diff_string(s, c, self.lcs@, 0, 0, 0);
        let slen = self.source.chars.len();
        let clen = self.changed.chars.len();
        let llen = self.lcs.len();
        let mut acc: Vec<char> = Vec::new();
        let mut si: usize = 0;
        let mut ci: usize = 0;
        let mut di: usize = 0;
        while si < slen || ci < clen
            invariant
                self.lcs_wf(),
                s == self.source.chars@,
                c == self.changed.chars@,
                whole == spec_diff_string(s, c, self.lcs@, 0, 0, 0),
                slen == s.len(),
                clen == c.len(),
                llen == self.lcs@.len(),
                di <= llen,
                si <= src_target(self.source, self.lcs@, di as int),
                ci <= ch_target(self.changed, self.lcs@, di as int),
                si <= slen,
                ci <= clen,
                acc@ + spec_diff_string(s, c, self.lcs@, si as int, ci as int, di as int)
                    == whole,
            decreases (slen - si) + (clen - ci),
        {
            let ghost si0 = si as int;
            let ghost ci0 = ci as int;
            let ghost di0 = di as int;
            let ghost rem0 = spec_diff_string(s, c, self.lcs@, si0, ci0, di0);
            let stop_s: usize = if di < llen {
                self.lcs[di].source_index.flat
            } else {
                slen
            };
            let stop_c: usize = if di < llen {
                self.lcs[di].changed_index.flat
            } else {
                clen
            };
            proof {
                if di < llen {
                    assert(anchor_pairs(self.lcs@)[di as int].0 < slen);
                    assert(anchor_pairs(self.lcs@)[di as int].1 < clen);
                }
                assert(s.subrange(si0, si0) =~= Seq::<char>::empty());
                assert(c.subrange(ci0, ci0) =~= Seq::<char>::empty());
                assert(acc@ + red_run(s.subrange(si0, si0)) =~= acc@);
            }
            let ghost acc0 = acc@;
            while si < stop_s
                invariant
                    s == self.source.chars@,
                    slen == s.len(),
                    0 <= si0 <= si <= stop_s <= slen,
                    acc@ == acc0 + red_run(s.subrange(si0, si as int)),
                decreases stop_s - si,
            {
                proof {
                    lemma_subrange_step(s, si0, si as int);
                }
                let ch: char = self.source.chars[si];
                push_red(&mut acc, ch);
                si = si + 1;
            }
            let ghost acc1 = acc@;
            proof {
                assert(acc@ + green_run(c.subrange(ci0, ci0)) =~= acc@);
            }
            while ci < stop_c
                invariant
                    c == self.changed.chars@,
                    clen == c.len(),
                    0 <= ci0 <= ci <= stop_c <= clen,
                    acc@ == acc1 + green_run(c.subrange(ci0, ci as int)),
                decreases stop_c - ci,
            {
                proof {
                    lemma_subrange_step(c, ci0, ci as int);
                }
                let ch: char = self.changed.chars[ci];
                push_green(&mut acc, ch);
                ci = ci + 1;
            }
            if di < llen {
                let ch: char = self.source.chars[si];
                acc.push(ch);
                proof {
                    assert(rem0 == red_run(s.subrange(si0, stop_s as int)) + green_run(
                        c.subrange(ci0, stop_c as int),
                    ) + seq![s[stop_s as int]] + spec_diff_string(
                        s,
                        c,
                        self.lcs@,
                        stop_s + 1,
                        stop_c + 1,
                        di0 + 1,
                    ));
                    assert(acc@ =~= acc0 + red_run(s.subrange(si0, stop_s as int)) + green_run(
                        c.subrange(ci0, stop_c as int),
                    ) + seq![s[stop_s as int]]);
                    assert(acc@ + spec_diff_string(
                        s,
                        c,
                        self.lcs@,
                        stop_s + 1,
                        stop_c + 1,
                        di0 + 1,
                    ) =~= acc0 + rem0);
                }
                si = si + 1;
                ci = ci + 1;
                di = di + 1;
                proof {
                    if di < llen {
                        assert(anchor_pairs(self.lcs@)[di - 1].0 < anchor_pairs(
                            self.lcs@,
                        )[di as int].0);
                        assert(anchor_pairs(self.lcs@)[di - 1].1 < anchor_pairs(
                            self.lcs@,
                        )[di as int].1);
                    }
                }
            } else {
                proof {
                    assert(rem0 == red_run(s.subrange(si0, slen as int)) + green_run(
                        c.subrange(ci0, clen as int),
                    ));
                    assert(acc@ =~= acc0 + rem0);
                    assert(spec_diff_string(s, c, self.lcs@, slen as int, clen as int, di as int)
                        == red_run(s.subrange(slen as int, slen as int)) + green_run(
                        c.subrange(clen as int, clen as int),
                    ));
                    assert(s.subrange(slen as int, slen as int) =~= Seq::<char>::empty());
                    assert(c.subrange(clen as int, clen as int) =~= Seq::<char>::empty());
                    assert(acc@ + spec_diff_string(
                        s,
                        c,
                        self.lcs@,
                        slen as int,
                        clen as int,
                        di as int,
                    ) =~= acc@);
                }
            }
        }
        proof {
            assert(spec_diff_string(s, c, self.lcs@, si as int, ci as int, di as int)
                == red_run(s.subrange(si as int, slen as int)) + green_run(
                c.subrange(ci as int, clen as int),
            ) || di < llen);
            if di < llen {
                assert(anchor_pairs(self.lcs@)[di as int].0 < slen);
                assert(anchor_pairs(self.lcs@)[di as int].1 < clen);
                assert(si == slen && ci == clen);
                assert(false);
            }
            assert(s.subrange(si as int, slen as int) =~= Seq::<char>::empty());
            assert(c.subrange(ci as int, clen as int) =~= Seq::<char>::empty());
            assert(acc@ =~= whole);
        }
        chars_to_string(&acc)
    }
}

/// The distinct line numbers of the script's deletions, in the order first
/// met; a repeat of the line just recorded is folded in.
pub open spec fn del_lines(ops: Seq<DiffChar>) -> Seq<usize>
    decreases ops.len(),
{
    if ops.len() == 0 {
        Seq::empty()
    } else {
        let rest = del_lines(ops.drop_last());
        if ops.last().char_type == DiffCharType::Deletion {
            if rest.len() > 0 && rest.last() == ops.last().index.line {
                rest
            } else {
                rest.push(ops.last().index.line)
            }
        } else {
            rest
        }
    }
}

/// The distinct line numbers of the script's additions, likewise.
pub open spec fn add_lines(ops: Seq<DiffChar>) -> Seq<usize>
    decreases ops.len(),
{
    if ops.len() == 0 {
        Seq::empty()
    } else {
        let rest = add_lines(ops.drop_last());
        if ops.last().char_type == DiffCharType::Addition {
            if rest.len() > 0 && rest.last() == ops.last().index.line {
                rest
            } else {
                rest.push(ops.last().index.line)
            }
        } else {
            rest
        }
    }
}

/// The distinct source line numbers of the anchored characters, likewise.
pub open spec fn common_lines(lcs: Seq<LCSChar>) -> Seq<usize>
    decreases lcs.len(),
{
    if lcs.len() == 0 {
        Seq::empty()
    } else {
        let rest = common_lines(lcs.drop_last());
        if rest.len() > 0 && rest.last() == lcs.last().source_index.line {
            rest
        } else {
            rest.push(lcs.last().source_index.line)
        }
    }
}

/// One removed line in the summary: a red minus, a space, then the line
/// painted red.
pub open spec fn removed_line_out(src: Seq<char>, l: nat) -> Seq<char> {
    red_chars('-') + seq![' '] + red_run(line_chars(src, l, src.len() as int))
}

/// One added line in the summary: a green plus, a space, then the line
/// painted green.
pub open spec fn added_line_out(chg: Seq<char>, l: nat) -> Seq<char> {
    green_chars('+') + seq![' '] + green_run(line_chars(chg, l, chg.len() as int))
}

/// How many entries, from `idx` on, continue the contiguous run of line
/// numbers starting at `start` and staying below `bound`.
pub open spec fn run_len(lines: Seq<usize>, idx: int, start: int, bound: int) -> int
    decreases lines.len() - idx,
{
    if 0 <= idx < lines.len() && start < bound && lines[idx] == start {
        1 + run_len(lines, idx + 1, start + 1, bound)
    } else {
        0
    }
}

/// The rendered block of one contiguous run of removed lines.
pub open spec fn removed_run_out(
    lines: Seq<usize>,
    idx: int,
    start: int,
    bound: int,
    src: Seq<char>,
) -> Seq<char>
    decreases lines.len() - idx,
{
    if 0 <= idx < lines.len() && start < bound && lines[idx] == start {
        removed_line_out(src, lines[idx] as nat) + removed_run_out(
            lines,
            idx + 1,
            start + 1,
            bound,
            src,
        )
    } else {
        Seq::empty()
    }
}

/// The rendered block of one contiguous run of added lines.
pub open spec fn added_run_out(
    lines: Seq<usize>,
    idx: int,
    start: int,
    bound: int,
    chg: Seq<char>,
) -> Seq<char>
    decreases lines.len() - idx,
{
    if 0 <= idx < lines.len() && start < bound && lines[idx] == start {
        added_line_out(chg, lines[idx] as nat) + added_run_out(lines, idx + 1, start + 1, bound, chg)
    } else {
        Seq::empty()
    }
}

/// How many entries at `mi` equal line `i` below `bound`.
pub open spec fn remained_len(lines: Seq<usize>, mi: int, i: int, bound: int) -> int
    decreases lines.len() - mi,
{
    if 0 <= mi < lines.len() && i < bound && lines[mi] == i {
        1 + remained_len(lines, mi + 1, i, bound)
    } else {
        0
    }
}

/// The rendered unchanged lines equal to `i` at cursor `mi`: a space, then
/// the source line plain.
pub open spec fn remained_out(
    lines: Seq<usize>,
    mi: int,
    i: int,
    bound: int,
    src: Seq<char>,
) -> Seq<char>
    decreases lines.len() - mi,
{
    if 0 <= mi < lines.len() && i < bound && lines[mi] == i {
        seq![' '] + line_chars(src, i as nat, src.len() as int) + remained_out(
            lines,
            mi + 1,
            i,
            bound,
            src,
        )
    } else {
        Seq::empty()
    }
}

/// The whole line-oriented summary from line `i` on: per line, the removed
/// run, the added run, then the unchanged entries -- with the unchanged
/// cursor first skipped forward by the number of removed lines, so an
/// unchanged line displaced by a removed block is left out.
pub open spec fn pretty_from(
    removed: Seq<usize>,
    added: Seq<usize>,
    remained: Seq<usize>,
    ri: int,
    ai: int,
    mi: int,
    i: int,
    bound: int,
    src: Seq<char>,
    chg: Seq<char>,
) -> Seq<char>
    decreases bound - i,
{
    if i >= bound {
        Seq::empty()
    } else {
        let rl = run_len(removed, ri, i, bound);
        let al = run_len(added, ai, i, bound);
        let mi2 = mi + rl;
        let ml = remained_len(remained, mi2, i, bound);
        removed_run_out(removed, ri, i, bound, src) + added_run_out(added, ai, i, bound, chg)
            + remained_out(remained, mi2, i, bound, src) + pretty_from(
            removed,
            added,
            remained,
            ri + rl,
            ai + al,
            mi2 + ml,
            i + 1,
            bound,
            src,
            chg,
        )
    }
}

/// The last line number of either buffer, the larger of the two; the
/// summary walks lines strictly below it.
pub open spec fn spec_line_count(d: Diff) -> int {
    let u = line_at(d.source.content@, d.source.chars@.len() - 1);
    let v = line_at(d.changed.content@, d.changed.chars@.len() - 1);
    if u >= v {
        u as int
    } else {
        v as int
    }
}

/// Appends a whole line painted red.
fn paint_line_red(acc: &mut Vec<char>, line: &Vec<char>)
    ensures
        final(acc)@ == old(acc)@ + red_run(line@),
{
    let ghost base = acc@;
    let mut t: usize = 0;
    let n = line.len();
    proof {
        assert(line@.subrange(0, 0) =~= Seq::<char>::empty());
        assert(base + red_run(line@.subrange(0, 0)) =~= base);
    }
    while t < n
        invariant
            n == line@.len(),
            t <= n,
            acc@ == base + red_run(line@.subrange(0, t as int)),
        decreases n - t,
    {
        proof {
            lemma_subrange_step(line@, 0, t as int);
        }
        let ch: char = line[t];
        push_red(acc, ch);
        t = t + 1;
    }
    proof {
        assert(line@.subrange(0, n as int) =~= line@);
    }
}

/// Appends a whole line painted green.
fn paint_line_green(acc: &mut Vec<char>, line: &Vec<char>)
    ensures
        final(acc)@ == old(acc)@ + green_run(line@),
{
    let ghost base = acc@;
    let mut t: usize = 0;
    let n = line.len();
    proof {
        assert(line@.subrange(0, 0) =~= Seq::<char>::empty());
        assert(base + green_run(line@.subrange(0, 0)) =~= base);
    }
    while t < n
        invariant
            n == line@.len(),
            t <= n,
            acc@ == base + green_run(line@.subrange(0, t as int)),
        decreases n - t,
    {
        proof {
            lemma_subrange_step(line@, 0, t as int);
        }
        let ch: char = line[t];
        push_green(acc, ch);
        t = t + 1;
    }
    proof {
        assert(line@.subrange(0, n as int) =~= line@);
    }
}

impl Diff {
    /// Renders the line-oriented summary: for each line, the contiguous
    /// run of removed lines (red, marked "-"), the contiguous run of added
    /// lines (green, marked "+"), then the unchanged source line -- the
    /// unchanged cursor first skipped forward by the number of removed
    /// lines, so an unchanged line displaced by a removed block is left
    /// out. Lines from the final one onward are not walked.
    pub fn to_pretty_string(&self) -> (r: String)
        requires
            self.source.wf(),
            self.changed.wf(),
            self.source.chars@.len() > 0,
            self.changed.chars@.len() > 0,
        ensures
            r@ == pretty_from(
                del_lines(self.diff@),
                add_lines(self.diff@),
                common_lines(self.lcs@),
                0,
                0,
                0,
                0,
                spec_line_count(*self),
                self.source.chars@,
                self.changed.chars@,
            ),
    {
        let ghost src = self.source.chars@;
        let ghost chg = self.changed.chars@;
        // gather the three line lists
        let mut removed: Vec<usize> = Vec::new();
        let mut added: Vec<usize> = Vec::new();
        let mut k: usize = 0;
        let dlen = self.diff.len();
        proof {
            assert(self.diff@.take(0) =~= Seq::<DiffChar>::empty());
        }
        while k < dlen
            invariant
                dlen == self.diff@.len(),
                k <= dlen,
                removed@ == del_lines(self.diff@.take(k as int)),
                added@ == add_lines(self.diff@.take(k as int)),
            decreases dlen - k,
        {
            proof {
                assert(self.diff@.take(k + 1).drop_last() =~= self.diff@.take(k as int));
                assert(self.diff@.take(k + 1).last() == self.diff@[k as int]);
            }
            let line = self.diff[k].index.line;
            let is_del = matches!(&self.diff[k].char_type, DiffCharType::Deletion);
            if is_del {
                let dup = removed.len() > 0 && removed[removed.len() - 1] == line;
                if !dup {
                    removed.push(line);
                }
            } else {
                let dup = added.len() > 0 && added[added.len() - 1] == line;
                if !dup {
                    added.push(line);
                }
            }
            k = k + 1;
        }
        let mut remained: Vec<usize> = Vec::new();
        let mut k2: usize = 0;
        let llen = self.lcs.len();
        proof {
            assert(self.diff@.take(dlen as int) =~= self.diff@);
            assert(self.lcs@.take(0) =~= Seq::<LCSChar>::empty());
        }
        while k2 < llen
            invariant
                llen == self.lcs@.len(),
                k2 <= llen,
                remained@ == common_lines(self.lcs@.take(k2 as int)),
            decreases llen - k2,
        {
            proof {
                assert(self.lcs@.take(k2 + 1).drop_last() =~= self.lcs@.take(k2 as int));
                assert(self.lcs@.take(k2 + 1).last() == self.lcs@[k2 as int]);
            }
            let line = self.lcs[k2].source_index.line;
            let dup = remained.len() > 0 && remained[remained.len() - 1] == line;
            if !dup {
                remained.push(line);
            }
            k2 = k2 + 1;
        }
        proof {
            assert(self.lcs@.take(llen as int) =~= self.lcs@);
        }
        let ghost big_r = removed@;
        let ghost big_a = added@;
        let ghost big_m = remained@;
        // the last line of either buffer bounds the walk
        let slen = self.source.chars.len();
        let clen = self.changed.chars.len();
        let u = self.source.indices[slen - 1].line;
        let v = self.changed.indices[clen - 1].line;
        let bound = if u >= v {
            u
        } else {
            v
        };
        proof {
            assert(self.source.indices@[slen - 1]@ == index_at(self.source.content@, slen - 1));
            assert(self.changed.indices@[clen - 1]@ == index_at(self.changed.content@, clen - 1));
            assert(bound as int == spec_line_count(*self));
        }
        let ghost whole = pretty_from(
            big_r,
            big_a,
            big_m,
            0,
            0,
            0,
            0,
            bound as int,
            src,
            chg,
        );
        let mut acc: Vec<char> = Vec::new();
        let mut ri: usize = 0;
        let mut ai: usize = 0;
        let mut mi: usize = 0;
        let ghost mut mi_spec: int = 0int;
        let mut i: usize = 0;
        let rlen = removed.len();
        let alen = added.len();
        let mlen = remained.len();
        while i < bound
            invariant
                self.source.wf(),
                self.changed.wf(),
                src == self.source.chars@,
                chg == self.changed.chars@,
                big_r == removed@,
                big_a == added@,
                big_m == remained@,
                rlen == big_r.len(),
                alen == big_a.len(),
                mlen == big_m.len(),
                i <= bound,
                ri <= rlen,
                ai <= alen,
                mi <= mlen,
                0 <= mi_spec,
                mi as int == (if mi_spec <= mlen as int {
                    mi_spec
                } else {
                    mlen as int
                }),
                whole == pretty_from(big_r, big_a, big_m, 0, 0, 0, 0, bound as int, src, chg),
                acc@ + pretty_from(
                    big_r,
                    big_a,
                    big_m,
                    ri as int,
                    ai as int,
                    mi_spec,
                    i as int,
                    bound as int,
                    src,
                    chg,
                ) == whole,
            decreases bound - i,
        {
            let ghost ri0 = ri as int;
            let ghost ai0 = ai as int;
            let ghost mi0 = mi_spec;
            let ghost acc0 = acc@;
            // removed run
            let ri_start = ri;
            let mut ct: usize = i;
            proof {
                assert(acc0 + removed_run_out(big_r, ri0, i as int, bound as int, src) =~= acc@
                    + removed_run_out(big_r, ri as int, ct as int, bound as int, src));
            }
            while ri < rlen && ct < bound && removed[ri] == ct
                invariant
                    self.source.wf(),
                    src == self.source.chars@,
                    big_r == removed@,
                    rlen == big_r.len(),
                    0 <= ri0 <= ri <= rlen,
                    i as int <= ct as int,
                    ct - i == ri - ri0,
                    ct <= bound,
                    acc0 + removed_run_out(big_r, ri0, i as int, bound as int, src) == acc@
                        + removed_run_out(big_r, ri as int, ct as int, bound as int, src),
                    run_len(big_r, ri0, i as int, bound as int) == (ri - ri0) + run_len(
                        big_r,
                        ri as int,
                        ct as int,
                        bound as int,
                    ),
                decreases bound - ct,
            {
                let ghost acc_b = acc@;
                push_red(&mut acc, '-');
                acc.push(' ');
                let lc = self.source.collect_line(removed[ri]);
                paint_line_red(&mut acc, &lc.0);
                proof {
                    assert(acc@ =~= acc_b + removed_line_out(src, big_r[ri as int] as nat));
                    assert(removed_run_out(big_r, ri as int, ct as int, bound as int, src)
                        == removed_line_out(src, big_r[ri as int] as nat) + removed_run_out(
                        big_r,
                        ri + 1,
                        ct + 1,
                        bound as int,
                        src,
                    ));
                    assert(acc0 + removed_run_out(big_r, ri0, i as int, bound as int, src)
                        =~= acc@ + removed_run_out(big_r, ri + 1, ct + 1, bound as int, src));
                }
                ri = ri + 1;
                ct = ct + 1;
            }
            let rl = ri - ri_start;
            let ghost out_r = removed_run_out(big_r, ri0, i as int, bound as int, src);
            proof {
                assert(removed_run_out(big_r, ri as int, ct as int, bound as int, src)
                    =~= Seq::<char>::empty());
                assert(run_len(big_r, ri as int, ct as int, bound as int) == 0);
                assert(acc@ =~= acc0 + out_r);
                assert(rl as int == run_len(big_r, ri0, i as int, bound as int));
            }
            // added run
            let ghost acc1 = acc@;
            let mut ct2: usize = i;
            proof {
                assert(acc1 + added_run_out(big_a, ai0, i as int, bound as int, chg) =~= acc@
                    + added_run_out(big_a, ai as int, ct2 as int, bound as int, chg));
            }
            while ai < alen && ct2 < bound && added[ai] == ct2
                invariant
                    self.changed.wf(),
                    chg == self.changed.chars@,
                    big_a == added@,
                    alen == big_a.len(),
                    0 <= ai0 <= ai <= alen,
                    i as int <= ct2 as int,
                    ct2 - i == ai - ai0,
                    ct2 <= bound,
                    acc1 + added_run_out(big_a, ai0, i as int, bound as int, chg) == acc@
                        + added_run_out(big_a, ai as int, ct2 as int, bound as int, chg),
                    run_len(big_a, ai0, i as int, bound as int) == (ai - ai0) + run_len(
                        big_a,
                        ai as int,
                        ct2 as int,
                        bound as int,
                    ),
                decreases bound - ct2,
            {
                let ghost acc_b = acc@;
                push_green(&mut acc, '+');
                acc.push(' ');
                let lc = self.changed.collect_line(added[ai]);
                paint_line_green(&mut acc, &lc.0);
                proof {
                    assert(acc@ =~= acc_b + added_line_out(chg, big_a[ai as int] as nat));
                    assert(added_run_out(big_a, ai as int, ct2 as int, bound as int, chg)
                        == added_line_out(chg, big_a[ai as int] as nat) + added_run_out(
                        big_a,
                        ai + 1,
                        ct2 + 1,
                        bound as int,
                        chg,
                    ));
                    assert(acc1 + added_run_out(big_a, ai0, i as int, bound as int, chg)
                        =~= acc@ + added_run_out(big_a, ai + 1, ct2 + 1, bound as int, chg));
                }
                ai = ai + 1;
                ct2 = ct2 + 1;
            }
            let ghost out_a = added_run_out(big_a, ai0, i as int, bound as int, chg);
            proof {
                assert(added_run_out(big_a, ai as int, ct2 as int, bound as int, chg)
                    =~= Seq::<char>::empty());
                assert(run_len(big_a, ai as int, ct2 as int, bound as int) == 0);
                assert(ai - ai0 == run_len(big_a, ai0, i as int, bound as int));
                assert(acc@ =~= acc1 + out_a);
            }
            // the unchanged cursor skips past the removed lines
            proof {
                mi_spec = mi_spec + rl as int;
            }
            if rl >= mlen - mi {
                mi = mlen;
            } else {
                mi = mi + rl;
            }
            let ghost mi2 = mi0 + rl as int;
            // unchanged lines equal to this line number
            let ghost acc2 = acc@;
            let ghost mcount0 = mi_spec;
            proof {
                assert(acc2 + remained_out(big_m, mi2, i as int, bound as int, src) =~= acc@
                    + remained_out(big_m, mi_spec, i as int, bound as int, src));
            }
            while mi < mlen && remained[mi] == i
                invariant
                    self.source.wf(),
                    src == self.source.chars@,
                    big_m == remained@,
                    mlen == big_m.len(),
                    i < bound,
                    mi <= mlen,
                    mi2 <= mi_spec,
                    mi as int == (if mi_spec <= mlen as int {
                        mi_spec
                    } else {
                        mlen as int
                    }),
                    0 <= mi_spec,
                    acc2 + remained_out(big_m, mi2, i as int, bound as int, src) == acc@
                        + remained_out(big_m, mi_spec, i as int, bound as int, src),
                    remained_len(big_m, mi2, i as int, bound as int) == (mi_spec - mi2)
                        + remained_len(big_m, mi_spec, i as int, bound as int),
                decreases mlen - mi,
            {
                let ghost acc_b = acc@;
                acc.push(' ');
                let lc = self.source.collect_line(i);
                let mut lv = lc.0;
                acc.append(&mut lv);
                proof {
                    assert(mi_spec == mi as int);
                    assert(acc@ =~= acc_b + (seq![' '] + line_chars(
                        src,
                        i as nat,
                        src.len() as int,
                    )));
                    assert(remained_out(big_m, mi_spec, i as int, bound as int, src) == seq![' ']
                        + line_chars(src, i as nat, src.len() as int) + remained_out(
                        big_m,
                        mi_spec + 1,
                        i as int,
                        bound as int,
                        src,
                    ));
                    assert(acc2 + remained_out(big_m, mi2, i as int, bound as int, src)
                        =~= acc@ + remained_out(big_m, mi_spec + 1, i as int, bound as int, src));
                    mi_spec = mi_spec + 1;
                }
                mi = mi + 1;
            }
            let ghost out_m = remained_out(big_m, mi2, i as int, bound as int, src);
            proof {
                assert(remained_out(big_m, mi_spec, i as int, bound as int, src)
                    =~= Seq::<char>::empty());
                assert(remained_len(big_m, mi_spec, i as int, bound as int) == 0);
                assert(acc@ =~= acc2 + out_m);
                assert(mi_spec == mi2 + remained_len(big_m, mi2, i as int, bound as int));
                // one whole line of the summary is now appended
                assert(pretty_from(
                    big_r,
                    big_a,
                    big_m,
                    ri0,
                    ai0,
                    mi0,
                    i as int,
                    bound as int,
                    src,
                    chg,
                ) == out_r + out_a + out_m + pretty_from(
                    big_r,
                    big_a,
                    big_m,
                    ri as int,
                    ai as int,
                    mi_spec,
                    i + 1,
                    bound as int,
                    src,
                    chg,
                ));
                assert(acc@ + pretty_from(
                    big_r,
                    big_a,
                    big_m,
                    ri as int,
                    ai as int,
                    mi_spec,
                    i + 1,
                    bound as int,
                    src,
                    chg,
                ) =~= acc0 + pretty_from(
                    big_r,
                    big_a,
                    big_m,
                    ri0,
                    ai0,
                    mi0,
                    i as int,
                    bound as int,
                    src,
                    chg,
                ));
            }
            i = i + 1;
        }
        proof {
            assert(pretty_from(
                big_r,
                big_a,
                big_m,
                ri as int,
                ai as int,
                mi_spec,
                i as int,
                bound as int,
                src,
                chg,
            ) =~= Seq::<char>::empty());
            assert(acc@ =~= whole);
        }
        chars_to_string(&acc)
    }
}

} // verus!