//! The source text model: the loaded text, its path, and two ascending tables
//! of line starts (one in characters, one in bytes) that map offsets to
//! 1-based line/column positions.

use vstd::prelude::*;
use vstd::utf8::encode_utf8;
use vstd::string::StrSliceExecFns;
use crate::text::{
    blen, boundary, char_width, chars_between, chars_of, lemma_blen_ge_len, lemma_blen_push,
    lemma_blen_take_mono, lemma_boundary_index, lemma_split_boundary, lemma_take_boundary,
    split_str, suffix_from,
};

verus! {

broadcast use vstd::seq::group_seq_axioms;

/// A 1-based position in a source text, ordered by line, then column.
#[derive(Clone, Copy, PartialEq, Eq, Structural, PartialOrd, Ord, Debug, Hash)]
pub struct SrcLoc {
    pub ln: usize,
    pub col: usize,
}

impl SrcLoc {
    pub fn new(loc_tuple: (usize, usize)) -> (r: Self)
        ensures
            r.ln == loc_tuple.0,
            r.col == loc_tuple.1,
    {
        SrcLoc { ln: loc_tuple.0, col: loc_tuple.1 }
    }
}

/// `a` comes no later than `b`, comparing lines first, then columns.
pub open spec fn loc_le(a: (int, int), b: (int, int)) -> bool {
    a.0 < b.0 || (a.0 == b.0 && a.1 <= b.1)
}

/// Character offsets at which lines begin: 0, then one past each newline.
pub open spec fn line_starts(s: Seq<char>) -> Seq<int>
    decreases s.len(),
{
    if s.len() == 0 {
        seq![0]
    } else {
        let p = line_starts(s.drop_last());
        if s.last() == '\n' {
            p.push(s.len() as int)
        } else {
            p
        }
    }
}

/// Byte offsets at which lines begin: 0, then one past each newline.
pub open spec fn byte_line_starts(s: Seq<char>) -> Seq<int>
    decreases s.len(),
{
    if s.len() == 0 {
        seq![0]
    } else {
        let p = byte_line_starts(s.drop_last());
        if s.last() == '\n' {
            p.push(blen(s) as int)
        } else {
            p
        }
    }
}

/// How many entries of the table are at most `off`.
pub open spec fn count_upto(t: Seq<int>, off: int) -> int
    decreases t.len(),
{
    if t.len() == 0 {
        0
    } else {
        count_upto(t.drop_last(), off) + if t.last() <= off {
            1int
        } else {
            0int
        }
    }
}

/// The table viewed as mathematical integers.
pub open spec fn ints(v: Seq<usize>) -> Seq<int> {
    v.map_values(|x: usize| x as int)
}

/// Strictly ascending, starting at 0.
pub open spec fn ascending_from_zero(t: Seq<int>) -> bool {
    &&& t.len() >= 1
    &&& t[0] == 0
    &&& forall|i: int, j: int| 0 <= i < j < t.len() ==> t[i] < t[j]
}

/// Line and column of a character offset.
pub open spec fn char_loc(s: Seq<char>, off: int) -> (int, int) {
    let t = line_starts(s);
    let k = count_upto(t, off);
    (k, off - t[k - 1] + 1)
}

/// Line and column of a byte offset; the column counts characters.
pub open spec fn byte_loc(s: Seq<char>, off: int) -> (int, int) {
    let k = count_upto(byte_line_starts(s), off);
    (k, chars_between(s, 0, off).len() - line_starts(s)[k - 1] + 1)
}

/// The text of the line that holds the character offset `off`, newline
/// excluded.
pub open spec fn char_line(s: Seq<char>, off: int) -> Seq<char> {
    let t = line_starts(s);
    let k = count_upto(t, off);
    s.subrange(t[k - 1], if k < t.len() { t[k] - 1 } else { s.len() as int })
}

/// The text of the line that holds the byte offset `off`, newline included.
pub open spec fn line_text_at(s: Seq<char>, off: int) -> Seq<char> {
    let t = line_starts(s);
    let k = count_upto(byte_line_starts(s), off);
    s.subrange(t[k - 1], if k < t.len() { t[k] } else { s.len() as int })
}

proof fn lemma_line_starts(s: Seq<char>)
    ensures
        ascending_from_zero(line_starts(s)),
        line_starts(s).len() == byte_line_starts(s).len(),
        line_starts(s).len() <= s.len() + 1,
        forall|i: int|
            0 <= i < line_starts(s).len() ==> 0 <= #[trigger] line_starts(s)[i] <= s.len(),
        forall|i: int|
            0 <= i < line_starts(s).len() ==> #[trigger] byte_line_starts(s)[i] == blen(
                s.take(line_starts(s)[i]),
            ),
        forall|i: int|
            1 <= i < line_starts(s).len() ==> 1 <= #[trigger] line_starts(s)[i] && s[line_starts(
                s,
            )[i] - 1] == '\n',
    decreases s.len(),
{
    if s.len() == 0 {
        assert(s.take(0) =~= s);
        assert(encode_utf8(s) =~= Seq::<u8>::empty());
    } else {
        let p = s.drop_last();
        lemma_line_starts(p);
        assert forall|i: int| 0 <= i < line_starts(p).len() implies s.take(line_starts(p)[i])
            == p.take(line_starts(p)[i]) by {
            assert(s.take(line_starts(p)[i]) =~= p.take(line_starts(p)[i]));
        }
        assert forall|i: int| 1 <= i < line_starts(p).len() implies s[line_starts(p)[i] - 1]
            == p[line_starts(p)[i] - 1] by {}
        assert(s.take(s.len() as int) =~= s);
    }
}

proof fn lemma_byte_line_starts_ascending(s: Seq<char>)
    ensures
        ascending_from_zero(byte_line_starts(s)),
        forall|i: int|
            0 <= i < byte_line_starts(s).len() ==> 0 <= #[trigger] byte_line_starts(s)[i] <= blen(
                s,
            ),
{
    lemma_line_starts(s);
    let t = line_starts(s);
    let bt = byte_line_starts(s);
    assert(s.take(0) =~= Seq::<char>::empty());
    assert(encode_utf8(Seq::<char>::empty()) =~= Seq::<u8>::empty());
    assert forall|i: int, j: int| 0 <= i < j < bt.len() implies bt[i] < bt[j] by {
        lemma_blen_take_mono(s, t[i], t[j]);
    }
    assert forall|i: int| 0 <= i < bt.len() implies 0 <= #[trigger] bt[i] <= blen(s) by {
        lemma_blen_take_mono(s, t[i], s.len() as int);
        assert(s.take(s.len() as int) =~= s);
    }
}

proof fn lemma_count_partition(t: Seq<int>, off: int, k: int)
    requires
        0 <= k <= t.len(),
        forall|i: int| 0 <= i < k ==> #[trigger] t[i] <= off,
        forall|i: int| k <= i < t.len() ==> #[trigger] t[i] > off,
    ensures
        count_upto(t, off) == k,
    decreases t.len(),
{
    if t.len() > 0 {
        let p = t.drop_last();
        if k == t.len() {
            lemma_count_partition(p, off, k - 1);
        } else {
            lemma_count_partition(p, off, k);
        }
    }
}

proof fn lemma_count_bounds(t: Seq<int>, off: int)
    requires
        ascending_from_zero(t),
        0 <= off,
    ensures
        1 <= count_upto(t, off) <= t.len(),
        t[count_upto(t, off) - 1] <= off,
        count_upto(t, off) < t.len() ==> off < t[count_upto(t, off)],
{
    let k = choose_partition(t, off);
    lemma_count_partition(t, off, k);
}

proof fn choose_partition(t: Seq<int>, off: int) -> (k: int)
    requires
        ascending_from_zero(t),
        0 <= off,
    ensures
        1 <= k <= t.len(),
        forall|i: int| 0 <= i < k ==> #[trigger] t[i] <= off,
        forall|i: int| k <= i < t.len() ==> #[trigger] t[i] > off,
    decreases t.len(),
{
    if t.len() == 1 {
        1
    } else {
        let p = t.drop_last();
        assert forall|i: int| 0 <= i < p.len() implies #[trigger] p[i] == t[i] by {}
        let kp = choose_partition(p, off);
        if t.last() <= off {
            assert forall|i: int| 0 <= i < t.len() implies #[trigger] t[i] <= off by {
                if i < t.len() - 1 {
                    assert(t[i] < t[t.len() - 1]);
                }
            }
            t.len() as int
        } else {
            assert forall|i: int| 0 <= i < kp implies #[trigger] t[i] <= off by {
                assert(p[i] <= off);
            }
            assert forall|i: int| kp <= i < t.len() implies #[trigger] t[i] > off by {
                if i < t.len() - 1 {
                    assert(p[i] > off);
                }
            }
            kp
        }
    }
}

proof fn lemma_count_mono(t: Seq<int>, a: int, b: int)
    requires
        a <= b,
    ensures
        count_upto(t, a) <= count_upto(t, b),
    decreases t.len(),
{
    if t.len() > 0 {
        lemma_count_mono(t.drop_last(), a, b);
    }
}

/// Lines and columns are 1-based.
pub proof fn lemma_char_loc_bounds(s: Seq<char>, off: int)
    requires
        0 <= off,
    ensures
        1 <= char_loc(s, off).0 <= line_starts(s).len(),
        1 <= char_loc(s, off).1,
{
    lemma_line_starts(s);
    lemma_count_bounds(line_starts(s), off);
}

/// A well-formed source's byte length fits in `usize`.
pub proof fn lemma_srcfile_len(f: SrcFileInfo)
    requires
        f.wf(),
    ensures
        blen(f.text()) < usize::MAX,
{
}

/// Locating character offsets is monotonic: a later offset never lies on an
/// earlier line, nor at an earlier column of the same line.
pub proof fn lemma_char_loc_monotonic(s: Seq<char>, a: int, b: int)
    requires
        0 <= a <= b,
    ensures
        loc_le(char_loc(s, a), char_loc(s, b)),
{
    lemma_line_starts(s);
    lemma_count_mono(line_starts(s), a, b);
    lemma_count_bounds(line_starts(s), a);
    lemma_count_bounds(line_starts(s), b);
}

/// Locating byte offsets is monotonic over character boundaries: a later
/// offset never lies on an earlier line, nor at an earlier column of the same
/// line.
pub proof fn lemma_byte_loc_monotonic(s: Seq<char>, a: int, b: int)
    requires
        boundary(s, a),
        boundary(s, b),
        a <= b,
    ensures
        loc_le(byte_loc(s, a), byte_loc(s, b)),
{
    lemma_split_boundary(s, a);
    lemma_split_boundary(s, b);
    lemma_byte_line_starts_ascending(s);
    lemma_count_mono(byte_line_starts(s), a, b);
    lemma_boundary_index(s, a);
    lemma_boundary_index(s, b);
    let ka = chars_between(s, 0, a).len() as int;
    let kb = chars_between(s, 0, b).len() as int;
    if ka > kb {
        lemma_blen_take_mono(s, kb, ka);
    }
}

/// Finds how many entries of an ascending table are at most `off`.
fn upper_index(t: &Vec<usize>, off: usize) -> (r: usize)
    requires
        ascending_from_zero(ints(t@)),
    ensures
        r as int == count_upto(ints(t@), off as int),
        1 <= r <= t@.len(),
{
    let ghost ti = ints(t@);
    let mut lo: usize = 0;
    let mut hi: usize = t.len();
    while lo < hi
        invariant
            ti == ints(t@),
            ascending_from_zero(ti),
            0 <= lo <= hi <= t@.len(),
            forall|i: int| 0 <= i < lo ==> #[trigger] ti[i] <= off,
            forall|i: int| hi <= i < t@.len() ==> #[trigger] ti[i] > off,
        decreases hi - lo,
    {
        let mid = lo + (hi - lo) / 2;
        if t[mid] <= off {
            assert forall|i: int| 0 <= i <= mid implies #[trigger] ti[i] <= off by {
                if i < mid {
                    assert(ti[i] < ti[mid as int]);
                }
            }
            lo = mid + 1;
        } else {
            assert forall|i: int| mid <= i < t@.len() implies #[trigger] ti[i] > off by {
                if i > mid {
                    assert(ti[mid as int] < ti[i]);
                }
            }
            hi = mid;
        }
    }
    proof {
        lemma_count_partition(ti, off as int, lo as int);
        lemma_count_bounds(ti, off as int);
    }
    lo
}

/// The last component of a path, as `std::path::Path::file_name` gives it.
pub uninterp spec fn file_name_of(path: Seq<char>) -> Option<Seq<char>>;

/// The path without its last component, as `std::path::Path::parent` gives it.
pub uninterp spec fn parent_of(path: Seq<char>) -> Option<Seq<char>>;

/// The characters of an optional string.
pub open spec fn opt_chars(o: Option<String>) -> Option<Seq<char>> {
    match o {
        Some(s) => Some(s@),
        None => None,
    }
}

/// Relies on `std::path::Path::file_name`: the final component of the path,
/// unless the path ends in `..` or has no components. A component of a path
/// made from a `&str` is valid UTF-8, so the lossy conversion is exact.
#[verifier::external_body]
fn path_file_name(path: &str) -> (r: Option<String>)
    ensures
        opt_chars(r) == file_name_of(path@),
{
    match std::path::Path::new(path).file_name() {
        Some(name) => Some(name.to_string_lossy().into_owned()),
        None => None,
    }
}

/// Relies on `std::path::Path::parent`: the path without its final
/// component, unless the path is a root or empty. A prefix of a path made
/// from a `&str` is valid UTF-8, so the lossy conversion is exact.
#[verifier::external_body]
fn path_parent(path: &str) -> (r: Option<String>)
    ensures
        opt_chars(r) == parent_of(path@),
{
    match std::path::Path::new(path).parent() {
        Some(dir) => Some(dir.to_string_lossy().into_owned()),
        None => None,
    }
}

/// A loaded source text with its path and line tables.
#[derive(PartialEq, Eq, Debug)]
pub struct SrcFileInfo {
    path: String,
    /// Character offset of the start of each line.
    lines: Vec<usize>,
    /// Byte offset of the start of each line.
    blines: Vec<usize>,
    srcstr: String,
}

impl SrcFileInfo {
    /// The source text.
    pub closed spec fn text(&self) -> Seq<char> {
        self.srcstr@
    }

    /// The path the text was loaded from (empty for in-memory text).
    pub closed spec fn path(&self) -> Seq<char> {
        self.path@
    }

    /// The line tables describe the text, whose byte length fits in `usize`.
    pub closed spec fn wf(&self) -> bool {
        &&& blen(self.srcstr@) < usize::MAX
        &&& ints(self.lines@) == line_starts(self.srcstr@)
        &&& ints(self.blines@) == byte_line_starts(self.srcstr@)
    }

    /// Wraps in-memory text, with an empty path.
    pub fn from_str(srcstr: String) -> (r: Self)
        requires
            blen(srcstr@) < usize::MAX,
        ensures
            r.wf(),
            r.text() == srcstr@,
            r.path() == Seq::<char>::empty(),
    {
        Self::with_path(String::new(), srcstr)
    }

    /// Wraps text loaded from `path`.
    pub fn with_path(path: String, srcstr: String) -> (r: Self)
        requires
            blen(srcstr@) < usize::MAX,
        ensures
            r.wf(),
            r.text() == srcstr@,
            r.path() == path@,
    {
        let lines = Self::build_lines(srcstr.as_str());
        let blines = Self::build_blines(srcstr.as_str());
        SrcFileInfo { path, lines, blines, srcstr }
    }

    fn build_lines(srcstr: &str) -> (r: Vec<usize>)
        requires
            blen(srcstr@) < usize::MAX,
        ensures
            ints(r@) == line_starts(srcstr@),
    {
        let chars = chars_of(srcstr);
        let ghost s = srcstr@;
        proof {
            lemma_blen_ge_len(s);
        }
        let mut lines: Vec<usize> = Vec::new();
        lines.push(0);
        let mut total: usize = 0;
        while total < chars.len()
            invariant
                chars@ == s,
                s.len() < usize::MAX,
                0 <= total <= s.len(),
                ints(lines@) == line_starts(s.take(total as int)),
            decreases s.len() - total,
        {
            let c = chars[total];
            proof {
                assert(s.take(total + 1).drop_last() =~= s.take(total as int));
            }
            total += 1;
            if c == '\n' {
                lines.push(total);
                assert(ints(lines@) =~= line_starts(s.take(total as int)));
            }
        }
        assert(s.take(total as int) =~= s);
        lines
    }

    fn build_blines(srcstr: &str) -> (r: Vec<usize>)
        requires
            blen(srcstr@) < usize::MAX,
        ensures
            ints(r@) == byte_line_starts(srcstr@),
    {
        let chars = chars_of(srcstr);
        let ghost s = srcstr@;
        let mut lines: Vec<usize> = Vec::new();
        lines.push(0);
        let mut i: usize = 0;
        let mut total: usize = 0;
        proof {
            assert(s.take(0) =~= Seq::<char>::empty());
            assert(encode_utf8(Seq::<char>::empty()) =~= Seq::<u8>::empty());
        }
        while i < chars.len()
            invariant
                chars@ == s,
                blen(s) < usize::MAX,
                0 <= i <= s.len(),
                total == blen(s.take(i as int)),
                ints(lines@) == byte_line_starts(s.take(i as int)),
            decreases s.len() - i,
        {
            let c = chars[i];
            let w = char_width(c);
            proof {
                assert(s.take(i + 1).drop_last() =~= s.take(i as int));
                assert(s.take(i as int).push(c) =~= s.take(i + 1));
                lemma_blen_push(s.take(i as int), c);
                lemma_blen_take_mono(s, i + 1, s.len() as int);
                assert(s.take(s.len() as int) =~= s);
            }
            total += w;
            i += 1;
            if c == '\n' {
                lines.push(total);
                assert(ints(lines@) =~= byte_line_starts(s.take(i as int)));
            }
        }
        assert(s.take(i as int) =~= s);
        lines
    }

    pub fn get_srcstr(&self) -> (r: &str)
        ensures
            r@ == self.text(),
    {
        self.srcstr.as_str()
    }

    pub fn get_path(&self) -> (r: &str)
        ensures
            r@ == self.path(),
    {
        self.path.as_str()
    }

    /// Line and column of a character offset.
    pub fn offset2srcloc(&self, offset: usize) -> (r: SrcLoc)
        requires
            self.wf(),
            offset < usize::MAX,
        ensures
            (r.ln as int, r.col as int) == char_loc(self.text(), offset as int),
    {
        proof {
            lemma_line_starts(self.srcstr@);
            lemma_count_bounds(line_starts(self.srcstr@), offset as int);
        }
        let idx = upper_index(&self.lines, offset);
        SrcLoc { ln: idx, col: offset - self.lines[idx - 1] + 1 }
    }

    /// Line and column of a byte offset, which must fall on a character
    /// boundary; the column counts characters, never splitting one.
    pub fn boffset2srcloc(&self, offset: usize) -> (r: SrcLoc)
        requires
            self.wf(),
            boundary(self.text(), offset as int),
        ensures
            (r.ln as int, r.col as int) == byte_loc(self.text(), offset as int),
    {
        let ghost s = self.srcstr@;
        proof {
            lemma_line_starts(s);
            lemma_byte_line_starts_ascending(s);
            lemma_split_boundary(s, offset as int);
            lemma_count_bounds(byte_line_starts(s), offset as int);
            lemma_boundary_index(s, offset as int);
        }
        let idx = upper_index(&self.blines, offset);
        let k0 = self.lines[idx - 1];
        let b0 = self.blines[idx - 1];
        let (p, _) = split_str(self.srcstr.as_str(), offset);
        proof {
            let kk = p@.len() as int;
            if k0 > kk {
                lemma_blen_take_mono(s, kk, k0 as int);
            }
            assert(p@.take(k0 as int) =~= s.take(k0 as int));
            lemma_blen_ge_len(s);
        }
        let q = suffix_from(p, Ghost(k0 as int), b0);
        let n = q.unicode_len();
        SrcLoc { ln: idx, col: n + 1 }
    }

    /// The text of the line holding the byte offset `cur`, newline included.
    pub fn linestr(&self, cur: usize) -> (r: Option<&str>)
        requires
            self.wf(),
        ensures
            r matches Some(l) && l@ == line_text_at(self.text(), cur as int),
    {
        let ghost s = self.srcstr@;
        proof {
            lemma_line_starts(s);
            lemma_byte_line_starts_ascending(s);
            lemma_count_bounds(byte_line_starts(s), cur as int);
        }
        let idx = upper_index(&self.blines, cur);
        let ghost t = line_starts(s);
        let ghost k0 = t[idx - 1];
        let ghost k1 = if idx < t.len() { t[idx as int] } else { s.len() as int };
        let src = self.srcstr.as_str();
        let end = if idx < self.blines.len() {
            self.blines[idx]
        } else {
            src.len()
        };
        proof {
            assert(s.take(s.len() as int) =~= s);
            assert(end == blen(s.take(k1)));
            assert(k0 <= k1);
        }
        let p = if idx < self.blines.len() {
            proof {
                lemma_take_boundary(s, k1);
            }
            let (p, _) = split_str(src, end);
            p
        } else {
            src
        };
        proof {
            if idx < self.blines.len() {
                lemma_take_boundary(s, k1);
            }
            assert(p@ =~= s.take(k1));
            assert(p@.take(k0) =~= s.take(k0));
        }
        let q = suffix_from(p, Ghost(k0), self.blines[idx - 1]);
        assert(q@ =~= s.subrange(k0, k1));
        Some(q)
    }

    /// The text of the line holding the character offset `offset`, without
    /// its newline.
    pub fn char_line_text(&self, offset: usize) -> (r: &str)
        requires
            self.wf(),
        ensures
            r@ == char_line(self.text(), offset as int),
    {
        let ghost s = self.srcstr@;
        proof {
            lemma_line_starts(s);
            lemma_count_bounds(line_starts(s), offset as int);
        }
        let idx = upper_index(&self.lines, offset);
        let ghost t = line_starts(s);
        let ghost k0 = t[idx - 1];
        let ghost k1 = if idx < t.len() { t[idx as int] - 1 } else { s.len() as int };
        let src = self.srcstr.as_str();
        proof {
            assert(s.take(s.len() as int) =~= s);
            if idx < t.len() {
                assert(s.take(t[idx as int] - 1).push('\n') =~= s.take(t[idx as int]));
                lemma_blen_push(s.take(t[idx as int] - 1), '\n');
                crate::text::lemma_width_newline();
                assert(k0 < t[idx as int]);
                assert(ints(self.blines@)[idx as int] == byte_line_starts(s)[idx as int]);
            }
            if idx < self.blines@.len() {
                assert(ints(self.blines@)[idx as int] == byte_line_starts(s)[idx as int]);
            }
        }
        let end = if idx < self.blines.len() {
            self.blines[idx] - 1
        } else {
            src.len()
        };
        proof {
            assert(end == blen(s.take(k1)));
            assert(k0 <= k1);
            lemma_take_boundary(s, k1);
        }
        let (p, _) = split_str(src, end);
        proof {
            assert(p@ =~= s.take(k1));
            assert(p@.take(k0) =~= s.take(k0));
        }
        proof {
            assert(ints(self.blines@)[idx - 1] == byte_line_starts(s)[idx - 1]);
        }
        let q = suffix_from(p, Ghost(k0), self.blines[idx - 1]);
        assert(q@ =~= s.subrange(k0, k1));
        q
    }

    /// The final component of the path. A path without one (the empty path
    /// of in-memory text, or one ending in `..`) gives `None` rather than a
    /// panic.
    pub fn filename(&self) -> (r: Option<String>)
        ensures
            opt_chars(r) == file_name_of(self.path()),
    {
        path_file_name(self.path.as_str())
    }

    /// The path without its final component. A path without a parent (the
    /// empty path of in-memory text, or a root) gives `None` rather than a
    /// panic.
    pub fn dirname(&self) -> (r: Option<String>)
        ensures
            opt_chars(r) == parent_of(self.path()),
    {
        path_parent(self.path.as_str())
    }

    /// An independent copy of this source.
    pub fn duplicate(&self) -> (r: Self)
        requires
            self.wf(),
        ensures
            r.wf(),
            r.text() == self.text(),
            r.path() == self.path(),
    {
        Self::with_path(self.path.clone(), self.srcstr.clone())
    }
}

} // verus!
