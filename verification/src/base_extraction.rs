//! Composition extraction over bare sequence lines: one line per
//! read, no headers or quality data, the column table growing to fit
//! the longest line seen. The result is serialized in a flat JSON
//! shape, `{"lib":[{"pos":1,"A":..,"T":..,"G":..,"C":..,"N":..},..],"len":N}`.

use vstd::prelude::*;

verus! {

use vstd::string::{StrSliceExecFns, StringExecFns};
use crate::{BaseCompCol, BaseCompColBases, col_sum, inc_base, pct_bases, valid_base};

/// Occurrence counts of the five base symbols in one column, plus the
/// column's position.
#[derive(Debug, Copy, Clone, PartialEq, Eq, Structural)]
#[allow(non_snake_case)]
pub struct Read {
    pub pos: usize,
    pub A: usize,
    pub T: usize,
    pub G: usize,
    pub C: usize,
    pub N: usize,
}

/// The counts of a flat column, as the common column-counts type.
pub open spec fn read_bases(r: Read) -> BaseCompColBases {
    BaseCompColBases { A: r.A, T: r.T, G: r.G, C: r.C, N: r.N }
}

/// A flat column as the common positioned-column type, the model all
/// contracts of this module speak of.
pub open spec fn as_col(r: Read) -> BaseCompCol {
    BaseCompCol { pos: r.pos, bases: read_bases(r) }
}

impl Read {
    pub fn new(pos: usize) -> (r: Read)
        ensures
            r == (Read { pos, A: 0, T: 0, G: 0, C: 0, N: 0 }),
    {
        Read { pos, A: 0, T: 0, G: 0, C: 0, N: 0 }
    }

    /// Records one occurrence of the base symbol `*s`. A byte outside
    /// `ATGCN` is malformed input and is excluded here.
    pub fn extract(&mut self, s: &u8)
        requires
            *s == crate::BYTE_A || *s == crate::BYTE_T || *s == crate::BYTE_G || *s
                == crate::BYTE_C || *s == crate::BYTE_N,
            col_sum(read_bases(*old(self))) < usize::MAX,
        ensures
            final(self).pos == old(self).pos,
            read_bases(*final(self)) == inc_base(read_bases(*old(self)), *s as char),
    {
        if *s == crate::BYTE_A {
            self.A = self.A + 1;
        } else if *s == crate::BYTE_T {
            self.T = self.T + 1;
        } else if *s == crate::BYTE_G {
            self.G = self.G + 1;
        } else if *s == crate::BYTE_C {
            self.C = self.C + 1;
        } else {
            self.N = self.N + 1;
        }
    }

    /// The five counts as an array, in the fixed order A, T, G, C, N.
    pub fn as_arr(&self) -> (r: [usize; 5])
        ensures
            r@ == seq![self.A, self.T, self.G, self.C, self.N],
    {
        let r = [self.A, self.T, self.G, self.C, self.N];
        proof {
            assert(r@ =~= seq![self.A, self.T, self.G, self.C, self.N]);
        }
        r
    }

    /// Rebuilds a column from five counts in the order A, T, G, C, N,
    /// the inverse of [`Self::as_arr`].
    pub fn from_iter(v: &Vec<usize>, pos: usize) -> (r: Read)
        requires
            v@.len() >= 5,
        ensures
            r == (Read { pos, A: v@[0], T: v@[1], G: v@[2], C: v@[3], N: v@[4] }),
    {
        Read { pos, A: v[0], T: v[1], G: v[2], C: v[3], N: v[4] }
    }

    /// Converts the counts to rounded percentages of the column sum.
    /// One-way: the counts are lost, and a second call would compute
    /// percentages of percentages.
    pub fn calc_percentage(&mut self)
        ensures
            final(self).pos == old(self).pos,
            read_bases(*final(self)) == pct_bases(read_bases(*old(self))),
    {
        let sum: u128 = self.A as u128 + self.T as u128 + self.G as u128 + self.C as u128
            + self.N as u128;
        if sum > 0 {
            let a = crate::pct_calc(self.A, sum);
            let t = crate::pct_calc(self.T, sum);
            let g = crate::pct_calc(self.G, sum);
            let c = crate::pct_calc(self.C, sum);
            let n = crate::pct_calc(self.N, sum);
            self.A = a;
            self.T = t;
            self.G = g;
            self.C = c;
            self.N = n;
        }
    }
}

/// An ASCII whitespace character, the characters stripped from the
/// ends of each input line.
pub open spec fn is_ws(c: char) -> bool {
    c == ' ' || ('\t' <= c <= '\r')
}

/// The line with leading whitespace removed.
pub open spec fn trim_start_spec(s: Seq<char>) -> Seq<char>
    decreases s.len(),
{
    if s.len() > 0 && is_ws(s.first()) {
        trim_start_spec(s.drop_first())
    } else {
        s
    }
}

/// The line with trailing whitespace removed.
pub open spec fn trim_end_spec(s: Seq<char>) -> Seq<char>
    decreases s.len(),
{
    if s.len() > 0 && is_ws(s.last()) {
        trim_end_spec(s.drop_last())
    } else {
        s
    }
}

/// The line with whitespace removed from both ends.
pub open spec fn trim_ws(s: Seq<char>) -> Seq<char> {
    trim_end_spec(trim_start_spec(s))
}

proof fn lemma_trim_start_skip(s: Seq<char>, a: int)
    requires
        0 <= a <= s.len(),
        forall|j: int| 0 <= j < a ==> is_ws(#[trigger] s[j]),
        a < s.len() ==> !is_ws(s[a]),
    ensures
        trim_start_spec(s) == s.skip(a),
    decreases a,
{
    if a == 0 {
        assert(s.skip(0) =~= s);
    } else {
        assert(is_ws(s.first()));
        let rest = s.drop_first();
        assert(forall|j: int| 0 <= j < a - 1 ==> is_ws(#[trigger] rest[j])) by {
            assert(forall|j: int| 0 <= j < a - 1 ==> rest[j] == s[j + 1]);
        }
        lemma_trim_start_skip(rest, a - 1);
        assert(rest.skip(a - 1) =~= s.skip(a));
    }
}

proof fn lemma_trim_end_take(s: Seq<char>, b: int)
    requires
        0 <= b <= s.len(),
        forall|j: int| b <= j < s.len() ==> is_ws(#[trigger] s[j]),
        b > 0 ==> !is_ws(s[b - 1]),
    ensures
        trim_end_spec(s) == s.take(b),
    decreases s.len() - b,
{
    if b == s.len() {
        if s.len() > 0 {
            assert(!is_ws(s.last()));
        }
        assert(s.take(b) =~= s);
    } else {
        assert(is_ws(s.last()));
        let rest = s.drop_last();
        lemma_trim_end_take(rest, b);
        assert(rest.take(b) =~= s.take(b));
    }
}

/// First index of `line` that holds a non-whitespace character, or
/// the length when there is none.
fn scan_start(line: &str) -> (a: usize)
    requires
        line.is_ascii(),
    ensures
        a <= line@.len(),
        forall|j: int| 0 <= j < a ==> is_ws(#[trigger] line@[j]),
        a < line@.len() ==> !is_ws(line@[a as int]),
{
    let n = line.unicode_len();
    let mut a: usize = 0;
    while a < n
        invariant
            n == line@.len(),
            vstd::string::is_ascii(line),
            a <= n,
            forall|j: int| 0 <= j < a ==> is_ws(#[trigger] line@[j]),
        decreases n - a,
    {
        let b = line.get_ascii(a);
        proof {
            assert(is_ws(line@[a as int]) == (b == 32 || (9 <= b <= 13)));
        }
        if !(b == 32 || (b >= 9 && b <= 13)) {
            return a;
        }
        a = a + 1;
    }
    a
}

/// One past the last index of `line` that holds a non-whitespace
/// character, or zero when there is none.
fn scan_end(line: &str) -> (b: usize)
    requires
        line.is_ascii(),
    ensures
        b <= line@.len(),
        forall|j: int| b <= j < line@.len() ==> is_ws(#[trigger] line@[j]),
        b > 0 ==> !is_ws(line@[b - 1]),
{
    let n = line.unicode_len();
    let mut b: usize = n;
    while b > 0
        invariant
            n == line@.len(),
            vstd::string::is_ascii(line),
            b <= n,
            forall|j: int| b <= j < line@.len() ==> is_ws(#[trigger] line@[j]),
        decreases b,
    {
        let c = line.get_ascii(b - 1);
        proof {
            assert(is_ws(line@[b - 1]) == (c == 32 || (9 <= c <= 13)));
        }
        if !(c == 32 || (c >= 9 && c <= 13)) {
            return b;
        }
        b = b - 1;
    }
    b
}

/// Strips ASCII whitespace from both ends of `line`.
pub fn trim_ascii<'a>(line: &'a str) -> (r: &'a str)
    requires
        line.is_ascii(),
    ensures
        r@ == trim_ws(line@),
        r.is_ascii(),
{
    let a = scan_start(line);
    let b = scan_end(line);
    if a >= b {
        proof {
            // Only whitespace: trimming from the start already leaves
            // nothing.
            assert(forall|j: int| 0 <= j < line@.len() ==> is_ws(#[trigger] line@[j])) by {
                assert(forall|j: int| 0 <= j < a ==> is_ws(#[trigger] line@[j]));
                assert(forall|j: int| b <= j < line@.len() ==> is_ws(#[trigger] line@[j]));
            }
            lemma_trim_start_skip(line@, line@.len() as int);
            assert(line@.skip(line@.len() as int) =~= Seq::<char>::empty());
            assert(trim_end_spec(Seq::<char>::empty()) == Seq::<char>::empty());
            reveal_strlit("");
            assert(""@ =~= trim_ws(line@));
        }
        ""
    } else {
        let r = line.substring_ascii(a, b);
        proof {
            lemma_trim_start_skip(line@, a as int);
            let rest = line@.skip(a as int);
            assert(forall|j: int| b - a <= j < rest.len() ==> is_ws(#[trigger] rest[j])) by {
                assert(forall|j: int| b - a <= j < rest.len() ==> rest[j] == line@[j + a]);
            }
            assert(!is_ws(rest[b - a - 1]));
            lemma_trim_end_take(rest, b - a as int);
            assert(rest.take(b - a as int) =~= line@.subrange(a as int, b as int));
        }
        r
    }
}

/// The column table extended with zeroed columns (positions continuing
/// the 0-based numbering) until it is at least `n` columns wide.
pub open spec fn grown(cols: Seq<BaseCompCol>, n: int) -> Seq<BaseCompCol> {
    if n <= cols.len() {
        cols
    } else {
        cols + Seq::new(
            (n - cols.len()) as nat,
            |j: int| BaseCompCol {
                pos: (cols.len() + j) as usize,
                bases: BaseCompColBases { A: 0, T: 0, G: 0, C: 0, N: 0 },
            },
        )
    }
}

/// One line folded into the table: the table grows to the line's
/// length, then every character is recorded in its column.
pub open spec fn grow_extract(cols: Seq<BaseCompCol>, s: Seq<char>) -> Seq<BaseCompCol> {
    crate::extract_cols(grown(cols, s.len() as int), s)
}

/// The table after all lines, each trimmed of surrounding whitespace,
/// have been folded in.
pub open spec fn lines_cols(lines: Seq<Seq<char>>) -> Seq<BaseCompCol>
    decreases lines.len(),
{
    if lines.len() == 0 {
        Seq::empty()
    } else {
        grow_extract(lines_cols(lines.drop_last()), trim_ws(lines.last()))
    }
}

/// A growable table of per-column base counts, filled line by line.
#[derive(Debug)]
pub struct LibReads {
    pub lib: Vec<Read>,
    pub len: usize,
}

impl LibReads {
    /// Folds one line of sequence data into the table: strips
    /// whitespace, grows the table to the line's length, and records
    /// every character in its column. A symbol outside `ATGCN` is
    /// malformed input and is excluded here.
    pub fn read(&mut self, line: &str)
        requires
            line.is_ascii(),
            forall|j: int|
                0 <= j < trim_ws(line@).len() ==> valid_base(#[trigger] trim_ws(line@)[j]),
            forall|j: int|
                0 <= j < old(self).lib@.len() ==> col_sum(
                    read_bases(#[trigger] old(self).lib@[j]),
                ) < usize::MAX,
            forall|j: int| 0 <= j < old(self).lib@.len() ==> (#[trigger] old(self).lib@[j]).pos
                == j,
        ensures
            final(self).lib@.map_values(|r: Read| as_col(r)) == grow_extract(
                old(self).lib@.map_values(|r: Read| as_col(r)),
                trim_ws(line@),
            ),
            final(self).len == old(self).len,
            forall|j: int| 0 <= j < final(self).lib@.len() ==> (#[trigger] final(self).lib@[j]).pos
                == j,
    {
        let ghost cols0 = old(self).lib@.map_values(|r: Read| as_col(r));
        let s = trim_ascii(line);
        let n = s.unicode_len();

        // Grow the table to the line's length.
        let mut i = self.lib.len();
        while i < n
            invariant
                n == trim_ws(line@).len(),
                self.lib@.len() == i,
                i >= old(self).lib@.len(),
                i <= n || i == old(self).lib@.len(),
                self.len == old(self).len,
                self.lib@.map_values(|r: Read| as_col(r)) =~= grown(cols0, i as int),
                forall|j: int| 0 <= j < self.lib@.len() ==> (#[trigger] self.lib@[j]).pos == j,
                forall|j: int|
                    0 <= j < self.lib@.len() ==> col_sum(read_bases(#[trigger] self.lib@[j]))
                        < usize::MAX,
            decreases n - i,
        {
            let ghost prev = self.lib@.map_values(|r: Read| as_col(r));
            self.lib.push(Read::new(i));
            i = i + 1;
            proof {
                let mc = self.lib@.map_values(|r: Read| as_col(r));
                let g = grown(cols0, i as int);
                assert forall|j: int| 0 <= j < mc.len() implies mc[j] == g[j] by {
                    if j < i - 1 {
                        assert(mc[j] == prev[j]);
                        assert(prev[j] == grown(cols0, i as int - 1)[j]);
                    } else {
                        assert(mc[j] == as_col(self.lib@[j]));
                    }
                }
                assert(mc =~= g);
            }
        }
        proof {
            assert(self.lib@.map_values(|r: Read| as_col(r)) =~= grown(cols0, n as int));
        }

        // Record each character in its column.
        let ghost gcols = grown(cols0, n as int);
        let ghost t = trim_ws(line@);
        proof {
            assert forall|j: int| 0 <= j < gcols.len() implies col_sum(#[trigger] gcols[j].bases)
                < usize::MAX by {
                if j < cols0.len() {
                    assert(gcols[j] == as_col(old(self).lib@[j]));
                }
            }
        }
        let mut p: usize = 0;
        while p < n
            invariant
                forall|j: int|
                    0 <= j < gcols.len() ==> col_sum(#[trigger] gcols[j].bases) < usize::MAX,
                n == t.len(),
                t == trim_ws(line@),
                s@ == t,
                vstd::string::is_ascii(s),
                forall|j: int| 0 <= j < t.len() ==> valid_base(#[trigger] t[j]),
                p <= n,
                n <= self.lib@.len(),
                self.lib@.len() == gcols.len(),
                self.len == old(self).len,
                forall|j: int|
                    0 <= j < p ==> self.lib@.map_values(|r: Read| as_col(r))[j]
                        == crate::extract_cols(gcols, t)[j],
                forall|j: int|
                    p <= j < self.lib@.len() ==> self.lib@.map_values(|r: Read| as_col(r))[j]
                        == gcols[j],
                forall|j: int| 0 <= j < self.lib@.len() ==> (#[trigger] self.lib@[j]).pos == j,
            decreases n - p,
        {
            let b = s.get_ascii(p);
            proof {
                assert(valid_base(t[p as int]));
                assert(b == crate::BYTE_A || b == crate::BYTE_T || b == crate::BYTE_G || b
                    == crate::BYTE_C || b == crate::BYTE_N);
                assert(b as char == t[p as int]);
                assert(self.lib@.map_values(|r: Read| as_col(r))[p as int] == gcols[p as int]);
                assert(as_col(self.lib@[p as int]) == gcols[p as int]);
                assert(col_sum(read_bases(self.lib@[p as int])) == col_sum(
                    gcols[p as int].bases,
                ));
            }
            let mut col = self.lib[p];
            col.extract(&b);
            self.lib.set(p, col);
            p = p + 1;
        }
        proof {
            assert(self.lib@.map_values(|r: Read| as_col(r)) =~= crate::extract_cols(gcols, t));
        }
    }

    /// Fixes the `len` field up to the current column count.
    pub fn update(&mut self)
        ensures
            final(self).lib == old(self).lib,
            final(self).len == old(self).lib@.len(),
    {
        self.len = self.lib.len();
    }
}

/// Flat JSON rendering of one column:
/// `{"pos":N,"A":n,"T":n,"G":n,"C":n,"N":n}`.
pub open spec fn flat_json_col(c: BaseCompCol) -> Seq<char> {
    "{\"pos\":"@ + crate::decimal::spec_dec(c.pos as int) + ",\"A\":"@
        + crate::decimal::spec_dec(c.bases.A as int) + ",\"T\":"@ + crate::decimal::spec_dec(
        c.bases.T as int,
    ) + ",\"G\":"@ + crate::decimal::spec_dec(c.bases.G as int) + ",\"C\":"@
        + crate::decimal::spec_dec(c.bases.C as int) + ",\"N\":"@ + crate::decimal::spec_dec(
        c.bases.N as int,
    ) + "}"@
}

/// Comma-separated flat JSON rendering of a sequence of columns.
pub open spec fn flat_json_cols(cols: Seq<BaseCompCol>) -> Seq<char>
    decreases cols.len(),
{
    if cols.len() == 0 {
        Seq::empty()
    } else if cols.len() == 1 {
        flat_json_col(cols[0])
    } else {
        flat_json_cols(cols.drop_last()) + ","@ + flat_json_col(cols.last())
    }
}

/// Flat JSON rendering of the whole table, with `len` equal to the
/// column count.
pub open spec fn flat_json_table(cols: Seq<BaseCompCol>) -> Seq<char> {
    "{\"lib\":["@ + flat_json_cols(cols) + "],\"len\":"@ + crate::decimal::spec_dec(
        cols.len() as int,
    ) + "}"@
}

/// Renders one column in the flat JSON shape.
pub(crate) fn flat_col_string(c: &BaseCompCol) -> (r: String)
    ensures
        r@ == flat_json_col(*c),
{
    let mut r = String::new();
    r.append("{\"pos\":");
    let sp = crate::decimal::usize_to_string(c.pos);
    r.append(sp.as_str());
    r.append(",\"A\":");
    let sa = crate::decimal::usize_to_string(c.bases.A);
    r.append(sa.as_str());
    r.append(",\"T\":");
    let st = crate::decimal::usize_to_string(c.bases.T);
    r.append(st.as_str());
    r.append(",\"G\":");
    let sg = crate::decimal::usize_to_string(c.bases.G);
    r.append(sg.as_str());
    r.append(",\"C\":");
    let sc = crate::decimal::usize_to_string(c.bases.C);
    r.append(sc.as_str());
    r.append(",\"N\":");
    let sn = crate::decimal::usize_to_string(c.bases.N);
    r.append(sn.as_str());
    r.append("}");
    proof {
        assert(r@ =~= flat_json_col(*c));
    }
    r
}

/// A finished output column: counts turned into percentages, the
/// 0-based column index turned into a 1-based position.
pub open spec fn finalize_col(c: BaseCompCol) -> BaseCompCol {
    BaseCompCol { pos: (c.pos + 1) as usize, bases: pct_bases(c.bases) }
}

/// The complete result of a run over the given lines.
pub open spec fn final_cols(lines: Seq<Seq<char>>) -> Seq<BaseCompCol> {
    lines_cols(lines).map_values(|c: BaseCompCol| finalize_col(c))
}

/// Reads every line as one bare sequence, accumulates per-column
/// counts in a table that grows to the longest line, converts the
/// counts to percentages with 1-based positions, and serializes the
/// table in the flat JSON shape.
pub fn run(lines: &Vec<String>) -> (r: String)
    requires
        forall|i: int|
            0 <= i < lines.deep_view().len() ==> vstd::utf8::is_ascii_chars(
                #[trigger] lines.deep_view()[i],
            ),
        forall|i: int, j: int|
            0 <= i < lines.deep_view().len() && 0 <= j < trim_ws(lines.deep_view()[i]).len()
                ==> valid_base(#[trigger] trim_ws(lines.deep_view()[i])[j]),
    ensures
        r@ == flat_json_table(final_cols(lines.deep_view())),
{
    let ghost lv = lines.deep_view();
    let mut comp = LibReads { lib: Vec::new(), len: 0 };
    let n_lines = lines.len();
    let mut i: usize = 0;
    proof {
        assert(comp.lib@.map_values(|r2: Read| as_col(r2)) =~= lines_cols(lv.take(0int)));
    }
    while i < n_lines
        invariant
            lv == lines.deep_view(),
            n_lines == lv.len(),
            i <= n_lines,
            forall|i2: int|
                0 <= i2 < lv.len() ==> vstd::utf8::is_ascii_chars(#[trigger] lv[i2]),
            forall|i2: int, j: int|
                0 <= i2 < lv.len() && 0 <= j < trim_ws(lv[i2]).len() ==> valid_base(
                    #[trigger] trim_ws(lv[i2])[j],
                ),
            comp.lib@.map_values(|r2: Read| as_col(r2)) == lines_cols(lv.take(i as int)),
            forall|j: int| 0 <= j < comp.lib@.len() ==> (#[trigger] comp.lib@[j]).pos == j,
            forall|j: int|
                0 <= j < comp.lib@.len() ==> col_sum(read_bases(#[trigger] comp.lib@[j])) <= i,
        decreases n_lines - i,
    {
        let ghost cols_before = comp.lib@.map_values(|r2: Read| as_col(r2));
        let line: &String = &lines[i];
        proof {
            assert(line@ == lv[i as int]);
        }
        comp.read(line.as_str());
        i = i + 1;
        proof {
            assert(lv.take(i as int).drop_last() =~= lv.take(i as int - 1));
            assert(lv.take(i as int).last() == lv[i as int - 1]);
            assert(comp.lib@.map_values(|r2: Read| as_col(r2)) == lines_cols(lv.take(i as int)));
            let mc = comp.lib@.map_values(|r2: Read| as_col(r2));
            let g = grown(cols_before, trim_ws(lv[i as int - 1]).len() as int);
            assert forall|j: int|
                0 <= j < comp.lib@.len() implies col_sum(read_bases(#[trigger] comp.lib@[j]))
                <= i by {
                assert(mc[j] == crate::extract_cols(g, trim_ws(lv[i as int - 1]))[j]);
                assert(col_sum(mc[j].bases) <= col_sum(g[j].bases) + 1);
                if j < cols_before.len() {
                    assert(g[j] == cols_before[j]);
                } else {
                    assert(col_sum(g[j].bases) == 0);
                }
            }
        }
    }
    proof {
        assert(lv.take(n_lines as int) =~= lv);
    }
    comp.update();

    // Convert counts to percentages and 0-based indexes to 1-based
    // positions.
    let ghost counted = comp.lib@;
    let n_cols = comp.lib.len();
    let mut c: usize = 0;
    while c < n_cols
        invariant
            n_cols == comp.lib@.len(),
            c <= n_cols,
            counted.len() == n_cols,
            forall|j: int| 0 <= j < counted.len() ==> (#[trigger] counted[j]).pos == j,
            forall|j: int|
                0 <= j < c ==> as_col(#[trigger] comp.lib@[j]) == finalize_col(
                    as_col(counted[j]),
                ),
            forall|j: int| c <= j < n_cols ==> comp.lib@[j] == #[trigger] counted[j],
            comp.len == n_cols,
        decreases n_cols - c,
    {
        let mut col = comp.lib[c];
        proof {
            assert(comp.lib@[c as int] == counted[c as int]);
            assert(col.pos == c);
        }
        col.calc_percentage();
        col.pos = col.pos + 1;
        comp.lib.set(c, col);
        c = c + 1;
    }
    comp.update();

    // Serialize.
    let ghost out_cols = final_cols(lv);
    proof {
        assert(comp.lib@.map_values(|r2: Read| as_col(r2)) =~= out_cols);
    }
    let mut r = String::new();
    r.append("{\"lib\":[");
    let mut k: usize = 0;
    while k < n_cols
        invariant
            n_cols == comp.lib@.len(),
            k <= n_cols,
            comp.lib@.map_values(|r2: Read| as_col(r2)) == out_cols,
            out_cols.len() == n_cols,
            comp.len == n_cols,
            r@ == "{\"lib\":["@ + flat_json_cols(out_cols.take(k as int)),
        decreases n_cols - k,
    {
        if k > 0 {
            r.append(",");
        }
        let e = comp.lib[k];
        let bc = BaseCompCol {
            pos: e.pos,
            bases: BaseCompColBases { A: e.A, T: e.T, G: e.G, C: e.C, N: e.N },
        };
        proof {
            assert(bc == as_col(e));
            assert(bc == out_cols[k as int]);
        }
        let cs = flat_col_string(&bc);
        r.append(cs.as_str());
        proof {
            let prefix = out_cols.take(k as int + 1);
            assert(prefix.drop_last() =~= out_cols.take(k as int));
            assert(prefix.last() == out_cols[k as int]);
            if k == 0 {
                assert(flat_json_cols(out_cols.take(0int)) =~= Seq::<char>::empty());
                assert(r@ =~= "{\"lib\":["@ + flat_json_cols(prefix));
            } else {
                assert(r@ =~= "{\"lib\":["@ + flat_json_cols(prefix));
            }
        }
        k = k + 1;
    }
    proof {
        assert(out_cols.take(n_cols as int) =~= out_cols);
    }
    r.append("],\"len\":");
    let ls = crate::decimal::usize_to_string(comp.len);
    r.append(ls.as_str());
    r.append("}");
    proof {
        assert(r@ =~= flat_json_table(out_cols));
    }
    r
}

} // verus!
