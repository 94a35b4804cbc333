//! Per-position nucleotide composition of FASTQ sequencing reads.
//!
//! The library ingests FASTQ records as plain lines, filters reads by
//! quality, N-content and trim length, optionally reservoir-samples a
//! bounded subset, and accumulates per-position base counts which are
//! finally converted to rounded percentages.

use vstd::prelude::*;

pub mod base_extraction;
pub mod decimal;
pub mod extract_comp;
pub mod extract_fastq_comp;
pub mod plot_comp;

verus! {

use vstd::arithmetic::div_mod::{
    lemma_div_is_ordered, lemma_div_pos_is_pos, lemma_fundamental_div_mod,
    lemma_fundamental_div_mod_converse,
};
use vstd::string::{StrSliceExecFns, StringExecFns};

/// ASCII codes of the five base symbols.
pub const BYTE_A: u8 = 65;

pub const BYTE_T: u8 = 84;

pub const BYTE_G: u8 = 71;

pub const BYTE_C: u8 = 67;

pub const BYTE_N: u8 = 78;

/// Counts (or, after conversion, percentages) of the five base symbols
/// observed at one read position, in the fixed order A, T, G, C, N.
#[derive(Debug, Copy, Clone, PartialEq, Eq, Structural)]
#[allow(non_snake_case)]
pub struct BaseCompColBases {
    pub A: usize,
    pub T: usize,
    pub G: usize,
    pub C: usize,
    pub N: usize,
}

/// Sum of all five per-base counts of one column.
pub open spec fn col_sum(b: BaseCompColBases) -> int {
    b.A + b.T + b.G + b.C + b.N
}

/// The five base symbols a sequence may contain.
pub open spec fn valid_base(c: char) -> bool {
    c == 'A' || c == 'T' || c == 'G' || c == 'C' || c == 'N'
}

/// Column counts after recording one occurrence of base `c`.
/// Every character falls into exactly one bucket, so the column sum
/// always grows by one.
pub open spec fn inc_base(b: BaseCompColBases, c: char) -> BaseCompColBases {
    if c == 'A' {
        BaseCompColBases { A: (b.A + 1) as usize, ..b }
    } else if c == 'T' {
        BaseCompColBases { T: (b.T + 1) as usize, ..b }
    } else if c == 'G' {
        BaseCompColBases { G: (b.G + 1) as usize, ..b }
    } else if c == 'C' {
        BaseCompColBases { C: (b.C + 1) as usize, ..b }
    } else {
        BaseCompColBases { N: (b.N + 1) as usize, ..b }
    }
}

/// `count` as a percentage of `sum`, rounded to the nearest integer
/// (halves round up): `(200 * count + sum) / (2 * sum)` equals
/// `round(100 * count / sum)`. A column that saw no reads stays zero.
pub open spec fn pct_of(count: int, sum: int) -> int {
    if sum <= 0 {
        0
    } else {
        (200 * count + sum) / (2 * sum)
    }
}

/// Rounded percentages never leave `0 ..= 100`.
pub proof fn lemma_pct_bound(c: int, s: int)
    requires
        0 <= c <= s,
        1 <= s,
    ensures
        0 <= pct_of(c, s) <= 100,
{
    let x = 200 * c + s;
    let d = 2 * s;
    lemma_div_pos_is_pos(x, d);
    lemma_div_is_ordered(x, 201 * s, d);
    lemma_fundamental_div_mod_converse(201 * s, d, 100, s);
}

/// The quotient `pct_of(c, s)` differs from the exact ratio
/// `100 * c / s` by at most half a unit; stated multiplied out.
pub proof fn lemma_pct_approx(c: int, s: int)
    requires
        0 <= c,
        1 <= s,
    ensures
        200 * c + s - (2 * s - 1) <= 2 * s * pct_of(c, s) <= 200 * c + s,
{
    let x = 200 * c + s;
    let d = 2 * s;
    lemma_fundamental_div_mod(x, d);
    let q = x / d;
    let r = x % d;
    assert(x == d * q + r);
    assert(0 <= r < d);
    assert(2 * s * q == x - r) by (nonlinear_arith)
        requires x == d * q + r && d == 2 * s;
}

impl BaseCompColBases {
    pub fn new() -> (r: BaseCompColBases)
        ensures
            r == (BaseCompColBases { A: 0, T: 0, G: 0, C: 0, N: 0 }),
    {
        BaseCompColBases { A: 0, T: 0, G: 0, C: 0, N: 0 }
    }

    /// The five counts as a vector, in the fixed serialization order
    /// A, T, G, C, N.
    pub fn iter(self) -> (r: Vec<usize>)
        ensures
            r@ == seq![self.A, self.T, self.G, self.C, self.N],
    {
        let mut r: Vec<usize> = Vec::new();
        r.push(self.A);
        r.push(self.T);
        r.push(self.G);
        r.push(self.C);
        r.push(self.N);
        proof {
            assert(r@ =~= seq![self.A, self.T, self.G, self.C, self.N]);
        }
        r
    }

    /// Rebuilds a column from five counts in the order A, T, G, C, N,
    /// the inverse of [`Self::iter`].
    pub fn from_iter(v: &Vec<usize>) -> (r: BaseCompColBases)
        requires
            v@.len() >= 5,
        ensures
            r == (BaseCompColBases {
                A: v@[0],
                T: v@[1],
                G: v@[2],
                C: v@[3],
                N: v@[4],
            }),
    {
        BaseCompColBases { A: v[0], T: v[1], G: v[2], C: v[3], N: v[4] }
    }

    /// Converts the counts of this column to rounded percentages of the
    /// column sum. This is a one-way step: the counts are lost, and a
    /// second call would compute percentages of percentages (it is the
    /// caller's duty not to call it twice on the same data).
    pub fn percentage(&mut self)
        ensures
            final(self).A == pct_of(old(self).A as int, col_sum(*old(self))),
            final(self).T == pct_of(old(self).T as int, col_sum(*old(self))),
            final(self).G == pct_of(old(self).G as int, col_sum(*old(self))),
            final(self).C == pct_of(old(self).C as int, col_sum(*old(self))),
            final(self).N == pct_of(old(self).N as int, col_sum(*old(self))),
    {
        let sum: u128 = self.A as u128 + self.T as u128 + self.G as u128 + self.C as u128
            + self.N as u128;
        if sum > 0 {
            let a = pct_calc(self.A, sum);
            let t = pct_calc(self.T, sum);
            let g = pct_calc(self.G, sum);
            let c = pct_calc(self.C, sum);
            let n = pct_calc(self.N, sum);
            self.A = a;
            self.T = t;
            self.G = g;
            self.C = c;
            self.N = n;
        }
    }
}

/// One rounded percentage; `count` is one of the five counts whose sum
/// is `sum`.
pub(crate) fn pct_calc(count: usize, sum: u128) -> (r: usize)
    requires
        count as u128 <= sum,
        1 <= sum <= 5 * (usize::MAX as u128),
    ensures
        r as int == pct_of(count as int, sum as int),
{
    let p: u128 = (200 * (count as u128) + sum) / (2 * sum);
    proof {
        lemma_pct_bound(count as int, sum as int);
    }
    p as usize
}

/// After conversion to percentages the five values of a column add up
/// to 100, give or take the accumulated rounding error, which never
/// exceeds two and a half units in either direction.
pub proof fn lemma_percentage_total(b: BaseCompColBases)
    requires
        col_sum(b) >= 1,
    ensures
        ({
            let s = col_sum(b);
            let total = pct_of(b.A as int, s) + pct_of(b.T as int, s) + pct_of(b.G as int, s)
                + pct_of(b.C as int, s) + pct_of(b.N as int, s);
            98 <= total <= 102
        }),
{
    let s = col_sum(b);
    lemma_pct_approx(b.A as int, s);
    lemma_pct_approx(b.T as int, s);
    lemma_pct_approx(b.G as int, s);
    lemma_pct_approx(b.C as int, s);
    lemma_pct_approx(b.N as int, s);
    let qa = pct_of(b.A as int, s);
    let qt = pct_of(b.T as int, s);
    let qg = pct_of(b.G as int, s);
    let qc = pct_of(b.C as int, s);
    let qn = pct_of(b.N as int, s);
    let total = qa + qt + qg + qc + qn;
    assert(2 * s * total == 2 * s * qa + 2 * s * qt + 2 * s * qg + 2 * s * qc + 2 * s * qn)
        by (nonlinear_arith)
        requires total == qa + qt + qg + qc + qn;
    assert(2 * s * total <= 205 * s);
    assert(2 * s * total >= 195 * s + 5);
    assert(total <= 102) by (nonlinear_arith)
        requires 2 * s * total <= 205 * s && s >= 1;
    assert(total >= 98) by (nonlinear_arith)
        requires 2 * s * total >= 195 * s + 5 && s >= 1;
}

/// The five counts of a column converted to rounded percentages of
/// their sum.
pub open spec fn pct_bases(b: BaseCompColBases) -> BaseCompColBases {
    BaseCompColBases {
        A: pct_of(b.A as int, col_sum(b)) as usize,
        T: pct_of(b.T as int, col_sum(b)) as usize,
        G: pct_of(b.G as int, col_sum(b)) as usize,
        C: pct_of(b.C as int, col_sum(b)) as usize,
        N: pct_of(b.N as int, col_sum(b)) as usize,
    }
}

/// One column of the composition table: the five counts plus the
/// 1-based position they belong to.
#[derive(Debug, Copy, Clone, PartialEq, Eq, Structural)]
pub struct BaseCompCol {
    pub pos: usize,
    pub bases: BaseCompColBases,
}

impl BaseCompCol {
    pub fn new(pos: usize) -> (r: BaseCompCol)
        ensures
            r == (BaseCompCol {
                pos,
                bases: BaseCompColBases { A: 0, T: 0, G: 0, C: 0, N: 0 },
            }),
    {
        BaseCompCol { pos, bases: BaseCompColBases { A: 0, T: 0, G: 0, C: 0, N: 0 } }
    }

    /// Records one occurrence of the base symbol `*s` in this column.
    /// A byte outside `ATGCN` is malformed input and is excluded here;
    /// the caller rejects or reports it.
    pub fn extract(&mut self, s: &u8)
        requires
            *s == BYTE_A || *s == BYTE_T || *s == BYTE_G || *s == BYTE_C || *s == BYTE_N,
            col_sum(old(self).bases) < usize::MAX,
        ensures
            final(self).pos == old(self).pos,
            final(self).bases == inc_base(old(self).bases, *s as char),
    {
        if *s == BYTE_A {
            self.bases.A = self.bases.A + 1;
        } else if *s == BYTE_T {
            self.bases.T = self.bases.T + 1;
        } else if *s == BYTE_G {
            self.bases.G = self.bases.G + 1;
        } else if *s == BYTE_C {
            self.bases.C = self.bases.C + 1;
        } else {
            self.bases.N = self.bases.N + 1;
        }
    }
}

/// One column with its counts converted to percentages, position
/// kept.
pub open spec fn pct_col(c: BaseCompCol) -> BaseCompCol {
    BaseCompCol { pos: c.pos, bases: pct_bases(c.bases) }
}

/// All five rounded percentages of a column lie in `0 ..= 100`.
pub proof fn lemma_pct_bases_bounds(b: BaseCompColBases)
    ensures
        0 <= pct_of(b.A as int, col_sum(b)) <= 100,
        0 <= pct_of(b.T as int, col_sum(b)) <= 100,
        0 <= pct_of(b.G as int, col_sum(b)) <= 100,
        0 <= pct_of(b.C as int, col_sum(b)) <= 100,
        0 <= pct_of(b.N as int, col_sum(b)) <= 100,
{
    let s = col_sum(b);
    if s >= 1 {
        lemma_pct_bound(b.A as int, s);
        lemma_pct_bound(b.T as int, s);
        lemma_pct_bound(b.G as int, s);
        lemma_pct_bound(b.C as int, s);
        lemma_pct_bound(b.N as int, s);
    }
}

/// The columns after one sequence has been recorded: position `i` of
/// the sequence increments one bucket of column `i`; columns beyond
/// the end of the sequence are untouched.
pub open spec fn extract_cols(cols: Seq<BaseCompCol>, s: Seq<char>) -> Seq<BaseCompCol> {
    cols.map(
        |i: int, col: BaseCompCol|
            if i < s.len() {
                BaseCompCol { pos: col.pos, bases: inc_base(col.bases, s[i]) }
            } else {
                col
            },
    )
}

/// The columns after a whole batch of sequences has been recorded, in
/// order.
pub open spec fn extract_all(cols: Seq<BaseCompCol>, seqs: Seq<Seq<char>>) -> Seq<BaseCompCol>
    decreases seqs.len(),
{
    if seqs.len() == 0 {
        cols
    } else {
        extract_all(extract_cols(cols, seqs.first()), seqs.drop_first())
    }
}

/// How many of the given sequences reach position `p`, i.e. are longer
/// than `p` characters.
pub open spec fn count_reads_at(seqs: Seq<Seq<char>>, p: int) -> int
    decreases seqs.len(),
{
    if seqs.len() == 0 {
        0
    } else {
        (if seqs.first().len() > p {
            1int
        } else {
            0int
        }) + count_reads_at(seqs.drop_first(), p)
    }
}

pub proof fn lemma_count_reads_at_bounds(seqs: Seq<Seq<char>>, p: int)
    ensures
        0 <= count_reads_at(seqs, p) <= seqs.len(),
    decreases seqs.len(),
{
    if seqs.len() > 0 {
        lemma_count_reads_at_bounds(seqs.drop_first(), p);
    }
}

/// Law: at every position, the column sum equals the number of
/// sequences extracted that reach that position — counts are neither
/// lost nor invented.
pub proof fn lemma_position_sum(cols: Seq<BaseCompCol>, seqs: Seq<Seq<char>>, p: int)
    requires
        0 <= p < cols.len(),
        col_sum(cols[p].bases) + count_reads_at(seqs, p) <= usize::MAX,
    ensures
        extract_all(cols, seqs).len() == cols.len(),
        col_sum(extract_all(cols, seqs)[p].bases) == col_sum(cols[p].bases) + count_reads_at(
            seqs,
            p,
        ),
    decreases seqs.len(),
{
    lemma_count_reads_at_bounds(seqs, p);
    if seqs.len() > 0 {
        let cols1 = extract_cols(cols, seqs.first());
        lemma_count_reads_at_bounds(seqs.drop_first(), p);
        assert(col_sum(cols1[p].bases) == col_sum(cols[p].bases) + (if seqs.first().len() > p {
            1int
        } else {
            0int
        }));
        lemma_position_sum(cols1, seqs.drop_first(), p);
    }
}

/// Recording a batch and then one more sequence is the same as
/// recording the extended batch.
pub proof fn lemma_extract_all_push(cols: Seq<BaseCompCol>, seqs: Seq<Seq<char>>, s: Seq<char>)
    ensures
        extract_all(cols, seqs.push(s)) == extract_cols(extract_all(cols, seqs), s),
    decreases seqs.len(),
{
    if seqs.len() == 0 {
        assert(seqs.push(s).first() == s);
        assert(seqs.push(s).drop_first() =~= Seq::<Seq<char>>::empty());
        assert(extract_all(cols, seqs.push(s)) == extract_all(
            extract_cols(cols, s),
            Seq::<Seq<char>>::empty(),
        ));
        assert(extract_all(cols, seqs) == cols);
    } else {
        assert(seqs.push(s).first() == seqs.first());
        assert(seqs.push(s).drop_first() =~= seqs.drop_first().push(s));
        lemma_extract_all_push(extract_cols(cols, seqs.first()), seqs.drop_first(), s);
    }
}

/// The whole composition table: one column per read position, plus a
/// length field fixed up during serialization.
#[derive(Debug)]
pub struct BaseComp {
    pub lib: Vec<BaseCompCol>,
    pub len: usize,
}

/// A freshly initialized table: `len` zeroed columns at positions
/// `1 ..= len`.
pub open spec fn init_cols(len: int) -> Seq<BaseCompCol> {
    Seq::new(
        len as nat,
        |j: int| BaseCompCol { pos: (j + 1) as usize, bases: BaseCompColBases { A: 0, T: 0, G: 0, C: 0, N: 0 } },
    )
}

impl BaseComp {
    pub fn init(len: usize) -> (r: BaseComp)
        ensures
            r.lib@ == init_cols(len as int),
            r.len == len,
    {
        let mut lib: Vec<BaseCompCol> = Vec::new();
        let mut i: usize = 0;
        while i < len
            invariant
                i <= len,
                lib@.len() == i,
                forall|j: int| 0 <= j < i ==> lib@[j] == init_cols(len as int)[j],
            decreases len - i,
        {
            lib.push(BaseCompCol::new(i + 1));
            i = i + 1;
        }
        proof {
            assert(lib@ =~= init_cols(len as int));
        }
        BaseComp { lib, len }
    }

    pub fn len(&self) -> (r: usize)
        ensures
            r == self.lib@.len(),
    {
        self.lib.len()
    }

    /// Records one sequence: character `i` increments one bucket of
    /// column `i`. Sequences longer than the table, or containing a
    /// symbol outside `ATGCN`, are malformed input and excluded here.
    pub fn extract(&mut self, s: &str)
        requires
            s@.len() <= old(self).lib@.len(),
            forall|i: int| 0 <= i < s@.len() ==> valid_base(#[trigger] s@[i]),
            forall|j: int|
                0 <= j < old(self).lib@.len() ==> col_sum(
                    #[trigger] old(self).lib@[j].bases,
                ) < usize::MAX,
        ensures
            final(self).lib@ == extract_cols(old(self).lib@, s@),
    {
        proof {
            assert(vstd::utf8::is_ascii_chars(s@)) by {
                assert forall|i: int| 0 <= i < s@.len() implies '\0' <= #[trigger] s@[i]
                    <= '\u{7f}' by {
                    assert(valid_base(s@[i]));
                }
            }
        }
        let n = s.unicode_len();
        let mut i: usize = 0;
        while i < n
            invariant
                n == s@.len(),
                s@.len() <= old(self).lib@.len(),
                vstd::string::is_ascii(s),
                i <= n,
                self.lib@.len() == old(self).lib@.len(),
                forall|i2: int| 0 <= i2 < s@.len() ==> valid_base(#[trigger] s@[i2]),
                forall|j: int|
                    0 <= j < i ==> self.lib@[j] == extract_cols(old(self).lib@, s@)[j],
                forall|j: int|
                    i <= j < self.lib@.len() ==> self.lib@[j] == old(self).lib@[j],
                forall|j: int|
                    0 <= j < old(self).lib@.len() ==> col_sum(
                        #[trigger] old(self).lib@[j].bases,
                    ) < usize::MAX,
            decreases n - i,
        {
            let b = s.get_ascii(i);
            proof {
                assert(s@[i as int] as u8 == b);
                assert(valid_base(s@[i as int]));
                assert(b == BYTE_A || b == BYTE_T || b == BYTE_G || b == BYTE_C || b == BYTE_N);
                assert(b as char == s@[i as int]);
            }
            let mut col = self.lib[i];
            col.extract(&b);
            self.lib.set(i, col);
            i = i + 1;
        }
        proof {
            assert(final(self).lib@ =~= extract_cols(old(self).lib@, s@));
        }
    }

    /// Serializes the table as one JSON object,
    /// `{"lib":[{"pos":1,"bases":{"A":..,"T":..,"G":..,"C":..,"N":..}},..],"len":N}`,
    /// fixing up the `len` field to the column count first.
    pub fn jsonify(&mut self) -> (r: String)
        ensures
            final(self).lib@ == old(self).lib@,
            final(self).len == old(self).lib@.len(),
            r@ == json_base_comp(old(self).lib@),
    {
        self.len = self.lib.len();
        let mut r = String::new();
        r.append("{\"lib\":[");
        let mut i: usize = 0;
        let n = self.lib.len();
        while i < n
            invariant
                n == self.lib@.len(),
                i <= n,
                self.lib@ == old(self).lib@,
                self.len == old(self).lib@.len(),
                r@ == "{\"lib\":["@ + json_cols(self.lib@.take(i as int)),
            decreases n - i,
        {
            if i > 0 {
                r.append(",");
            }
            let col = self.lib[i];
            let cs = json_col_string(&col);
            r.append(cs.as_str());
            proof {
                let cols = self.lib@;
                let prefix = cols.take(i as int + 1);
                assert(prefix.drop_last() =~= cols.take(i as int));
                assert(prefix.last() == cols[i as int]);
                if i == 0 {
                    assert(json_cols(cols.take(0int)) =~= Seq::<char>::empty());
                    assert(r@ =~= "{\"lib\":["@ + json_cols(prefix));
                } else {
                    assert(r@ =~= "{\"lib\":["@ + json_cols(prefix));
                }
            }
            i = i + 1;
        }
        proof {
            assert(self.lib@.take(n as int) =~= self.lib@);
        }
        r.append("],\"len\":");
        let ls = crate::decimal::usize_to_string(self.len);
        r.append(ls.as_str());
        r.append("}");
        proof {
            assert(r@ =~= json_base_comp(old(self).lib@));
        }
        r
    }
}

/// JSON rendering of the five counts of one column.
pub open spec fn json_bases(b: BaseCompColBases) -> Seq<char> {
    "{\"A\":"@ + crate::decimal::spec_dec(b.A as int) + ",\"T\":"@ + crate::decimal::spec_dec(
        b.T as int,
    ) + ",\"G\":"@ + crate::decimal::spec_dec(b.G as int) + ",\"C\":"@
        + crate::decimal::spec_dec(b.C as int) + ",\"N\":"@ + crate::decimal::spec_dec(
        b.N as int,
    ) + "}"@
}

/// JSON rendering of one column with its position.
pub open spec fn json_col(c: BaseCompCol) -> Seq<char> {
    "{\"pos\":"@ + crate::decimal::spec_dec(c.pos as int) + ",\"bases\":"@ + json_bases(c.bases)
        + "}"@
}

/// Comma-separated JSON rendering of a sequence of columns.
pub open spec fn json_cols(cols: Seq<BaseCompCol>) -> Seq<char>
    decreases cols.len(),
{
    if cols.len() == 0 {
        Seq::empty()
    } else if cols.len() == 1 {
        json_col(cols[0])
    } else {
        json_cols(cols.drop_last()) + ","@ + json_col(cols.last())
    }
}

/// JSON rendering of the whole table, with `len` equal to the column
/// count.
pub open spec fn json_base_comp(lib: Seq<BaseCompCol>) -> Seq<char> {
    "{\"lib\":["@ + json_cols(lib) + "],\"len\":"@ + crate::decimal::spec_dec(lib.len() as int)
        + "}"@
}

/// Renders the five counts of one column as a JSON object.
fn json_bases_string(b: &BaseCompColBases) -> (r: String)
    ensures
        r@ == json_bases(*b),
{
    let mut r = String::new();
    r.append("{\"A\":");
    let sa = crate::decimal::usize_to_string(b.A);
    r.append(sa.as_str());
    r.append(",\"T\":");
    let st = crate::decimal::usize_to_string(b.T);
    r.append(st.as_str());
    r.append(",\"G\":");
    let sg = crate::decimal::usize_to_string(b.G);
    r.append(sg.as_str());
    r.append(",\"C\":");
    let sc = crate::decimal::usize_to_string(b.C);
    r.append(sc.as_str());
    r.append(",\"N\":");
    let sn = crate::decimal::usize_to_string(b.N);
    r.append(sn.as_str());
    r.append("}");
    proof {
        assert(r@ =~= json_bases(*b));
    }
    r
}

/// Renders one column as a JSON object.
fn json_col_string(c: &BaseCompCol) -> (r: String)
    ensures
        r@ == json_col(*c),
{
    let mut r = String::new();
    r.append("{\"pos\":");
    let sp = crate::decimal::usize_to_string(c.pos);
    r.append(sp.as_str());
    r.append(",\"bases\":");
    let sb = json_bases_string(&c.bases);
    r.append(sb.as_str());
    r.append("}");
    proof {
        assert(r@ =~= json_col(*c));
    }
    r
}

} // verus!
