//! A direct-aggregation run over FASTQ records: every accepted read
//! is folded into the table until one more than the target count has
//! been taken or the input ends, with no sampling. The table is
//! serialized in the flat JSON shape.

use vstd::prelude::*;

verus! {

use vstd::string::StringExecFns;
use crate::{BaseCompCol, BaseCompColBases, col_sum, inc_base, pct_bases, pct_col, valid_base};
use crate::base_extraction::{flat_col_string, flat_json_cols};
use crate::extract_comp::{
    accepted_from, check_read_safe, lemma_accepted_shape, n_records, rec_quals, rec_seq,
    FASTQReader, SampleArgs,
};

/// Occurrence counts of the five base symbols in one column, plus the
/// column's position.
#[derive(Debug, Copy, Clone, PartialEq, Eq, Structural)]
#[allow(non_snake_case)]
pub struct ColBaseComp {
    pub pos: usize,
    pub A: usize,
    pub T: usize,
    pub G: usize,
    pub C: usize,
    pub N: usize,
}

/// The counts of a column, as the common column-counts type.
pub open spec fn cbc_bases(c: ColBaseComp) -> BaseCompColBases {
    BaseCompColBases { A: c.A, T: c.T, G: c.G, C: c.C, N: c.N }
}

/// A column as the common positioned-column type, the model all
/// contracts of this module speak of.
pub open spec fn cbc_col(c: ColBaseComp) -> BaseCompCol {
    BaseCompCol { pos: c.pos, bases: cbc_bases(c) }
}

impl ColBaseComp {
    pub fn new(pos: usize) -> (r: ColBaseComp)
        ensures
            r == (ColBaseComp { pos, A: 0, T: 0, G: 0, C: 0, N: 0 }),
    {
        ColBaseComp { pos, A: 0, T: 0, G: 0, C: 0, N: 0 }
    }

    /// Records one occurrence of the base symbol `*s`. A byte outside
    /// `ATGCN` is malformed input and is excluded here.
    pub fn extract(&mut self, s: &u8)
        requires
            *s == crate::BYTE_A || *s == crate::BYTE_T || *s == crate::BYTE_G || *s
                == crate::BYTE_C || *s == crate::BYTE_N,
            col_sum(cbc_bases(*old(self))) < usize::MAX,
        ensures
            final(self).pos == old(self).pos,
            cbc_bases(*final(self)) == inc_base(cbc_bases(*old(self)), *s as char),
    {
        if *s == crate::BYTE_A {
            self.A = self.A + 1;
        } else if *s == crate::BYTE_T {
            self.T = self.T + 1;
        } else if *s == crate::BYTE_G {
            self.G = self.G + 1;
        } else if *s == crate::BYTE_C {
            self.C = self.C + 1;
        } else {
            self.N = self.N + 1;
        }
    }

    /// Converts the counts to rounded percentages of the column sum.
    /// One-way: the counts are lost, and a second call would compute
    /// percentages of percentages.
    pub fn percentage(&mut self)
        ensures
            final(self).pos == old(self).pos,
            cbc_bases(*final(self)) == pct_bases(cbc_bases(*old(self))),
    {
        let sum: u128 = self.A as u128 + self.T as u128 + self.G as u128 + self.C as u128
            + self.N as u128;
        if sum > 0 {
            let a = crate::pct_calc(self.A, sum);
            let t = crate::pct_calc(self.T, sum);
            let g = crate::pct_calc(self.G, sum);
            let c = crate::pct_calc(self.C, sum);
            let n = crate::pct_calc(self.N, sum);
            self.A = a;
            self.T = t;
            self.G = g;
            self.C = c;
            self.N = n;
        }
    }
}

/// The composition table of this module: flat columns and the length
/// field serialized beside them.
#[derive(Debug)]
pub struct BaseComp {
    pub lib: Vec<ColBaseComp>,
    pub len: usize,
}

impl BaseComp {
    pub fn init(len: usize) -> (r: BaseComp)
        ensures
            r.lib@.map_values(|c: ColBaseComp| cbc_col(c)) == crate::init_cols(len as int),
            r.len == len,
    {
        let mut lib: Vec<ColBaseComp> = Vec::new();
        let mut i: usize = 0;
        while i < len
            invariant
                i <= len,
                lib@.len() == i,
                forall|j: int|
                    0 <= j < i ==> cbc_col(#[trigger] lib@[j]) == crate::init_cols(len as int)[j],
            decreases len - i,
        {
            lib.push(ColBaseComp::new(i + 1));
            i = i + 1;
        }
        proof {
            assert(lib@.map_values(|c: ColBaseComp| cbc_col(c)) =~= crate::init_cols(len as int));
        }
        BaseComp { lib, len }
    }

    /// Records one sequence: character `i` increments one bucket of
    /// column `i`. Sequences longer than the table, or containing a
    /// symbol outside `ATGCN`, are malformed input and excluded here.
    pub fn extract(&mut self, s: &str)
        requires
            s@.len() <= old(self).lib@.len(),
            forall|i: int| 0 <= i < s@.len() ==> valid_base(#[trigger] s@[i]),
            forall|j: int|
                0 <= j < old(self).lib@.len() ==> col_sum(
                    cbc_bases(#[trigger] old(self).lib@[j]),
                ) < usize::MAX,
        ensures
            final(self).lib@.map_values(|c: ColBaseComp| cbc_col(c)) == crate::extract_cols(
                old(self).lib@.map_values(|c: ColBaseComp| cbc_col(c)),
                s@,
            ),
            final(self).len == old(self).len,
    {
        proof {
            assert(vstd::utf8::is_ascii_chars(s@)) by {
                assert forall|i: int| 0 <= i < s@.len() implies '\0' <= #[trigger] s@[i]
                    <= '\u{7f}' by {
                    assert(valid_base(s@[i]));
                }
            }
        }
        let ghost cols0 = old(self).lib@.map_values(|c: ColBaseComp| cbc_col(c));
        proof {
            assert forall|j: int| 0 <= j < cols0.len() implies col_sum(#[trigger] cols0[j].bases)
                < usize::MAX by {
                assert(cols0[j] == cbc_col(old(self).lib@[j]));
            }
        }
        let n = vstd::string::StrSliceExecFns::unicode_len(s);
        let mut i: usize = 0;
        while i < n
            invariant
                forall|j: int|
                    0 <= j < cols0.len() ==> col_sum(#[trigger] cols0[j].bases) < usize::MAX,
                n == s@.len(),
                s@.len() <= self.lib@.len(),
                vstd::string::is_ascii(s),
                i <= n,
                self.lib@.len() == cols0.len(),
                self.len == old(self).len,
                forall|i2: int| 0 <= i2 < s@.len() ==> valid_base(#[trigger] s@[i2]),
                forall|j: int|
                    0 <= j < i ==> cbc_col(#[trigger] self.lib@[j]) == crate::extract_cols(
                        cols0,
                        s@,
                    )[j],
                forall|j: int|
                    i <= j < self.lib@.len() ==> cbc_col(#[trigger] self.lib@[j]) == cols0[j],
            decreases n - i,
        {
            let b = vstd::string::StrSliceExecFns::get_ascii(s, i);
            proof {
                assert(s@[i as int] as u8 == b);
                assert(valid_base(s@[i as int]));
                assert(b == crate::BYTE_A || b == crate::BYTE_T || b == crate::BYTE_G || b
                    == crate::BYTE_C || b == crate::BYTE_N);
                assert(b as char == s@[i as int]);
                assert(cbc_col(self.lib@[i as int]) == cols0[i as int]);
                assert(col_sum(cbc_bases(self.lib@[i as int])) == col_sum(cols0[i as int].bases));
            }
            let mut col = self.lib[i];
            col.extract(&b);
            self.lib.set(i, col);
            i = i + 1;
        }
        proof {
            assert(final(self).lib@.map_values(|c: ColBaseComp| cbc_col(c)) =~= crate::extract_cols(
                cols0,
                s@,
            ));
        }
    }

    /// Serializes the table in the flat JSON shape, with the stored
    /// length field.
    pub fn jsonify(&self) -> (r: String)
        ensures
            r@ == "{\"lib\":["@ + flat_json_cols(
                self.lib@.map_values(|c: ColBaseComp| cbc_col(c)),
            ) + "],\"len\":"@ + crate::decimal::spec_dec(self.len as int) + "}"@,
    {
        let ghost out_cols = self.lib@.map_values(|c: ColBaseComp| cbc_col(c));
        let mut r = String::new();
        r.append("{\"lib\":[");
        let n_cols = self.lib.len();
        let mut k: usize = 0;
        while k < n_cols
            invariant
                n_cols == self.lib@.len(),
                k <= n_cols,
                out_cols == self.lib@.map_values(|c: ColBaseComp| cbc_col(c)),
                out_cols.len() == n_cols,
                r@ == "{\"lib\":["@ + flat_json_cols(out_cols.take(k as int)),
            decreases n_cols - k,
        {
            if k > 0 {
                r.append(",");
            }
            let e = self.lib[k];
            let bc = BaseCompCol {
                pos: e.pos,
                bases: BaseCompColBases { A: e.A, T: e.T, G: e.G, C: e.C, N: e.N },
            };
            proof {
                assert(bc == cbc_col(e));
                assert(bc == out_cols[k as int]);
            }
            let cs = flat_col_string(&bc);
            r.append(cs.as_str());
            proof {
                let prefix = out_cols.take(k as int + 1);
                assert(prefix.drop_last() =~= out_cols.take(k as int));
                assert(prefix.last() == out_cols[k as int]);
                if k == 0 {
                    assert(flat_json_cols(out_cols.take(0int)) =~= Seq::<char>::empty());
                    assert(r@ =~= "{\"lib\":["@ + flat_json_cols(prefix));
                } else {
                    assert(r@ =~= "{\"lib\":["@ + flat_json_cols(prefix));
                }
            }
            k = k + 1;
        }
        proof {
            assert(out_cols.take(n_cols as int) =~= out_cols);
        }
        r.append("],\"len\":");
        let ls = crate::decimal::usize_to_string(self.len);
        r.append(ls.as_str());
        r.append("}");
        r
    }
}

/// The table width of a run: the trim length when one is configured,
/// otherwise the length of the first record's sequence line.
pub open spec fn run_width(lines: Seq<Seq<char>>, args: SampleArgs) -> int {
    match args.trimmed_length {
        Some(n) => n as int,
        None => if n_records(lines) >= 1 {
            rec_seq(lines, 0).len() as int
        } else {
            0
        },
    }
}

/// How many accepted reads a run takes: one more than the target
/// count, or the whole accepted stream when it is shorter.
pub open spec fn run_take(acc: Seq<Seq<char>>, target: u64) -> int {
    if acc.len() <= target + 1 {
        acc.len() as int
    } else {
        target + 1
    }
}

/// The columns a run produces: the taken reads folded into a fresh
/// table of the run's width, converted to percentages.
pub open spec fn run_cols(lines: Seq<Seq<char>>, args: SampleArgs) -> Seq<BaseCompCol> {
    let acc = accepted_from(lines, args, 0);
    crate::extract_all(
        crate::init_cols(run_width(lines, args)),
        acc.take(run_take(acc, args.target_read_count)),
    ).map(|i: int, c: BaseCompCol| pct_col(c))
}

/// Aggregates accepted reads straight into a table — no sampling —
/// until one more than the target count has been taken, the input
/// ends, or a colorspace record stops the run; then converts the
/// columns to percentages and serializes them in the flat JSON shape.
pub fn run(args: SampleArgs, lines: Vec<String>) -> (r: String)
    requires
        forall|r2: int|
            #![trigger rec_seq(lines.deep_view(), r2)]
            #![trigger rec_quals(lines.deep_view(), r2)]
            0 <= r2 < n_records(lines.deep_view()) ==> vstd::utf8::is_ascii_chars(
                rec_seq(lines.deep_view(), r2),
            ) && vstd::utf8::is_ascii_chars(rec_quals(lines.deep_view(), r2)),
        forall|r2: int|
            0 <= r2 < n_records(lines.deep_view()) ==> check_read_safe(
                rec_seq(lines.deep_view(), r2),
                rec_quals(lines.deep_view(), r2),
                args,
            ),
        args.target_read_count < u64::MAX,
        forall|i: int, j: int|
            0 <= i < accepted_from(lines.deep_view(), args, 0).len() && 0 <= j < accepted_from(
                lines.deep_view(),
                args,
                0,
            )[i].len() ==> valid_base(#[trigger] accepted_from(lines.deep_view(), args, 0)[i][j]),
        args.trimmed_length is None ==> forall|i: int|
            0 <= i < accepted_from(lines.deep_view(), args, 0).len() ==> (
            #[trigger] accepted_from(lines.deep_view(), args, 0)[i]).len() <= run_width(
                lines.deep_view(),
                args,
            ),
    ensures
        r@ == "{\"lib\":["@ + flat_json_cols(run_cols(lines.deep_view(), args)) + "],\"len\":"@
            + crate::decimal::spec_dec(run_cols(lines.deep_view(), args).len() as int) + "}"@,
{
    let ghost lv = lines.deep_view();
    let ghost acc = accepted_from(lv, args, 0);
    proof {
        lemma_accepted_shape(lv, args, 0);
    }

    // Width of the table: the trim length, or the first record's
    // sequence length.
    let width: usize = match args.trimmed_length {
        Some(n) => n,
        None => {
            if lines.len() >= 4 {
                proof {
                    assert(lv[1] == rec_seq(lv, 0));
                }
                vstd::string::StrSliceExecFns::unicode_len(lines[1].as_str())
            } else {
                proof {
                    assert(n_records(lv) == 0);
                }
                0
            }
        },
    };
    proof {
        assert(width as int == run_width(lv, args));
    }

    let total_lines = lines.len();
    let mut base_comp = BaseComp::init(width);
    proof {
        let mc = base_comp.lib@.map_values(|c: ColBaseComp| cbc_col(c));
        assert(mc.len() == crate::init_cols(width as int).len());
        assert(base_comp.lib@.len() == width);
        assert forall|j: int|
            0 <= j < base_comp.lib@.len() implies col_sum(
            cbc_bases(#[trigger] base_comp.lib@[j]),
        ) <= 0 by {
            assert(mc[j] == crate::init_cols(width as int)[j]);
            assert(cbc_bases(base_comp.lib@[j]) == crate::init_cols(width as int)[j].bases);
        }
        assert(accepted_from(lv, args, 0) =~= acc.skip(0));
        assert(crate::extract_all(crate::init_cols(width as int), acc.take(0int)) == crate::init_cols(width as int)) by {
            assert(acc.take(0int) =~= Seq::<Seq<char>>::empty());
        }
    }
    let target = args.target_read_count;
    let mut reader = FASTQReader::new(args, lines);
    let mut valid: u64 = 0;
    let mut done = false;
    let ghost m = run_take(acc, target);

    while !done && valid <= target
        invariant
            reader.wf(),
            reader.lines.deep_view() == lv,
            reader.sample_args == args,
            acc == accepted_from(lv, args, 0),
            m == run_take(acc, target),
            target == args.target_read_count,
            target < u64::MAX,
            valid <= target + 1,
            valid <= acc.len(),
            accepted_from(lv, args, reader.rec as int) == acc.skip(valid as int),
            done ==> valid == acc.len(),
            base_comp.lib@.map_values(|c: ColBaseComp| cbc_col(c)) == crate::extract_all(
                crate::init_cols(width as int),
                acc.take(valid as int),
            ),
            base_comp.lib@.len() == width,
            base_comp.len == width,
            forall|j: int|
                0 <= j < base_comp.lib@.len() ==> col_sum(
                    cbc_bases(#[trigger] base_comp.lib@[j]),
                ) <= valid,
            forall|i: int, j: int|
                0 <= i < acc.len() && 0 <= j < acc[i].len() ==> valid_base(#[trigger] acc[i][j]),
            forall|i: int| 0 <= i < acc.len() ==> (#[trigger] acc[i]).len() <= width,
            acc.len() <= n_records(lv),
            lv.len() == total_lines,
        decreases acc.len() - valid + (if done {
            0int
        } else {
            1int
        }),
    {
        match reader.next() {
            None => {
                proof {
                    assert(acc.skip(valid as int).len() == 0);
                }
                done = true;
            },
            Some(s) => {
                proof {
                    let rest = acc.skip(valid as int);
                    assert(rest == seq![s@] + accepted_from(lv, args, reader.rec as int));
                    assert(rest[0] == s@);
                    assert(acc[valid as int] == s@);
                    assert(accepted_from(lv, args, reader.rec as int) =~= acc.skip(
                        valid as int + 1,
                    )) by {
                        assert(rest.drop_first() =~= acc.skip(valid as int + 1));
                        assert((seq![s@] + accepted_from(lv, args, reader.rec as int))
                            .drop_first() =~= accepted_from(lv, args, reader.rec as int));
                    }
                    assert(s@.len() <= width);
                    assert(valid < acc.len());
                    assert(n_records(lv) <= total_lines);
                    assert(valid < usize::MAX);
                }
                let ghost cols_before = base_comp.lib@.map_values(|c: ColBaseComp| cbc_col(c));
                base_comp.extract(s.as_str());
                proof {
                    assert(acc.take(valid as int + 1).drop_last() =~= acc.take(valid as int));
                    assert(acc.take(valid as int + 1) =~= acc.take(valid as int).push(
                        acc[valid as int],
                    ));
                    crate::lemma_extract_all_push(
                        crate::init_cols(width as int),
                        acc.take(valid as int),
                        acc[valid as int],
                    );
                    let mc = base_comp.lib@.map_values(|c: ColBaseComp| cbc_col(c));
                    assert(mc.len() == crate::extract_cols(cols_before, s@).len());
                    assert(base_comp.lib@.len() == width);
                    assert forall|j: int|
                        0 <= j < base_comp.lib@.len() implies col_sum(
                        cbc_bases(#[trigger] base_comp.lib@[j]),
                    ) <= valid + 1 by {
                        assert(cbc_bases(base_comp.lib@[j]) == mc[j].bases);
                        assert(mc[j] == crate::extract_cols(cols_before, s@)[j]);
                        assert(col_sum(mc[j].bases) <= col_sum(cols_before[j].bases) + 1);
                    }
                }
                valid = valid + 1;
            },
        }
    }
    proof {
        if done {
            assert(valid == acc.len());
            assert(valid as int == m);
        } else {
            assert(valid == target + 1);
            assert(acc.len() >= valid);
            assert(valid as int == m);
        }
    }

    // Convert each column to percentages.
    let ghost counted = base_comp.lib@;
    let n_cols = base_comp.lib.len();
    let mut i: usize = 0;
    while i < n_cols
        invariant
            n_cols == base_comp.lib@.len(),
            i <= n_cols,
            counted.len() == n_cols,
            forall|j: int|
                0 <= j < i ==> cbc_col(#[trigger] base_comp.lib@[j]) == pct_col(
                    cbc_col(counted[j]),
                ),
            forall|j: int| i <= j < n_cols ==> base_comp.lib@[j] == #[trigger] counted[j],
            base_comp.len == width,
            n_cols == width,
        decreases n_cols - i,
    {
        let mut col = base_comp.lib[i];
        col.percentage();
        base_comp.lib.set(i, col);
        i = i + 1;
    }

    proof {
        assert(base_comp.lib@.map_values(|c: ColBaseComp| cbc_col(c)) =~= run_cols(lv, args));
        assert(run_cols(lv, args).len() == width);
    }
    base_comp.jsonify()
}

} // verus!