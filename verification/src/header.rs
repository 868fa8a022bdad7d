//! The header of a dynamic block: the code lengths of the two alphabets,
//! written as symbols of a third alphabet with a Huffman code of its own.

use crate::bits::{bits_of, Bits};
use crate::canonical::{encoder_ok, widths_within};
use crate::code::{distance_symbol, lemma_distance_schedule, Code};
use crate::decoder::HuffmanDecoder;
use crate::huffman::{symbol_bits, HuffmanEncoder};
use crate::stream::{repeat, width_code_order};
use crate::writer::Writer;
use vstd::prelude::*;

verus! {

/// Where the table of the code that code lengths are written in starts.
pub const WIDTH_BASE: usize = 320;

/// How many extra bits follow the symbol `sym` of the code-length alphabet.
pub open spec fn run_extra_width(sym: int) -> int {
    if sym == 16 {
        2
    } else if sym == 17 {
        3
    } else if sym == 18 {
        7
    } else {
        0
    }
}

/// How many code lengths the symbol `sym` with the extra bits `extra` stands for.
pub open spec fn run_count(sym: int, extra: int) -> int {
    if sym < 16 {
        1
    } else if sym == 18 {
        extra + 11
    } else {
        extra + 3
    }
}

/// The code lengths that a sequence of code-length symbols, each with the
/// value of its extra bits, stands for.
pub open spec fn runs_expand(runs: Seq<(u8, u8)>) -> Seq<u8>
    decreases runs.len(),
{
    if runs.len() == 0 {
        Seq::empty()
    } else {
        let acc = runs_expand(runs.drop_last());
        let (sym, extra) = runs.last();
        let x = if sym < 16 {
            sym
        } else if sym == 16 && acc.len() > 0 {
            acc.last()
        } else {
            0u8
        };
        acc + repeat(x, run_count(sym as int, extra as int))
    }
}

/// Every symbol is of the code-length alphabet, its extra bits fit their
/// width, and a repeat has a length before it.
pub open spec fn runs_valid(runs: Seq<(u8, u8)>) -> bool
    decreases runs.len(),
{
    if runs.len() == 0 {
        true
    } else {
        let (sym, extra) = runs.last();
        &&& runs_valid(runs.drop_last())
        &&& sym <= 18
        &&& sym < 16 ==> extra == 0
        &&& sym == 16 ==> extra <= 3 && runs_expand(runs.drop_last()).len() > 0
        &&& sym == 17 ==> extra <= 7
        &&& sym == 18 ==> extra <= 127
    }
}

/// The bits of a sequence of code-length symbols under the code of `clw`.
pub open spec fn runs_bits(clw: Seq<u8>, runs: Seq<(u8, u8)>) -> Seq<bool>
    decreases runs.len(),
{
    if runs.len() == 0 {
        Seq::empty()
    } else {
        runs_bits(clw, runs.drop_last()) + (symbol_bits(clw, runs.last().0 as int) + bits_of(
            runs.last().1 as int,
            run_extra_width(runs.last().0 as int) as nat,
        ))
    }
}

/// The first `count` three-bit fields of a dynamic block's header: the
/// lengths of the codes for code lengths, in the order of the format.
pub open spec fn width_fields(clw: Seq<u8>, count: int) -> Seq<bool>
    decreases count,
{
    if count <= 0 {
        Seq::empty()
    } else {
        width_fields(clw, count - 1) + bits_of(clw[width_code_order()[count - 1]] as int, 3)
    }
}

/// The header of a dynamic block: the three counts, the fields, and the code
/// lengths of both alphabets as `runs`.
pub open spec fn dynamic_header_bits(
    lit: Seq<u8>,
    dist: Seq<u8>,
    clw: Seq<u8>,
    hclen: int,
    runs: Seq<(u8, u8)>,
) -> Seq<bool> {
    bits_of(lit.len() - 257, 5) + bits_of(dist.len() - 1, 5) + bits_of(hclen - 4, 4) + width_fields(
        clw,
        hclen,
    ) + runs_bits(clw, runs)
}

/// Every symbol of `runs` has a code in `clw`.
pub open spec fn runs_coded(clw: Seq<u8>, runs: Seq<(u8, u8)>) -> bool {
    forall|k: int| 0 <= k < runs.len() ==> clw[(#[trigger] runs[k]).0 as int] >= 1
}

/// The lengths that the header leaves out, from the field `hclen` on, are zero.
pub open spec fn fields_cover(clw: Seq<u8>, hclen: int) -> bool {
    forall|k: int| hclen <= k < 19 ==> clw[#[trigger] width_code_order()[k]] == 0
}

/// All codes are well formed.
pub open spec fn codes_wf(codes: Seq<Code>) -> bool {
    forall|k: int| 0 <= k < codes.len() ==> (#[trigger] codes[k]).wf()
}

/// How many of the first `upto` codes have the literal/length symbol `sym`.
pub open spec fn count_literal(codes: Seq<Code>, sym: int, upto: int) -> int
    decreases upto,
{
    if upto <= 0 {
        0
    } else {
        count_literal(codes, sym, upto - 1) + if codes[upto - 1].spec_literal_code() == sym {
            1int
        } else {
            0int
        }
    }
}

/// How many of the first `upto` codes are back-references with the distance
/// symbol `sym`.
pub open spec fn count_distance(codes: Seq<Code>, sym: int, upto: int) -> int
    decreases upto,
{
    if upto <= 0 {
        0
    } else {
        count_distance(codes, sym, upto - 1) + if codes[upto - 1] is Pointer && distance_symbol(
            codes[upto - 1],
        ) == sym {
            1int
        } else {
            0int
        }
    }
}

/// How often each of the 286 literal/length symbols occurs in `codes`.
pub open spec fn literal_frequencies(codes: Seq<Code>) -> Seq<usize> {
    Seq::new(286, |sym: int| count_literal(codes, sym, codes.len() as int) as usize)
}

/// How often each of the 30 distance symbols occurs in `codes`.
pub open spec fn distance_frequencies(codes: Seq<Code>) -> Seq<usize> {
    Seq::new(30, |sym: int| count_distance(codes, sym, codes.len() as int) as usize)
}

/// No more codes are counted than are looked at.
pub proof fn lemma_count_literal_bounds(codes: Seq<Code>, sym: int, upto: int)
    requires
        0 <= upto,
    ensures
        0 <= count_literal(codes, sym, upto) <= upto,
    decreases upto,
{
    if upto > 0 {
        lemma_count_literal_bounds(codes, sym, upto - 1);
    }
}

/// No more back-references are counted than codes are looked at.
pub proof fn lemma_count_distance_bounds(codes: Seq<Code>, sym: int, upto: int)
    requires
        0 <= upto,
    ensures
        0 <= count_distance(codes, sym, upto) <= upto,
    decreases upto,
{
    if upto > 0 {
        lemma_count_distance_bounds(codes, sym, upto - 1);
    }
}

/// A symbol that a code has is counted at least once.
pub proof fn lemma_count_literal_positive(codes: Seq<Code>, k: int, upto: int)
    requires
        0 <= k < upto <= codes.len(),
    ensures
        count_literal(codes, codes[k].spec_literal_code(), upto) >= 1,
    decreases upto,
{
    lemma_count_literal_bounds(codes, codes[k].spec_literal_code(), upto - 1);
    if k < upto - 1 {
        lemma_count_literal_positive(codes, k, upto - 1);
    }
}

/// A distance symbol that a back-reference has is counted at least once.
pub proof fn lemma_count_distance_positive(codes: Seq<Code>, k: int, upto: int)
    requires
        0 <= k < upto <= codes.len(),
        codes[k] is Pointer,
    ensures
        count_distance(codes, distance_symbol(codes[k]), upto) >= 1,
    decreases upto,
{
    lemma_count_distance_bounds(codes, distance_symbol(codes[k]), upto - 1);
    if k < upto - 1 {
        lemma_count_distance_positive(codes, k, upto - 1);
    }
}

/// How often each literal/length symbol and each distance symbol occurs.
pub fn count_frequencies(codes: &[Code]) -> (r: (Vec<usize>, Vec<usize>))
    requires
        codes_wf(codes@),
    ensures
        r.0@ == literal_frequencies(codes@),
        r.1@ == distance_frequencies(codes@),
{
    let mut lit: Vec<usize> = Vec::new();
    let mut i: usize = 0;
    while i < 286
        invariant
            i <= 286,
            lit@.len() == i,
            forall|s: int| 0 <= s < i ==> lit@[s] == 0,
        decreases 286 - i,
    {
        lit.push(0);
        i += 1;
    }
    let mut dist: Vec<usize> = Vec::new();
    let mut j: usize = 0;
    while j < 30
        invariant
            j <= 30,
            dist@.len() == j,
            forall|s: int| 0 <= s < j ==> dist@[s] == 0,
        decreases 30 - j,
    {
        dist.push(0);
        j += 1;
    }
    let mut k: usize = 0;
    while k < codes.len()
        invariant
            k <= codes@.len(),
            codes_wf(codes@),
            lit@.len() == 286,
            dist@.len() == 30,
            forall|s: int| 0 <= s < 286 ==> #[trigger] lit@[s] as int == count_literal(codes@, s, k as int),
            forall|s: int| 0 <= s < 30 ==> #[trigger] dist@[s] as int == count_distance(codes@, s, k as int),
        decreases codes@.len() - k,
    {
        let code: Code = codes[k];
        assert(code.wf());
        let sym: usize = code.literal_code() as usize;
        let ghost lit_before = lit@;
        let ghost dist_before = dist@;
        proof {
            lemma_count_literal_bounds(codes@, sym as int, k as int);
            assert(lit@[sym as int] as int == count_literal(codes@, sym as int, k as int));
        }
        lit[sym] = lit[sym] + 1;
        if let Some((dsym, _, _)) = code.distance_code() {
            proof {
                lemma_distance_schedule(code);
                lemma_count_distance_bounds(codes@, dsym as int, k as int);
                assert(dist@[dsym as int] as int == count_distance(codes@, dsym as int, k as int));
            }
            dist[dsym as usize] = dist[dsym as usize] + 1;
        }
        proof {
            assert forall|s: int| 0 <= s < 286 implies #[trigger] lit@[s] as int == count_literal(
                codes@,
                s,
                k + 1,
            ) by {
                assert(lit_before[s] as int == count_literal(codes@, s, k as int));
            }
            assert forall|s: int| 0 <= s < 30 implies #[trigger] dist@[s] as int == count_distance(
                codes@,
                s,
                k + 1,
            ) by {
                assert(dist_before[s] as int == count_distance(codes@, s, k as int));
                if code is Pointer {
                    lemma_distance_schedule(code);
                }
            }
        }
        k += 1;
    }
    proof {
        assert(lit@ =~= literal_frequencies(codes@));
        assert(dist@ =~= distance_frequencies(codes@));
    }
    (lit, dist)
}

/// How many of the first `count` code lengths are left when those at the end
/// that are zero are dropped, but for `least`.
pub open spec fn trim_len(widths: Seq<u8>, least: int, count: int) -> int
    decreases count,
{
    if count > least && count > 0 && widths[count - 1] == 0 {
        trim_len(widths, least, count - 1)
    } else {
        count
    }
}

/// The code lengths without the symbols at the end that have no code, but at
/// least `least` of them.
pub open spec fn trim_spec(widths: Seq<u8>, least: int) -> Seq<u8> {
    widths.subrange(0, trim_len(widths, least, widths.len() as int))
}

/// The code lengths without the symbols at the end that have no code, but at
/// least `least` of them.
pub fn trimmed(widths: &Vec<u8>, least: usize) -> (r: Vec<u8>)
    requires
        least <= widths@.len(),
    ensures
        r@ == trim_spec(widths@, least as int),
        least <= r@.len() <= widths@.len(),
        r@ == widths@.subrange(0, r@.len() as int),
        forall|i: int| r@.len() <= i < widths@.len() ==> #[trigger] widths@[i] == 0,
{
    let mut count: usize = widths.len();
    while count > least && widths[count - 1] == 0
        invariant
            least <= count <= widths@.len(),
            forall|i: int| count <= i < widths@.len() ==> #[trigger] widths@[i] == 0,
            trim_len(widths@, least as int, count as int) == trim_len(
                widths@,
                least as int,
                widths@.len() as int,
            ),
        decreases count,
    {
        count -= 1;
    }
    let mut r: Vec<u8> = Vec::new();
    let mut i: usize = 0;
    while i < count
        invariant
            i <= count <= widths@.len(),
            r@ == widths@.subrange(0, i as int),
        decreases count - i,
    {
        r.push(widths[i]);
        i += 1;
        proof {
            assert(widths@.subrange(0, i as int) =~= widths@.subrange(0, i - 1).push(widths@[i - 1]));
        }
    }
    r
}

/// One sequence of two.
pub fn join_widths(a: &Vec<u8>, b: &Vec<u8>) -> (r: Vec<u8>)
    ensures
        r@ == a@ + b@,
{
    let mut r: Vec<u8> = Vec::new();
    let mut i: usize = 0;
    while i < a.len()
        invariant
            i <= a@.len(),
            r@ == a@.subrange(0, i as int),
        decreases a@.len() - i,
    {
        r.push(a[i]);
        i += 1;
        proof {
            assert(a@.subrange(0, i as int) =~= a@.subrange(0, i - 1).push(a@[i - 1]));
        }
    }
    proof {
        assert(a@.subrange(0, a@.len() as int) =~= a@);
    }
    let mut j: usize = 0;
    while j < b.len()
        invariant
            j <= b@.len(),
            r@ == a@ + b@.subrange(0, j as int),
        decreases b@.len() - j,
    {
        r.push(b[j]);
        j += 1;
        proof {
            assert(a@ + b@.subrange(0, j as int) =~= (a@ + b@.subrange(0, j - 1)).push(b@[j - 1]));
        }
    }
    proof {
        assert(b@.subrange(0, b@.len() as int) =~= b@);
    }
    r
}

/// How many of the code lengths from `from` on equal the one at `from`,
/// counted from `r` on and up to `cap`.
pub open spec fn same_run_spec(all: Seq<u8>, from: int, cap: int, r: int) -> int
    decreases cap - r,
{
    if r < cap && 0 <= from && from + r < all.len() && all[from + r] == all[from] {
        same_run_spec(all, from, cap, r + 1)
    } else {
        r
    }
}

/// A run has at least the length counted so far, at most `cap`, and ends
/// within the code lengths.
pub proof fn lemma_same_run_bounds(all: Seq<u8>, from: int, cap: int, r: int)
    requires
        0 <= from,
        1 <= r <= cap,
        from + r <= all.len(),
    ensures
        r <= same_run_spec(all, from, cap, r) <= cap,
        from + same_run_spec(all, from, cap, r) <= all.len(),
    decreases cap - r,
{
    if r < cap && from + r < all.len() && all[from + r] == all[from] {
        lemma_same_run_bounds(all, from, cap, r + 1);
    }
}

/// How many of the code lengths from `from` on equal the one at `from`, counted
/// up to `cap`.
pub fn same_run(all: &Vec<u8>, from: usize, cap: usize) -> (r: usize)
    requires
        from < all@.len(),
        1 <= cap,
    ensures
        r as int == same_run_spec(all@, from as int, cap as int, 1),
        1 <= r <= cap,
        from + r <= all@.len(),
        forall|i: int| from <= i < from + r ==> #[trigger] all@[i] == all@[from as int],
{
    let n: usize = all.len();
    let mut r: usize = 1;
    while r < cap && r < n - from && all[from + r] == all[from]
        invariant
            1 <= r <= cap,
            n == all@.len(),
            from + r <= n,
            forall|i: int| from <= i < from + r ==> #[trigger] all@[i] == all@[from as int],
            same_run_spec(all@, from as int, cap as int, r as int) == same_run_spec(
                all@,
                from as int,
                cap as int,
                1,
            ),
        decreases cap - r,
    {
        r += 1;
    }
    r
}

/// The symbol of the code-length alphabet, with the value of its extra bits,
/// that stands for the code lengths from `done` on, and how many it covers: a
/// run of zeros of three and more, up to 138; a repeat of the length before,
/// three to six times; else the length itself.
pub open spec fn next_run(all: Seq<u8>, done: int) -> ((u8, u8), int) {
    let v = all[done];
    if v == 0 {
        let run = same_run_spec(all, done, 138, 1);
        if run >= 11 {
            ((18u8, (run - 11) as u8), run)
        } else if run >= 3 {
            ((17u8, (run - 3) as u8), run)
        } else {
            ((0u8, 0u8), 1)
        }
    } else if done > 0 && all[done - 1] == v {
        let run = same_run_spec(all, done, 6, 1);
        if run >= 3 {
            ((16u8, (run - 3) as u8), run)
        } else {
            ((v, 0u8), 1)
        }
    } else {
        ((v, 0u8), 1)
    }
}

/// The symbols of the code-length alphabet that stand for the code lengths
/// from `done` on.
pub open spec fn run_lengths_spec(all: Seq<u8>, done: int) -> Seq<(u8, u8)>
    decreases all.len() - done,
    via run_lengths_decreases
{
    if done < 0 || done >= all.len() {
        Seq::empty()
    } else {
        seq![next_run(all, done).0] + run_lengths_spec(all, done + next_run(all, done).1)
    }
}

#[via_fn]
proof fn run_lengths_decreases(all: Seq<u8>, done: int) {
    if 0 <= done < all.len() {
        lemma_same_run_bounds(all, done, 138, 1);
        lemma_same_run_bounds(all, done, 6, 1);
    }
}

/// Writes code lengths as symbols of the code-length alphabet: runs of zeros
/// of three and more as one symbol, up to 138 at a time; a length that comes
/// again three times and more as repeats of up to six; the rest as they are.
pub fn run_lengths(all: &Vec<u8>) -> (runs: Vec<(u8, u8)>)
    requires
        widths_within(all@, 15),
    ensures
        runs@ == run_lengths_spec(all@, 0),
        runs_valid(runs@),
        runs_expand(runs@) == all@,
{
    let n: usize = all.len();
    let mut runs: Vec<(u8, u8)> = Vec::new();
    let mut done: usize = 0;
    proof {
        assert(all@.subrange(0, 0) =~= Seq::<u8>::empty());
        assert(runs@ + run_lengths_spec(all@, 0) =~= run_lengths_spec(all@, 0));
    }
    while done < n
        invariant
            done <= n,
            n == all@.len(),
            widths_within(all@, 15),
            runs_valid(runs@),
            runs_expand(runs@) == all@.subrange(0, done as int),
            runs@ + run_lengths_spec(all@, done as int) == run_lengths_spec(all@, 0),
        decreases n - done,
    {
        let v: u8 = all[done];
        assert(all@[done as int] as int <= 15);
        let ghost before = runs@;
        let ghost rest = run_lengths_spec(all@, done as int);
        let item: (u8, u8);
        let count: usize;
        if v == 0 {
            let run: usize = same_run(all, done, 138);
            if run >= 11 {
                item = (18, (run - 11) as u8);
                count = run;
            } else if run >= 3 {
                item = (17, (run - 3) as u8);
                count = run;
            } else {
                item = (0, 0);
                count = 1;
            }
        } else if done > 0 && all[done - 1] == v {
            let run: usize = same_run(all, done, 6);
            if run >= 3 {
                item = (16, (run - 3) as u8);
                count = run;
            } else {
                item = (v, 0);
                count = 1;
            }
        } else {
            item = (v, 0);
            count = 1;
        }
        runs.push(item);
        proof {
            assert(next_run(all@, done as int) == (item, count as int));
            assert(rest == seq![item] + run_lengths_spec(all@, done + count));
            assert(runs@ + run_lengths_spec(all@, done + count) =~= before + rest);
            assert(runs@.drop_last() =~= before);
            assert(runs@.last() == item);
            let acc = all@.subrange(0, done as int);
            if item.0 == 16 {
                assert(acc.last() == all@[done - 1]);
            }
            assert(all@.subrange(0, done + count) =~= acc + repeat(v, count as int));
        }
        done += count;
    }
    proof {
        assert(all@.subrange(0, n as int) =~= all@);
        assert(run_lengths_spec(all@, n as int) =~= Seq::<(u8, u8)>::empty());
        assert(runs@ + Seq::<(u8, u8)>::empty() =~= runs@);
    }
    runs
}

/// How many of the first `upto` of `runs` have the symbol `sym`.
pub open spec fn count_run(runs: Seq<(u8, u8)>, sym: int, upto: int) -> int
    decreases upto,
{
    if upto <= 0 {
        0
    } else {
        count_run(runs, sym, upto - 1) + if runs[upto - 1].0 as int == sym {
            1int
        } else {
            0int
        }
    }
}

/// How often each of the 19 symbols of the code-length alphabet occurs in `runs`.
pub open spec fn run_frequencies_spec(runs: Seq<(u8, u8)>) -> Seq<usize> {
    Seq::new(19, |sym: int| count_run(runs, sym, runs.len() as int) as usize)
}

/// No more symbols are counted than are looked at.
pub proof fn lemma_count_run_bounds(runs: Seq<(u8, u8)>, sym: int, upto: int)
    requires
        0 <= upto,
    ensures
        0 <= count_run(runs, sym, upto) <= upto,
    decreases upto,
{
    if upto > 0 {
        lemma_count_run_bounds(runs, sym, upto - 1);
    }
}

/// A symbol that one of `runs` has is counted at least once.
pub proof fn lemma_count_run_positive(runs: Seq<(u8, u8)>, k: int, upto: int)
    requires
        0 <= k < upto <= runs.len(),
    ensures
        count_run(runs, runs[k].0 as int, upto) >= 1,
    decreases upto,
{
    lemma_count_run_bounds(runs, runs[k].0 as int, upto - 1);
    if k < upto - 1 {
        lemma_count_run_positive(runs, k, upto - 1);
    }
}

/// How often each symbol of the code-length alphabet occurs in `runs`.
pub fn run_frequencies(runs: &Vec<(u8, u8)>) -> (r: Vec<usize>)
    requires
        runs_valid(runs@),
    ensures
        r@ == run_frequencies_spec(runs@),
{
    let mut freq: Vec<usize> = Vec::new();
    let mut i: usize = 0;
    while i < 19
        invariant
            i <= 19,
            freq@.len() == i,
            forall|s: int| 0 <= s < i ==> freq@[s] == 0,
        decreases 19 - i,
    {
        freq.push(0);
        i += 1;
    }
    let mut k: usize = 0;
    while k < runs.len()
        invariant
            k <= runs@.len(),
            runs_valid(runs@),
            freq@.len() == 19,
            forall|s: int| 0 <= s < 19 ==> #[trigger] freq@[s] as int == count_run(runs@, s, k as int),
        decreases runs@.len() - k,
    {
        proof {
            lemma_runs_valid_at(runs@, k as int);
        }
        let sym: usize = runs[k].0 as usize;
        let ghost before = freq@;
        proof {
            lemma_count_run_bounds(runs@, sym as int, k as int);
            assert(freq@[sym as int] as int == count_run(runs@, sym as int, k as int));
        }
        freq[sym] = freq[sym] + 1;
        proof {
            assert forall|s: int| 0 <= s < 19 implies #[trigger] freq@[s] as int == count_run(
                runs@,
                s,
                k + 1,
            ) by {
                assert(before[s] as int == count_run(runs@, s, k as int));
            }
        }
        k += 1;
    }
    proof {
        assert(freq@ =~= run_frequencies_spec(runs@));
    }
    freq
}

/// Each of valid runs is a symbol of the code-length alphabet with extra bits
/// that fit.
pub proof fn lemma_runs_valid_at(runs: Seq<(u8, u8)>, k: int)
    requires
        runs_valid(runs),
        0 <= k < runs.len(),
    ensures
        runs[k].0 <= 18,
        runs[k].0 < 16 ==> runs[k].1 == 0,
        runs[k].0 == 16 ==> runs[k].1 <= 3,
        runs[k].0 == 17 ==> runs[k].1 <= 7,
        runs[k].0 == 18 ==> runs[k].1 <= 127,
        runs_valid(runs.subrange(0, k)),
        runs[k].0 == 16 ==> runs_expand(runs.subrange(0, k)).len() > 0,
    decreases runs.len(),
{
    if k == runs.len() - 1 {
        assert(runs.subrange(0, k) =~= runs.drop_last());
    } else {
        lemma_runs_valid_at(runs.drop_last(), k);
        assert(runs.drop_last().subrange(0, k) =~= runs.subrange(0, k));
    }
}

/// How many of the first `hclen` fields the header needs: all up to the last
/// code length that is not zero, in the order of the format, and at least
/// four.
pub open spec fn used_fields_spec(clw: Seq<u8>, hclen: int) -> int
    decreases hclen,
{
    if hclen > 4 && clw[width_code_order()[hclen - 1]] == 0 {
        used_fields_spec(clw, hclen - 1)
    } else {
        hclen
    }
}

/// How many fields the header needs: all up to the last code length that is
/// not zero, in the order of the format, and at least four.
pub fn used_fields(clw: &Vec<u8>) -> (hclen: usize)
    requires
        clw@.len() == 19,
    ensures
        hclen as int == used_fields_spec(clw@, 19),
        4 <= hclen <= 19,
        fields_cover(clw@, hclen as int),
{
    let mut hclen: usize = 19;
    while hclen > 4 && clw[HuffmanDecoder::width_code_order_at(hclen - 1)] == 0
        invariant
            4 <= hclen <= 19,
            clw@.len() == 19,
            fields_cover(clw@, hclen as int),
            used_fields_spec(clw@, hclen as int) == used_fields_spec(clw@, 19),
        decreases hclen,
    {
        hclen -= 1;
    }
    hclen
}

/// Writes the first `hclen` fields of the header.
pub fn write_fields(writer: &mut Writer, clw: &Vec<u8>, hclen: usize)
    requires
        old(writer).wf(),
        clw@.len() == 19,
        hclen <= 19,
    ensures
        final(writer).wf(),
        final(writer)@ == old(writer)@ + width_fields(clw@, hclen as int),
{
    let ghost start = writer@;
    let mut k: usize = 0;
    proof {
        assert(start + width_fields(clw@, 0) =~= start);
    }
    while k < hclen
        invariant
            k <= hclen <= 19,
            clw@.len() == 19,
            writer.wf(),
            start == old(writer)@,
            writer@ == start + width_fields(clw@, k as int),
        decreases hclen - k,
    {
        let at: usize = HuffmanDecoder::width_code_order_at(k);
        let ghost before = width_fields(clw@, k as int);
        writer.write_bits(Bits { data: clw[at] as u16, width: 3 });
        proof {
            assert(writer@ =~= start + (before + bits_of(clw@[at as int] as int, 3)));
        }
        k += 1;
    }
}

/// Writes the code lengths of both alphabets as the symbols `runs`.
pub fn write_runs(writer: &mut Writer, buf: &[i32; 0x10000], clw: &Vec<u8>, runs: &Vec<(u8, u8)>)
    requires
        old(writer).wf(),
        clw@.len() == 19,
        widths_within(clw@, 15),
        encoder_ok(buf@, 320, clw@),
        runs_valid(runs@),
    ensures
        final(writer).wf(),
        final(writer)@ == old(writer)@ + runs_bits(clw@, runs@),
{
    let ghost start = writer@;
    let mut k: usize = 0;
    proof {
        assert(runs@.subrange(0, 0) =~= Seq::<(u8, u8)>::empty());
        assert(start + runs_bits(clw@, runs@.subrange(0, 0)) =~= start);
    }
    while k < runs.len()
        invariant
            k <= runs@.len(),
            clw@.len() == 19,
            widths_within(clw@, 15),
            encoder_ok(buf@, 320, clw@),
            runs_valid(runs@),
            writer.wf(),
            start == old(writer)@,
            writer@ == start + runs_bits(clw@, runs@.subrange(0, k as int)),
        decreases runs@.len() - k,
    {
        proof {
            lemma_runs_valid_at(runs@, k as int);
            assert(runs@.subrange(0, k + 1).drop_last() =~= runs@.subrange(0, k as int));
            assert(runs@.subrange(0, k + 1).last() == runs@[k as int]);
        }
        let (sym, extra) = runs[k];
        let ghost before = runs_bits(clw@, runs@.subrange(0, k as int));
        let ghost mid = writer@;
        HuffmanEncoder::put(writer, buf, WIDTH_BASE, sym as u16, Ghost(clw@));
        let width: u8 = if sym == 16 {
            2
        } else if sym == 17 {
            3
        } else if sym == 18 {
            7
        } else {
            0
        };
        writer.write_bits(Bits { data: extra as u16, width });
        proof {
            assert(writer@ =~= start + (before + (symbol_bits(clw@, sym as int) + bits_of(
                extra as int,
                run_extra_width(sym as int) as nat,
            ))));
        }
        k += 1;
    }
    proof {
        assert(runs@.subrange(0, runs@.len() as int) =~= runs@);
    }
}

} // verus!
