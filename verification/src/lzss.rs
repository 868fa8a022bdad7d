//! The sliding-window matcher: bytes to literals and back-references, and back.
//!
//! The matcher is greedy and looks at one candidate per position: the most
//! recent earlier position that starts with the same two bytes. A table with
//! one slot per two-byte prefix holds that position.

use crate::code::Code;
use crate::error::Error;
use vstd::prelude::*;

verus! {

/// How far back a reference may reach.
pub const MAX_WINDOW_LENGTH: usize = 0x8000;

/// How many bytes a match may count after its two-byte prefix.
pub const MAX_LENGTH: usize = 0x100;

/// `s` followed by `l` bytes, each a copy of the byte `d` places before it.
pub open spec fn expand(s: Seq<u8>, d: int, l: nat) -> Seq<u8>
    decreases l,
{
    if l == 0 {
        s
    } else {
        expand(s.push(s[s.len() - d]), d, (l - 1) as nat)
    }
}

/// What the codes expand to when appended to `out`, or the first failure.
pub open spec fn expand_codes(codes: Seq<Code>, out: Seq<u8>) -> Result<Seq<u8>, Error>
    decreases codes.len(),
{
    if codes.len() == 0 {
        Ok(out)
    } else {
        match codes[0] {
            Code::EndOfBlock => Err(Error::UnexpectedEndOfBlock),
            Code::Literal(a) => expand_codes(codes.drop_first(), out.push(a)),
            Code::Pointer { distance, length } => if distance as int > out.len() {
                Err(Error::BackReferenceOutOfRange)
            } else {
                expand_codes(codes.drop_first(), expand(out, distance as int, (length + 3) as nat))
            },
        }
    }
}

/// The bytes that a code stream stands for.
pub open spec fn lzss_decode_spec(codes: Seq<Code>) -> Result<Seq<u8>, Error> {
    expand_codes(codes, Seq::empty())
}

/// The two bytes at `i` as one 16-bit key.
pub open spec fn prefix_key(v: Seq<u8>, i: int) -> int {
    v[i] as int * 256 + v[i + 1] as int
}

/// The last position at or before `j` whose two-byte prefix is `key`; -1 if
/// there is none.
pub open spec fn last_with_key(v: Seq<u8>, key: int, j: int) -> int
    decreases j + 1,
{
    if j < 0 {
        -1
    } else if prefix_key(v, j) == key {
        j
    } else {
        last_with_key(v, key, j - 1)
    }
}

/// How many bytes agree from `j + 2 + k` and `i + 2 + k` on, counted up to the
/// end of `v` and up to `MAX_LENGTH` in all.
pub open spec fn match_run(v: Seq<u8>, j: int, i: int, k: int) -> int
    decreases v.len() - i - k,
{
    if 0 <= k < 0x100 && 0 <= j < i && i + 2 + k < v.len() && v[j + 2 + k] == v[i + 2 + k] {
        1 + match_run(v, j, i, k + 1)
    } else {
        0
    }
}

/// The position that the matcher tries at `i`: the last earlier one with the
/// same two-byte prefix.
pub open spec fn candidate(v: Seq<u8>, i: int) -> int {
    last_with_key(v, prefix_key(v, i), i - 1)
}

/// Whether the matcher emits a back-reference at `i`: the candidate is one
/// that a table slot can hold, lies within the window, and more than two bytes
/// agree after the prefix.
pub open spec fn takes_match(v: Seq<u8>, i: int) -> bool {
    let j = candidate(v, i);
    0 <= j <= 0x7fff_ffff && i - j <= 0x8000 && match_run(v, j, i, 0) > 2
}

/// The number of bytes that a back-reference emitted at `i` covers.
pub open spec fn match_total(v: Seq<u8>, i: int) -> int {
    match_run(v, candidate(v, i), i, 0) + 2
}

/// The back-reference emitted at `i`.
pub open spec fn match_code(v: Seq<u8>, i: int) -> Code {
    Code::Pointer { distance: (i - candidate(v, i)) as u16, length: (match_total(v, i) - 3) as u8 }
}

/// The codes that the matcher emits for `v` from position `i` on.
pub open spec fn lzss_from(v: Seq<u8>, i: int) -> Seq<Code>
    decreases v.len() - i,
    via lzss_from_decreases
{
    if i < 0 || i >= v.len() {
        Seq::empty()
    } else if i + 3 < v.len() && takes_match(v, i) {
        seq![match_code(v, i)] + lzss_from(v, i + match_total(v, i))
    } else {
        seq![Code::Literal(v[i])] + lzss_from(v, i + 1)
    }
}

#[via_fn]
proof fn lzss_from_decreases(v: Seq<u8>, i: int) {
    if 0 <= i && i + 3 < v.len() && takes_match(v, i) {
        lemma_match_run_bounds(v, candidate(v, i), i, 0);
    }
}

/// The codes that the matcher emits for `v`.
pub open spec fn lzss_encode_spec(v: Seq<u8>) -> Seq<Code> {
    lzss_from(v, 0)
}

/// What a slot holds for the position `j`: the position itself where it fits,
/// else the mark for "never seen".
pub open spec fn stored(j: int) -> int {
    if 0 <= j <= 0x7fff_ffff {
        j
    } else {
        -1
    }
}

/// Every slot holds the last position before `upto` that has its key.
pub open spec fn table_ok(table: Seq<i32>, v: Seq<u8>, upto: int) -> bool {
    &&& table.len() == 0x10000
    &&& forall|key: int|
        0 <= key < 0x10000 ==> #[trigger] table[key] as int == stored(last_with_key(v, key, upto - 1))
}

/// The byte at `p` equals the byte `d` places before it.
pub open spec fn repeats_at(v: Seq<u8>, p: int, d: int) -> bool {
    v[p - d] == v[p]
}

/// A run of agreeing bytes is at most `MAX_LENGTH` long, ends within `v`, and
/// every byte of it equals the byte that far back.
pub proof fn lemma_match_run_bounds(v: Seq<u8>, j: int, i: int, k: int)
    requires
        0 <= k,
    ensures
        0 <= match_run(v, j, i, k) <= 0x100 - k || match_run(v, j, i, k) == 0,
        k <= 0x100 ==> match_run(v, j, i, k) + k <= 0x100,
        i + 2 + k <= v.len() ==> i + 2 + k + match_run(v, j, i, k) <= v.len(),
        match_run(v, j, i, k) > 0 ==> 0 <= j < i,
        forall|p: int|
            i + 2 + k <= p < i + 2 + k + match_run(v, j, i, k) ==> #[trigger] repeats_at(v, p, i - j),
    decreases v.len() - i - k,
{
    if 0 <= k < 0x100 && 0 <= j < i && i + 2 + k < v.len() && v[j + 2 + k] == v[i + 2 + k] {
        lemma_match_run_bounds(v, j, i, k + 1);
        assert(repeats_at(v, i + 2 + k, i - j));
    }
}

/// The position found is at or before `j` and has the key looked for.
pub proof fn lemma_last_with_key(v: Seq<u8>, key: int, j: int)
    ensures
        -1 <= last_with_key(v, key, j),
        last_with_key(v, key, j) <= j || j < -1,
        last_with_key(v, key, j) >= 0 ==> prefix_key(v, last_with_key(v, key, j)) == key,
    decreases j + 1,
{
    if j >= 0 && prefix_key(v, j) != key {
        lemma_last_with_key(v, key, j - 1);
    }
}

/// Copying `l` bytes from `d` back reproduces `v` where `v` repeats itself at
/// that distance.
pub proof fn lemma_expand_repeats(v: Seq<u8>, i: int, d: int, l: nat)
    requires
        1 <= d <= i,
        i + l <= v.len(),
        forall|p: int| i <= p < i + l ==> #[trigger] repeats_at(v, p, d),
    ensures
        expand(v.subrange(0, i), d, l) == v.subrange(0, i + l),
    decreases l,
{
    if l > 0 {
        let s = v.subrange(0, i);
        assert(s[s.len() - d] == v[i - d]);
        assert(repeats_at(v, i, d));
        assert(s.push(v[i]) == v.subrange(0, i + 1));
        lemma_expand_repeats(v, i + 1, d, (l - 1) as nat);
    }
}

/// Expanding what the matcher emits from `i` on, after the first `i` bytes,
/// gives all of `v`.
pub proof fn lemma_lzss_round_trip_from(v: Seq<u8>, i: int)
    requires
        0 <= i <= v.len(),
    ensures
        expand_codes(lzss_from(v, i), v.subrange(0, i)) == Ok::<Seq<u8>, Error>(v),
    decreases v.len() - i,
{
    if i >= v.len() {
        assert(v.subrange(0, i) == v);
    } else if i + 3 < v.len() && takes_match(v, i) {
        let j = candidate(v, i);
        let run = match_run(v, j, i, 0);
        let total = run + 2;
        let d = i - j;
        lemma_match_run_bounds(v, j, i, 0);
        lemma_last_with_key(v, prefix_key(v, i), i - 1);
        let c = Code::Pointer { distance: d as u16, length: (total - 3) as u8 };
        let rest = lzss_from(v, i + total);
        let codes = seq![c] + rest;
        assert(codes[0] == c);
        assert(codes.drop_first() == rest);
        assert forall|p: int| i <= p < i + total implies #[trigger] repeats_at(v, p, d) by {
            if p < i + 2 {
                assert(prefix_key(v, j) == prefix_key(v, i));
            }
        }
        lemma_expand_repeats(v, i, d, total as nat);
        lemma_lzss_round_trip_from(v, i + total);
    } else {
        let c = Code::Literal(v[i]);
        let rest = lzss_from(v, i + 1);
        let codes = seq![c] + rest;
        assert(codes[0] == c);
        assert(codes.drop_first() == rest);
        assert(v.subrange(0, i).push(v[i]) == v.subrange(0, i + 1));
        lemma_lzss_round_trip_from(v, i + 1);
    }
}

/// Expanding what the matcher emits for `v` gives `v` back, whatever `v` is.
pub proof fn lemma_lzss_round_trip(v: Seq<u8>)
    ensures
        lzss_decode_spec(lzss_encode_spec(v)) == Ok::<Seq<u8>, Error>(v),
{
    lemma_lzss_round_trip_from(v, 0);
    assert(v.subrange(0, 0) == Seq::<u8>::empty());
}

/// The matcher emits no end-of-block marker, and only back-references that
/// reach back between one byte and the window.
pub proof fn lemma_lzss_codes_wf(v: Seq<u8>, i: int)
    requires
        0 <= i,
    ensures
        forall|k: int|
            0 <= k < lzss_from(v, i).len() ==> (#[trigger] lzss_from(v, i)[k]).wf() && !(lzss_from(
                v,
                i,
            )[k] is EndOfBlock),
        lzss_from(v, i).len() <= v.len() - i || i >= v.len(),
    decreases v.len() - i,
{
    if i >= v.len() {
    } else if i + 3 < v.len() && takes_match(v, i) {
        let j = candidate(v, i);
        lemma_match_run_bounds(v, j, i, 0);
        lemma_last_with_key(v, prefix_key(v, i), i - 1);
        lemma_lzss_codes_wf(v, i + match_run(v, j, i, 0) + 2);
    } else {
        lemma_lzss_codes_wf(v, i + 1);
    }
}

/// The two bytes at `at` as one key.
pub fn prefix(buf: &[u8], at: usize) -> (r: usize)
    requires
        at + 1 < buf.len(),
    ensures
        r as int == prefix_key(buf@, at as int),
        r < 0x10000,
{
    (buf[at] as usize) * 256 + (buf[at + 1] as usize)
}

/// The number of bytes that agree after the two-byte prefixes at `j` and `i`.
pub fn longest_match(buf: &[u8], j: usize, i: usize) -> (r: usize)
    requires
        j < i,
        i + 2 <= buf.len(),
    ensures
        r as int == match_run(buf@, j as int, i as int, 0),
        r <= MAX_LENGTH,
        i + 2 + r <= buf.len(),
{
    let n: usize = buf.len();
    let mut k: usize = 0;
    while k < MAX_LENGTH && i + 2 + k < n && buf[j + 2 + k] == buf[i + 2 + k]
        invariant
            j < i,
            i + 2 <= n,
            n == buf.len(),
            k <= MAX_LENGTH,
            i + 2 + k <= n,
            k + match_run(buf@, j as int, i as int, k as int) == match_run(buf@, j as int, i as int, 0),
        decreases MAX_LENGTH - k,
    {
        k += 1;
    }
    k
}

/// A table that is right up to `at` is right up to `at + 1` once `at` is
/// recorded under its prefix.
pub proof fn lemma_table_step(table: Seq<i32>, v: Seq<u8>, at: int)
    requires
        table_ok(table, v, at),
        0 <= at,
        0 <= prefix_key(v, at) < 0x10000,
    ensures
        table_ok(table.update(prefix_key(v, at), stored(at) as i32), v, at + 1),
{
    let after = table.update(prefix_key(v, at), stored(at) as i32);
    assert forall|k: int| 0 <= k < 0x10000 implies #[trigger] after[k] as int == stored(
        last_with_key(v, k, at),
    ) by {
        if k != prefix_key(v, at) {
            assert(table[k] as int == stored(last_with_key(v, k, at - 1)));
        }
    }
}

/// The matcher's table: one slot per two-byte prefix, which holds the last
/// position recorded under it, or -1.
pub struct PrefixTable<'a>(&'a mut [i32; 0x10000]);

impl<'a> PrefixTable<'a> {
    /// The slots.
    pub closed spec fn view(&self) -> Seq<i32> {
        self.0@
    }

    /// A table in the given memory, with every prefix marked as never seen.
    pub fn new(array: &'a mut [i32; 0x10000]) -> (r: Self)
        ensures
            r@.len() == 0x10000,
            forall|key: int| 0 <= key < 0x10000 ==> r@[key] == -1,
    {
        let mut k: usize = 0;
        while k < 0x10000
            invariant
                k <= 0x10000,
                forall|key: int| 0 <= key < k ==> array@[key] == -1,
            decreases 0x10000 - k,
        {
            array[k] = -1;
            k += 1;
        }
        PrefixTable(array)
    }

    /// Records `at` under its prefix and returns the position that the slot
    /// held before, if any.
    pub fn insert(&mut self, buf: &[u8], at: usize) -> (r: Option<usize>)
        requires
            at + 1 < buf.len(),
        ensures
            final(self)@ == old(self)@.update(prefix_key(buf@, at as int), stored(at as int) as i32),
            match r {
                Some(j) => j as int == old(self)@[prefix_key(buf@, at as int)],
                None => old(self)@[prefix_key(buf@, at as int)] < 0,
            },
    {
        let key: usize = prefix(buf, at);
        let before: i32 = self.0[key];
        self.overwrite(buf, at);
        if before >= 0 {
            Some(before as usize)
        } else {
            None
        }
    }

    /// Records `at` under its prefix.
    pub fn overwrite(&mut self, buf: &[u8], at: usize)
        requires
            at + 1 < buf.len(),
        ensures
            final(self)@ == old(self)@.update(prefix_key(buf@, at as int), stored(at as int) as i32),
    {
        let key: usize = prefix(buf, at);
        let value: i32 = if at <= 0x7fff_ffff {
            at as i32
        } else {
            -1
        };
        self.0[key] = value;
    }
}

/// Appends `l` bytes to `buf`, each a copy of the byte `d` places before it.
pub fn extend(buf: &mut Vec<u8>, d: usize, l: usize) -> (r: Result<(), Error>)
    requires
        d >= 1,
    ensures
        d > old(buf)@.len() ==> r == Err::<(), Error>(Error::BackReferenceOutOfRange) && final(buf)@
            == old(buf)@,
        d <= old(buf)@.len() ==> r is Ok && final(buf)@ == expand(old(buf)@, d as int, l as nat),
{
    if buf.len() < d {
        return Err(Error::BackReferenceOutOfRange);
    }
    let mut k: usize = 0;
    while k < l
        invariant
            1 <= d <= buf@.len(),
            k <= l,
            expand(buf@, d as int, (l - k) as nat) == expand(old(buf)@, d as int, l as nat),
        decreases l - k,
    {
        let byte: u8 = buf[buf.len() - d];
        buf.push(byte);
        k += 1;
    }
    Ok(())
}

/// Turns bytes into literals and back-references. The table's old contents
/// play no part: it is cleared first.
#[verifier::rlimit(40)]
pub fn lzss_encode(v_in: &[u8], buf: &mut [i32; 0x10000]) -> (v_out: Vec<Code>)
    ensures
        v_out@ == lzss_encode_spec(v_in@),
{
    let n: usize = v_in.len();
    let end: usize = if n > 3 {
        n - 3
    } else {
        0
    };
    let mut prefix_table = PrefixTable::new(buf);
    let mut v_out: Vec<Code> = Vec::new();
    let mut i: usize = 0;
    proof {
        assert(v_out@ + lzss_from(v_in@, 0) == lzss_from(v_in@, 0));
    }
    while i < end
        invariant
            n == v_in.len(),
            end == if n > 3 { n - 3 } else { 0 },
            i <= n,
            i < end ==> table_ok(prefix_table@, v_in@, i as int),
            v_out@ + lzss_from(v_in@, i as int) == lzss_encode_spec(v_in@),
        decreases n - i,
    {
        let ghost here = lzss_from(v_in@, i as int);
        proof {
            lemma_last_with_key(v_in@, prefix_key(v_in@, i as int), i as int - 1);
            lemma_table_step(prefix_table@, v_in@, i as int);
            assert(prefix_table@[prefix_key(v_in@, i as int)] as int == stored(
                candidate(v_in@, i as int),
            ));
        }
        let matched = prefix_table.insert(v_in, i);
        let mut taken: bool = false;
        if let Some(j) = matched {
            let distance: usize = i - j;
            if distance <= MAX_WINDOW_LENGTH {
                let len: usize = longest_match(v_in, j, i);
                let length: usize = len + 2;
                if len > 2 {
                    let mut k: usize = i + 1;
                    while k < i + length && k + 1 < n
                        invariant
                            n == v_in.len(),
                            i < k <= i + length <= n,
                            k + 1 < n ==> table_ok(prefix_table@, v_in@, k as int),
                            k + 1 >= n ==> k + 3 >= n,
                        decreases i + length - k,
                    {
                        proof {
                            lemma_table_step(prefix_table@, v_in@, k as int);
                        }
                        prefix_table.overwrite(v_in, k);
                        k += 1;
                    }
                    let code = Code::Pointer { distance: distance as u16, length: (length - 3) as u8 };
                    proof {
                        assert(takes_match(v_in@, i as int));
                        assert(here == seq![code] + lzss_from(v_in@, i + length));
                        assert(v_out@.push(code) + lzss_from(v_in@, i + length) == v_out@ + here);
                    }
                    v_out.push(code);
                    i += length;
                    taken = true;
                }
            }
        }
        if !taken {
            let code = Code::Literal(v_in[i]);
            proof {
                assert(!takes_match(v_in@, i as int));
                assert(here == seq![code] + lzss_from(v_in@, i + 1));
                assert(v_out@.push(code) + lzss_from(v_in@, i + 1) == v_out@ + here);
            }
            v_out.push(code);
            i += 1;
        }
    }
    while i < n
        invariant
            n == v_in.len(),
            end == if n > 3 { n - 3 } else { 0 },
            end <= i <= n,
            v_out@ + lzss_from(v_in@, i as int) == lzss_encode_spec(v_in@),
        decreases n - i,
    {
        let code = Code::Literal(v_in[i]);
        proof {
            assert(lzss_from(v_in@, i as int) == seq![code] + lzss_from(v_in@, i + 1));
            assert(v_out@.push(code) + lzss_from(v_in@, i + 1) == v_out@ + lzss_from(v_in@, i as int));
        }
        v_out.push(code);
        i += 1;
    }
    proof {
        assert(lzss_from(v_in@, n as int) == Seq::<Code>::empty());
        assert(v_out@ + Seq::<Code>::empty() == v_out@);
    }
    v_out
}

/// Expands literals and back-references into bytes.
pub fn lzss_decode(v_in: &[Code]) -> (r: Result<Vec<u8>, Error>)
    requires
        forall|k: int| 0 <= k < v_in@.len() && v_in@[k] is Pointer ==> v_in@[k]->distance >= 1,
    ensures
        match r {
            Ok(v) => lzss_decode_spec(v_in@) == Ok::<Seq<u8>, Error>(v@),
            Err(e) => lzss_decode_spec(v_in@) == Err::<Seq<u8>, Error>(e),
        },
{
    let mut v_out: Vec<u8> = Vec::new();
    let mut k: usize = 0;
    proof {
        assert(v_in@.subrange(0, v_in@.len() as int) == v_in@);
    }
    while k < v_in.len()
        invariant
            k <= v_in.len(),
            forall|m: int| 0 <= m < v_in@.len() && v_in@[m] is Pointer ==> v_in@[m]->distance >= 1,
            expand_codes(v_in@.subrange(k as int, v_in@.len() as int), v_out@) == lzss_decode_spec(
                v_in@,
            ),
        decreases v_in.len() - k,
    {
        let ghost rest = v_in@.subrange(k as int, v_in@.len() as int);
        proof {
            assert(rest[0] == v_in@[k as int]);
            assert(rest.drop_first() == v_in@.subrange(k + 1, v_in@.len() as int));
        }
        match v_in[k] {
            Code::EndOfBlock => {
                return Err(Error::UnexpectedEndOfBlock);
            },
            Code::Literal(a) => {
                v_out.push(a);
            },
            Code::Pointer { distance, length } => {
                match extend(&mut v_out, distance as usize, length as usize + 3) {
                    Err(e) => {
                        return Err(e);
                    },
                    Ok(()) => {},
                }
            },
        }
        k += 1;
    }
    proof {
        assert(v_in@.subrange(k as int, v_in@.len() as int) == Seq::<Code>::empty());
    }
    Ok(v_out)
}

} // verus!
