//! The complexity estimator's integer core: the byte histogram behind the
//! Shannon entropy, and the dictionary compressor whose emitted-code count
//! serves as the Kolmogorov-complexity proxy.

use vstd::prelude::*;

verus! {

/// How often `b` occurs in `s`.
pub open spec fn count_byte(s: Seq<u8>, b: u8) -> nat
    decreases s.len(),
{
    if s.len() == 0 {
        0
    } else {
        count_byte(s.drop_last(), b) + if s.last() == b {
            1nat
        } else {
            0nat
        }
    }
}

proof fn lemma_count_byte_le_len(s: Seq<u8>, b: u8)
    ensures
        count_byte(s, b) <= s.len(),
    decreases s.len(),
{
    if s.len() > 0 {
        lemma_count_byte_le_len(s.drop_last(), b);
    }
}

/// The 256-bucket histogram of `data`: bucket `b` holds the number of
/// occurrences of the byte value `b`.
pub fn byte_counts(data: &Vec<u8>) -> (counts: Vec<usize>)
    ensures
        counts@.len() == 256,
        forall|b: int| 0 <= b < 256 ==> counts@[b] == count_byte(data@, b as u8),
{
    let mut counts: Vec<usize> = Vec::new();
    let mut k: usize = 0;
    while k < 256
        invariant
            counts@.len() == k <= 256,
            forall|b: int| 0 <= b < k ==> counts@[b] == 0,
        decreases 256 - k,
    {
        counts.push(0);
        k = k + 1;
    }
    proof {
        assert(data@.take(0) =~= Seq::<u8>::empty());
    }
    let n = data.len();
    let mut i: usize = 0;
    while i < n
        invariant
            n == data@.len(),
            i <= n,
            counts@.len() == 256,
            forall|b: int| 0 <= b < 256 ==> counts@[b] == count_byte(data@.take(i as int), b as u8),
        decreases n - i,
    {
        let x = data[i];
        let c = counts[x as usize];
        proof {
            lemma_count_byte_le_len(data@.take(i as int), x);
        }
        counts.set(x as usize, c + 1);
        proof {
            assert(data@.take(i as int + 1).drop_last() =~= data@.take(i as int));
            assert(data@.take(i as int + 1).last() == data@[i as int]);
        }
        i = i + 1;
    }
    proof {
        assert(data@.take(n as int) =~= data@);
    }
    counts
}

/// The histogram of a constant sequence concentrates in one bucket: the
/// repeated byte counts the whole length and every other bucket is empty, so
/// the entropy sum over the buckets vanishes.
pub proof fn lemma_constant_histogram(s: Seq<u8>, b: u8)
    requires
        forall|i: int| 0 <= i < s.len() ==> s[i] == b,
    ensures
        count_byte(s, b) == s.len(),
        forall|c: u8| c != b ==> count_byte(s, c) == 0,
    decreases s.len(),
{
    if s.len() > 0 {
        assert(s.last() == b);
        assert forall|i: int| 0 <= i < s.drop_last().len() implies s.drop_last()[i] == b by {
            assert(s[i] == b);
        }
        lemma_constant_histogram(s.drop_last(), b);
        assert forall|c: u8| c != b implies count_byte(s, c) == 0 by {
            assert(count_byte(s, c) == count_byte(s.drop_last(), c));
        }
    }
}

/// The dictionary compressor's state during a scan: the sequences inserted so
/// far (the 256 single-byte seed entries are implicit), the pending sequence,
/// and how many codes have been emitted.
pub struct CompressorState {
    pub dict: Seq<Seq<u8>>,
    pub cur: Seq<u8>,
    pub emitted: nat,
}

/// Whether `s` has a code: every single byte is seeded, and longer sequences
/// must have been inserted.
pub open spec fn in_dict(dict: Seq<Seq<u8>>, s: Seq<u8>) -> bool {
    s.len() == 1 || exists|k: int| 0 <= k < dict.len() && dict[k] == s
}

/// One input byte: extend the pending sequence if the extension has a code,
/// else emit the code of the pending sequence, insert the extension under the
/// next unused code, and start over from the last byte.
pub open spec fn compress_step(st: CompressorState, b: u8) -> CompressorState {
    let ext = st.cur.push(b);
    if in_dict(st.dict, ext) {
        CompressorState { cur: ext, ..st }
    } else {
        CompressorState { dict: st.dict.push(ext), cur: seq![b], emitted: st.emitted + 1 }
    }
}

/// The compressor's state after scanning all of `s`.
pub open spec fn compress_scan(s: Seq<u8>) -> CompressorState
    decreases s.len(),
{
    if s.len() == 0 {
        CompressorState { dict: Seq::empty(), cur: Seq::empty(), emitted: 0 }
    } else {
        compress_step(compress_scan(s.drop_last()), s.last())
    }
}

/// The number of codes the compressor emits for `s`: those emitted during the
/// scan, and one more for the sequence still pending at the end of a nonempty
/// input.
pub open spec fn code_count(s: Seq<u8>) -> nat {
    if s.len() == 0 {
        0
    } else {
        compress_scan(s).emitted + 1
    }
}

proof fn lemma_scan_bounds(s: Seq<u8>)
    ensures
        compress_scan(s).emitted + compress_scan(s).cur.len() <= s.len(),
        s.len() >= 1 ==> compress_scan(s).cur.len() >= 1,
    decreases s.len(),
{
    if s.len() > 0 {
        lemma_scan_bounds(s.drop_last());
    }
}

/// Never worse than the trivial one-code-per-byte encoding: a nonempty input
/// of length `n` takes between 1 and `n` codes.
pub proof fn lemma_code_count_le_len(s: Seq<u8>)
    ensures
        s.len() >= 1 ==> 1 <= code_count(s) <= s.len(),
{
    lemma_scan_bounds(s);
}

/// The internal consistency the dictionary seeding guarantees: the pending
/// sequence always has a code, so emitting it can never miss.
pub proof fn lemma_pending_in_dict(s: Seq<u8>)
    ensures
        s.len() >= 1 ==> in_dict(compress_scan(s).dict, compress_scan(s).cur),
{
}

/// No two positions start the same two-byte pair.
pub open spec fn all_pairs_distinct(s: Seq<u8>) -> bool {
    forall|i: int, j: int|
        #![trigger s[i], s[j]]
        0 <= i < j < s.len() - 1 ==> !(s[i] == s[j] && s[i + 1] == s[j + 1])
}

proof fn lemma_distinct_pairs_scan(s: Seq<u8>)
    requires
        all_pairs_distinct(s),
        s.len() >= 1,
    ensures
        compress_scan(s).cur == seq![s[s.len() - 1]],
        compress_scan(s).emitted == s.len() - 1,
        compress_scan(s).dict == Seq::new((s.len() - 1) as nat, |i: int| seq![s[i], s[i + 1]]),
    decreases s.len(),
{
    let n = s.len() as int;
    if s.len() == 1 {
        assert(compress_scan(s.drop_last()).cur.push(s[0]) =~= seq![s[0]]);
        assert(compress_scan(s).dict =~= Seq::new(0, |i: int| seq![s[i], s[i + 1]]));
    } else {
        let s0 = s.drop_last();
        assert(all_pairs_distinct(s0)) by {
            assert forall|i: int, j: int|
                #![trigger s0[i], s0[j]]
                0 <= i < j < s0.len() - 1 implies !(s0[i] == s0[j] && s0[i + 1] == s0[j + 1]) by {
                assert(s0[i] == s[i] && s0[j] == s[j] && s0[i + 1] == s[i + 1] && s0[j + 1] == s[j
                    + 1]);
            }
        }
        lemma_distinct_pairs_scan(s0);
        let st0 = compress_scan(s0);
        let ext = st0.cur.push(s[n - 1]);
        assert(ext =~= seq![s[n - 2], s[n - 1]]);
        assert(!in_dict(st0.dict, ext)) by {
            assert(ext.len() == 2);
            assert forall|k: int| 0 <= k < st0.dict.len() implies st0.dict[k] != ext by {
                if st0.dict[k] == ext {
                    assert(st0.dict[k] == seq![s[k], s[k + 1]]);
                    assert(seq![s[k], s[k + 1]][0] == seq![s[n - 2], s[n - 1]][0]);
                    assert(seq![s[k], s[k + 1]][1] == seq![s[n - 2], s[n - 1]][1]);
                    assert(s[k] == s[n - 2] && s[k + 1] == s[n - 1]);
                    assert(false);
                }
            }
        }
        assert(compress_scan(s).dict =~= Seq::new((n - 1) as nat, |i: int| seq![s[i], s[i + 1]])) by {
            assert forall|i: int| 0 <= i < n - 2 implies st0.dict[i] == seq![s[i], s[i + 1]] by {
                assert(st0.dict[i] == seq![s0[i], s0[i + 1]]);
                assert(s0[i] == s[i] && s0[i + 1] == s[i + 1]);
            }
        }
        assert(compress_scan(s).cur =~= seq![s[n - 1]]);
    }
}

/// A sequence in which no two-byte pair repeats cannot be compressed: the
/// dictionary never produces a match longer than one byte, and the code count
/// equals the input length.
pub proof fn lemma_distinct_pairs_code_count(s: Seq<u8>)
    requires
        all_pairs_distinct(s),
        s.len() >= 1,
    ensures
        code_count(s) == s.len(),
{
    lemma_distinct_pairs_scan(s);
}

proof fn lemma_constant_scan(s: Seq<u8>, b: u8)
    requires
        s.len() >= 2,
        forall|i: int| 0 <= i < s.len() ==> s[i] == b,
    ensures
        in_dict(compress_scan(s).dict, seq![b, b]),
        forall|i: int|
            0 <= i < compress_scan(s).cur.len() ==> compress_scan(s).cur[i] == b,
        compress_scan(s).cur.len() >= 1,
        s.len() >= 3 ==> (compress_scan(s).cur.len() >= 2 || compress_scan(s).emitted <= s.len()
            - 2),
    decreases s.len(),
{
    let n = s.len() as int;
    if s.len() == 2 {
        let s1 = s.drop_last();
        let s0 = s1.drop_last();
        assert(s0.len() == 0);
        assert(compress_scan(s1).cur =~= seq![b]) by {
            assert(compress_scan(s0).cur.push(s1[0]) =~= seq![b]);
        }
        assert(compress_scan(s1).dict.len() == 0);
        let ext = compress_scan(s1).cur.push(s[1]);
        assert(ext =~= seq![b, b]);
        assert(!in_dict(compress_scan(s1).dict, ext));
        assert(compress_scan(s).dict[0] == seq![b, b]);
        assert(compress_scan(s).cur =~= seq![b]);
    } else {
        let s0 = s.drop_last();
        lemma_constant_scan(s0, b);
        lemma_scan_bounds(s0);
        let st0 = compress_scan(s0);
        let ext = st0.cur.push(s[n - 1]);
        if in_dict(st0.dict, ext) {
            assert(compress_scan(s).cur.len() >= 2);
        } else {
            assert(st0.cur.len() >= 2) by {
                if st0.cur.len() == 1 {
                    assert(ext =~= seq![b, b]);
                    assert(false);
                }
            }
            assert(st0.emitted <= s0.len() - 2);
            assert(compress_scan(s).cur =~= seq![b]);
            assert(in_dict(compress_scan(s).dict, seq![b, b])) by {
                let k = choose|k: int| 0 <= k < st0.dict.len() && st0.dict[k] == seq![b, b];
                assert(compress_scan(s).dict[k] == seq![b, b]);
            }
        }
    }
}

/// A run of one repeated byte compresses: for length at least 3, the
/// dictionary's growing runs make the code count strictly smaller than the
/// input length.
pub proof fn lemma_constant_code_count_lt_len(s: Seq<u8>, b: u8)
    requires
        s.len() >= 3,
        forall|i: int| 0 <= i < s.len() ==> s[i] == b,
    ensures
        code_count(s) < s.len(),
{
    lemma_constant_scan(s, b);
    lemma_scan_bounds(s);
}

/// Compression tells order from disorder: a run of one repeated byte always
/// emits strictly fewer codes than an equally long sequence in which no
/// two-byte pair repeats.
pub proof fn lemma_constant_compresses_below_distinct_pairs(c: Seq<u8>, b: u8, r: Seq<u8>)
    requires
        c.len() == r.len(),
        c.len() >= 3,
        forall|i: int| 0 <= i < c.len() ==> c[i] == b,
        all_pairs_distinct(r),
    ensures
        code_count(c) < code_count(r),
{
    lemma_constant_code_count_lt_len(c, b);
    lemma_distinct_pairs_code_count(r);
}

fn bytes_eq(a: &Vec<u8>, b: &Vec<u8>) -> (r: bool)
    ensures
        r == (a@ == b@),
{
    if a.len() != b.len() {
        return false;
    }
    let n = a.len();
    let mut i: usize = 0;
    while i < n
        invariant
            n == a@.len() == b@.len(),
            i <= n,
            forall|t: int| 0 <= t < i ==> a@[t] == b@[t],
        decreases n - i,
    {
        if a[i] != b[i] {
            return false;
        }
        i = i + 1;
    }
    proof {
        assert(a@ =~= b@);
    }
    true
}

/// The contents of the executable dictionary, as the model sees them.
pub open spec fn dict_views(d: Seq<Vec<u8>>) -> Seq<Seq<u8>> {
    Seq::new(d.len(), |k: int| d[k]@)
}

fn dict_contains(dict: &Vec<Vec<u8>>, s: &Vec<u8>) -> (r: bool)
    ensures
        r == in_dict(dict_views(dict@), s@),
{
    if s.len() == 1 {
        return true;
    }
    let n = dict.len();
    let mut k: usize = 0;
    while k < n
        invariant
            n == dict@.len(),
            k <= n,
            forall|t: int| 0 <= t < k ==> dict_views(dict@)[t] != s@,
        decreases n - k,
    {
        if bytes_eq(&dict[k], s) {
            proof {
                assert(dict_views(dict@)[k as int] == s@);
            }
            return true;
        }
        k = k + 1;
    }
    false
}

fn copy_bytes(a: &Vec<u8>) -> (r: Vec<u8>)
    ensures
        r@ == a@,
{
    let n = a.len();
    let mut r: Vec<u8> = Vec::new();
    let mut i: usize = 0;
    while i < n
        invariant
            n == a@.len(),
            i <= n,
            r@ =~= a@.take(i as int),
        decreases n - i,
    {
        r.push(a[i]);
        proof {
            assert(a@.take(i as int + 1) =~= a@.take(i as int).push(a@[i as int]));
        }
        i = i + 1;
    }
    proof {
        assert(a@.take(n as int) =~= a@);
    }
    r
}

/// How many codes the dictionary compressor emits for `data`.
pub fn compress_code_count(data: &Vec<u8>) -> (n: usize)
    ensures
        n == code_count(data@),
{
    let len = data.len();
    if len == 0 {
        return 0;
    }
    let mut dict: Vec<Vec<u8>> = Vec::new();
    let mut cur: Vec<u8> = Vec::new();
    let mut emitted: usize = 0;
    proof {
        assert(data@.take(0) =~= Seq::<u8>::empty());
    }
    let mut i: usize = 0;
    while i < len
        invariant
            len == data@.len(),
            i <= len,
            dict_views(dict@) == compress_scan(data@.take(i as int)).dict,
            cur@ == compress_scan(data@.take(i as int)).cur,
            emitted == compress_scan(data@.take(i as int)).emitted,
        decreases len - i,
    {
        let b = data[i];
        let mut ext = copy_bytes(&cur);
        ext.push(b);
        proof {
            lemma_scan_bounds(data@.take(i as int));
            assert(data@.take(i as int + 1).drop_last() =~= data@.take(i as int));
            assert(data@.take(i as int + 1).last() == data@[i as int]);
        }
        if dict_contains(&dict, &ext) {
            cur = ext;
        } else {
            emitted = emitted + 1;
            let ghost old_dict = dict_views(dict@);
            dict.push(ext);
            proof {
                assert(dict_views(dict@) =~= old_dict.push(cur@.push(b)));
            }
            let mut nc: Vec<u8> = Vec::new();
            nc.push(b);
            cur = nc;
            proof {
                assert(cur@ =~= seq![b]);
            }
        }
        i = i + 1;
    }
    proof {
        assert(data@.take(len as int) =~= data@);
        lemma_scan_bounds(data@);
    }
    emitted + 1
}

} // verus!
