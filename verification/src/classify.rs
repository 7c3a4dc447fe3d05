//! Bootstrap classifier.
//!
//! Each query is k-merized; then, for a configured number of bootstrap
//! iterations, a fixed number of hashes is sampled with replacement from the
//! query's hash set. Every sampled hash that occurs in the inverted index
//! votes for all references on its posting list; the iteration reports the
//! reference with the most votes, ties broken towards the lowest ordinal.

use vstd::prelude::*;
use vstd::string::StringExecFns;
use rand::RngExt;
use crate::index::{Record, ReverseIndex};
use crate::utils::Config;

verus! {

/// The decimal digit character for 0 <= d <= 9.
pub open spec fn digit_char(d: int) -> char {
    if d == 0 {
        '0'
    } else if d == 1 {
        '1'
    } else if d == 2 {
        '2'
    } else if d == 3 {
        '3'
    } else if d == 4 {
        '4'
    } else if d == 5 {
        '5'
    } else if d == 6 {
        '6'
    } else if d == 7 {
        '7'
    } else if d == 8 {
        '8'
    } else {
        '9'
    }
}

/// Decimal representation of `n`, most significant digit first, without
/// leading zeros (except for `n == 0` itself).
pub open spec fn dec_digits(n: nat) -> Seq<char>
    decreases n,
{
    if n < 10 {
        seq![digit_char(n as int)]
    } else {
        dec_digits(n / 10) + seq![digit_char((n % 10) as int)]
    }
}

/// One decimal digit as a string slice.
fn digit_str(d: u64) -> (r: &'static str)
    requires
        d < 10,
    ensures
        r@ == seq![digit_char(d as int)],
{
    let r: &'static str = if d == 0 {
        "0"
    } else if d == 1 {
        "1"
    } else if d == 2 {
        "2"
    } else if d == 3 {
        "3"
    } else if d == 4 {
        "4"
    } else if d == 5 {
        "5"
    } else if d == 6 {
        "6"
    } else if d == 7 {
        "7"
    } else if d == 8 {
        "8"
    } else {
        "9"
    };
    proof {
        reveal_strlit("0");
        reveal_strlit("1");
        reveal_strlit("2");
        reveal_strlit("3");
        reveal_strlit("4");
        reveal_strlit("5");
        reveal_strlit("6");
        reveal_strlit("7");
        reveal_strlit("8");
        reveal_strlit("9");
        assert(r@ =~= seq![digit_char(d as int)]);
    }
    r
}

/// Render a number in decimal.
pub fn u64_to_string(n: u64) -> (r: String)
    ensures
        r@ == dec_digits(n as nat),
    decreases n,
{
    if n < 10 {
        let mut s = String::new();
        s.append(digit_str(n));
        proof {
            assert(s@ =~= dec_digits(n as nat));
        }
        s
    } else {
        let mut s = u64_to_string(n / 10);
        s.append(digit_str(n % 10));
        proof {
            assert(s@ =~= dec_digits(n as nat));
        }
        s
    }
}

/// Number of votes that reference ordinal `r` receives from the sampled
/// hash positions `samples` (indices into the query hash vector `qv`).
pub open spec fn vote_count(ri: ReverseIndex, qv: Seq<u64>, samples: Seq<usize>, r: int) -> nat
    decreases samples.len(),
{
    if samples.len() == 0 {
        0
    } else {
        vote_count(ri, qv, samples.drop_last(), r) + (if ri.posting_bit(
            qv[samples.last() as int],
            r,
        ) {
            1nat
        } else {
            0nat
        })
    }
}

/// Index of the first maximum of a sequence of counters (0 for an empty
/// sequence).
pub open spec fn spec_argmax(s: Seq<usize>) -> int
    decreases s.len(),
{
    if s.len() <= 1 {
        0
    } else {
        let p = spec_argmax(s.drop_last());
        if s.last() > s[p] {
            s.len() - 1
        } else {
            p
        }
    }
}

/// The first maximum is a maximum, and strictly exceeds everything before it.
pub proof fn lemma_spec_argmax_is_first_max(s: Seq<usize>)
    requires
        s.len() > 0,
    ensures
        0 <= spec_argmax(s) < s.len(),
        forall|j: int| 0 <= j < s.len() ==> #[trigger] s[j] <= s[spec_argmax(s)],
        forall|j: int| 0 <= j < spec_argmax(s) ==> #[trigger] s[j] < s[spec_argmax(s)],
    decreases s.len(),
{
    if s.len() > 1 {
        lemma_spec_argmax_is_first_max(s.drop_last());
        assert(forall|j: int| 0 <= j < s.len() - 1 ==> s[j] == s.drop_last()[j]);
    }
}

/// Accumulate per-reference votes for the sampled hash positions.
///
/// Entry `r` of the result counts the samples whose hash occurs in the
/// index with bit `r` set on its posting list.
pub fn count_votes(
    reverse_index: &ReverseIndex,
    query_hashes: &Vec<u64>,
    samples: &Vec<usize>,
) -> (counts: Vec<usize>)
    requires
        reverse_index.wf(),
        forall|j: int| 0 <= j < samples@.len() ==> samples@[j] < query_hashes@.len(),
    ensures
        counts@.len() == reverse_index.num_records,
        forall|r: int|
            0 <= r < counts@.len() ==> counts@[r] == vote_count(
                *reverse_index,
                query_hashes@,
                samples@,
                r,
            ),
{
    let n = reverse_index.num_records;
    let mut counts: Vec<usize> = Vec::new();
    let mut z: usize = 0;
    while z < n
        invariant
            z <= n,
            counts@.len() == z,
            forall|r: int| 0 <= r < z ==> counts@[r] == 0,
        decreases n - z,
    {
        counts.push(0);
        z = z + 1;
    }
    proof {
        assert(samples@.subrange(0, 0) =~= Seq::<usize>::empty());
    }
    let slen = samples.len();
    let mut s: usize = 0;
    while s < slen
        invariant
            reverse_index.wf(),
            reverse_index.num_records == n,
            forall|j: int| 0 <= j < samples@.len() ==> samples@[j] < query_hashes@.len(),
            s <= samples@.len(),
            slen == samples@.len(),
            counts@.len() == n,
            forall|r: int|
                0 <= r < n ==> counts@[r] == vote_count(
                    *reverse_index,
                    query_hashes@,
                    samples@.subrange(0, s as int),
                    r,
                ),
            forall|r: int| 0 <= r < n ==> counts@[r] <= s,
        decreases slen - s,
    {
        let ghost pre = counts@;
        let ghost sampled_prefix = samples@.subrange(0, s as int);
        let h = query_hashes[samples[s]];
        match reverse_index.get(h) {
            None => {
                proof {
                    assert(samples@.subrange(0, s + 1 as int).drop_last() =~= sampled_prefix);
                    assert(forall|r: int|
                        0 <= r < n ==> vote_count(
                            *reverse_index,
                            query_hashes@,
                            samples@.subrange(0, s + 1 as int),
                            r,
                        ) == vote_count(*reverse_index, query_hashes@, sampled_prefix, r));
                }
            },
            Some(bs) => {
                let mut it = bs.ones_by_iterator();
                loop
                    invariant
                        reverse_index.wf(),
                        reverse_index.num_records == n,
                        counts@.len() == n,
                        it.wf(),
                        it.spec_cap() == bs.spec_capacity(),
                        bs.wf(),
                        *bs == reverse_index.posting(query_hashes@[samples@[s as int] as int]),
                        reverse_index.contains_hash(
                            query_hashes@[samples@[s as int] as int],
                        ),
                        bs.spec_capacity() == n,
                        forall|r: int| #[trigger] it.remaining().contains(r) ==> bs.bit_set(r),
                        forall|r: int|
                            #![trigger counts@[r]]
                            0 <= r < n ==> counts@[r] == pre[r] + (if bs.bit_set(r)
                                && !it.remaining().contains(r) {
                                1int
                            } else {
                                0int
                            }),
                        forall|r: int| 0 <= r < n ==> pre[r] <= s,
                        s < samples@.len(),
                        slen == samples@.len(),
                    ensures
                        forall|r: int|
                            0 <= r < n ==> counts@[r] == pre[r] + (if bs.bit_set(r) {
                                1int
                            } else {
                                0int
                            }),
                    decreases it.remaining().len(),
                {
                    proof {
                        crate::kmer_bitset::lemma_remaining_finite(&it);
                    }
                    match it.next() {
                        None => {
                            break ;
                        },
                        Some(idx) => {
                            proof {
                                assert(idx < n);
                                assert(counts@[idx as int] == pre[idx as int]);
                                assert(pre[idx as int] <= s);
                                assert(s < slen);
                            }
                            let c = counts[idx];
                            counts.set(idx, c + 1);
                        },
                    }
                }
            },
        }
        proof {
            assert(samples@.subrange(0, s + 1 as int).drop_last() =~= sampled_prefix);
            assert(samples@.subrange(0, s + 1 as int).last() == samples@[s as int]);
        }
        s = s + 1;
    }
    proof {
        assert(samples@.subrange(0, samples@.len() as int) =~= samples@);
    }
    counts
}

/// Walk the counters in ordinal order and report the first maximum with its
/// count; `None` only when there are no counters at all.
pub fn argmax(counts: &Vec<usize>) -> (r: Option<(usize, usize)>)
    ensures
        match r {
            Some(wc) => counts@.len() > 0 && wc.0 as int == spec_argmax(counts@) && wc.1
                == counts@[wc.0 as int],
            None => counts@.len() == 0,
        },
{
    if counts.len() == 0 {
        return None;
    }
    let mut best: usize = 0;
    let mut j: usize = 1;
    while j < counts.len()
        invariant
            counts@.len() > 0,
            1 <= j <= counts@.len(),
            best < j,
            best as int == spec_argmax(counts@.subrange(0, j as int)),
        decreases counts@.len() - j,
    {
        proof {
            assert(counts@.subrange(0, j + 1 as int).drop_last() =~= counts@.subrange(
                0,
                j as int,
            ));
        }
        if counts[j] > counts[best] {
            best = j;
        }
        j = j + 1;
    }
    proof {
        assert(counts@.subrange(0, counts@.len() as int) =~= counts@);
    }
    Some((best, counts[best]))
}

/// One output line: query id, winning reference id, vote count and 1-based
/// iteration number, tab-separated.
pub open spec fn render_line(qid: Seq<char>, rid: Seq<char>, votes: nat, iter: nat) -> Seq<char> {
    qid + seq!['\t'] + rid + seq!['\t'] + dec_digits(votes) + seq!['\t'] + dec_digits(iter)
}

/// Join lines with single newlines, without a trailing newline.
pub open spec fn join_lines(lines: Seq<Seq<char>>) -> Seq<char>
    decreases lines.len(),
{
    if lines.len() == 0 {
        Seq::empty()
    } else if lines.len() == 1 {
        lines[0]
    } else {
        join_lines(lines.drop_last()) + seq!['\n'] + lines.last()
    }
}

/// The per-iteration vote counters of one bootstrap iteration.
pub open spec fn spec_counts(ri: ReverseIndex, qv: Seq<u64>, sample: Seq<usize>, n: nat) -> Seq<
    usize,
> {
    Seq::new(n, |r: int| vote_count(ri, qv, sample, r) as usize)
}

/// The lines produced by the given bootstrap iterations: iteration `b`
/// (1-based) contributes a line exactly when its winning reference got at
/// least one vote.
pub open spec fn spec_iteration_lines(
    qid: Seq<char>,
    ri: ReverseIndex,
    ids: Seq<String>,
    qv: Seq<u64>,
    samples: Seq<Seq<usize>>,
) -> Seq<Seq<char>>
    decreases samples.len(),
{
    if samples.len() == 0 {
        Seq::empty()
    } else {
        let prev = spec_iteration_lines(qid, ri, ids, qv, samples.drop_last());
        let counts = spec_counts(ri, qv, samples.last(), ids.len());
        let w = spec_argmax(counts);
        if ids.len() > 0 && counts[w] > 0 {
            prev.push(
                render_line(qid, ids[w]@, counts[w] as nat, samples.len() as nat),
            )
        } else {
            prev
        }
    }
}

/// The whole output block for one query under the given samples.
pub open spec fn spec_block(
    qid: Seq<char>,
    ri: ReverseIndex,
    ids: Seq<String>,
    qv: Seq<u64>,
    samples: Seq<Seq<usize>>,
) -> Seq<char> {
    join_lines(spec_iteration_lines(qid, ri, ids, qv, samples))
}

/// The samples are index vectors into a query hash vector of length `qlen`:
/// each iteration holds `k` positions below `qlen`, or none at all when the
/// query has no hashes.
pub open spec fn samples_wf(samples: Seq<Seq<usize>>, b: nat, k: nat, qlen: nat) -> bool {
    &&& samples.len() == b
    &&& forall|t: int|
        0 <= t < samples.len() ==> (#[trigger] samples[t]).len() == (if qlen > 0 {
            k as int
        } else {
            0
        })
    &&& forall|t: int, j: int|
        0 <= t < samples.len() && 0 <= j < samples[t].len() ==> (#[trigger] samples[t][j]) < qlen
}

/// Relies on `rand::RngExt::random_range` over `0..n`: a uniformly random
/// value below `n` from the thread-local generator (the range is non-empty,
/// so the call cannot panic).
#[verifier::external_body]
fn random_below(n: usize) -> (r: usize)
    requires
        n > 0,
    ensures
        r < n,
{
    rand::rng().random_range(0..n)
}

/// Classify one query given the already-drawn bootstrap samples.
///
/// The output block is a pure function of the query name, the index, the
/// reference ids, the query hash vector and the samples: running it twice
/// on equal inputs gives byte-identical blocks.
pub fn classify_sampled(
    query_hashes: &Vec<u64>,
    query_name: &str,
    reverse_index: &ReverseIndex,
    valid_records: &Vec<String>,
    samples: &Vec<Vec<usize>>,
) -> (r: String)
    requires
        reverse_index.wf(),
        reverse_index.num_records == valid_records@.len(),
        forall|t: int, j: int|
            0 <= t < samples@.len() && 0 <= j < samples@[t]@.len() ==> (#[trigger] samples@[t]@[j])
                < query_hashes@.len(),
    ensures
        r@ == spec_block(
            query_name@,
            *reverse_index,
            valid_records@,
            query_hashes@,
            samples@.map_values(|v: Vec<usize>| v@),
        ),
{
    let ghost qid = query_name@;
    let ghost ri = *reverse_index;
    let ghost ids = valid_records@;
    let ghost qv = query_hashes@;
    let ghost all = samples@.map_values(|v: Vec<usize>| v@);
    let n = valid_records.len();

    let mut out = String::new();
    let mut nlines: usize = 0;
    let mut b: usize = 0;
    proof {
        assert(all.subrange(0, 0) =~= Seq::<Seq<usize>>::empty());
    }
    while b < samples.len()
        invariant
            reverse_index.wf(),
            reverse_index.num_records == n,
            n == valid_records@.len(),
            b <= samples@.len(),
            forall|t: int, j: int|
                0 <= t < samples@.len() && 0 <= j < samples@[t]@.len() ==> (#[trigger] samples@[t]@[j]) < query_hashes@.len(),
            qid == query_name@,
            ri == *reverse_index,
            ids == valid_records@,
            qv == query_hashes@,
            all == samples@.map_values(|v: Vec<usize>| v@),
            all.len() == samples@.len(),
            nlines <= b,
            nlines == spec_iteration_lines(qid, ri, ids, qv, all.subrange(0, b as int)).len(),
            out@ == join_lines(spec_iteration_lines(qid, ri, ids, qv, all.subrange(0, b as int))),
        decreases samples@.len() - b,
    {
        let ghost lines_prev = spec_iteration_lines(qid, ri, ids, qv, all.subrange(0, b as int));
        let sample = &samples[b];
        let counts = count_votes(reverse_index, query_hashes, sample);
        let ghost scounts = spec_counts(ri, qv, sample@, ids.len());
        proof {
            assert(counts@ =~= scounts);
            assert(all.subrange(0, b + 1 as int).drop_last() =~= all.subrange(0, b as int));
            assert(all.subrange(0, b + 1 as int).last() == sample@);
        }
        match argmax(&counts) {
            Some((w, c)) => {
                proof {
                    lemma_spec_argmax_is_first_max(counts@);
                }
                if c > 0 {
                    let mut line = String::new();
                    line.append(query_name);
                    line.append("\t");
                    line.append(valid_records[w].as_str());
                    line.append("\t");
                    let cs = u64_to_string(c as u64);
                    line.append(cs.as_str());
                    line.append("\t");
                    let is = u64_to_string((b as u64) + 1);
                    line.append(is.as_str());
                    proof {
                        reveal_strlit("\t");
                        assert(line@ =~= render_line(qid, ids[w as int]@, c as nat, (b + 1) as nat));
                    }
                    if nlines == 0 {
                        out = line;
                    } else {
                        out.append("\n");
                        out.append(line.as_str());
                        proof {
                            reveal_strlit("\n");
                        }
                    }
                    nlines = nlines + 1;
                    proof {
                        let lines_new = spec_iteration_lines(
                            qid,
                            ri,
                            ids,
                            qv,
                            all.subrange(0, b + 1 as int),
                        );
                        assert(lines_new =~= lines_prev.push(
                            render_line(qid, ids[w as int]@, c as nat, (b + 1) as nat),
                        ));
                        assert(lines_new.drop_last() =~= lines_prev);
                        assert(out@ =~= join_lines(lines_new));
                    }
                } else {
                    proof {
                        assert(spec_iteration_lines(qid, ri, ids, qv, all.subrange(0, b + 1 as int))
                            =~= lines_prev);
                    }
                }
            },
            None => {
                proof {
                    assert(spec_iteration_lines(qid, ri, ids, qv, all.subrange(0, b + 1 as int))
                        =~= lines_prev);
                }
            },
        }
        b = b + 1;
    }
    proof {
        assert(all.subrange(0, all.len() as int) =~= all);
    }
    out
}

/// Run the bootstrap iterations for one query.
///
/// Draws `num_bootstraps * num_query_hashes` random positions (sampling
/// with replacement from the query hash vector) and classifies under them:
/// whatever the random draw, the result is the block determined by some
/// well-formed sample matrix.
pub fn bootstrap_classify_query(
    query_hashes: &Vec<u64>,
    query_name: &str,
    reverse_index: &ReverseIndex,
    valid_records: &Vec<String>,
    config: &Config,
) -> (r: String)
    requires
        reverse_index.wf(),
        config.wf(),
        reverse_index.num_records == valid_records@.len(),
    ensures
        exists|samples: Seq<Seq<usize>>|
            #![trigger spec_block(query_name@, *reverse_index, valid_records@, query_hashes@, samples)]
            samples_wf(
                samples,
                config.num_bootstraps as nat,
                config.num_query_hashes as nat,
                query_hashes@.len(),
            ) && r@ == spec_block(
                query_name@,
                *reverse_index,
                valid_records@,
                query_hashes@,
                samples,
            ),
{
    let nb = config.num_bootstraps;
    let nq = config.num_query_hashes;
    let qlen = query_hashes.len();
    let mut samples: Vec<Vec<usize>> = Vec::new();
    let mut b: usize = 0;
    while b < nb
        invariant
            b <= nb,
            samples@.len() == b,
            qlen == query_hashes@.len(),
            forall|t: int|
                0 <= t < b ==> (#[trigger] samples@[t])@.len() == (if qlen > 0 {
                    nq as int
                } else {
                    0
                }),
            forall|t: int, j: int|
                0 <= t < b && 0 <= j < samples@[t]@.len() ==> (#[trigger] samples@[t]@[j]) < qlen,
        decreases nb - b,
    {
        let mut v: Vec<usize> = Vec::new();
        if qlen > 0 {
            let mut j: usize = 0;
            while j < nq
                invariant
                    j <= nq,
                    v@.len() == j,
                    qlen > 0,
                    qlen == query_hashes@.len(),
                    forall|u: int| 0 <= u < j ==> (#[trigger] v@[u]) < qlen,
                decreases nq - j,
            {
                v.push(random_below(qlen));
                j = j + 1;
            }
        }
        samples.push(v);
        b = b + 1;
    }
    let r = classify_sampled(query_hashes, query_name, reverse_index, valid_records, &samples);
    proof {
        let w = samples@.map_values(|v: Vec<usize>| v@);
        assert(samples_wf(
            w,
            config.num_bootstraps as nat,
            config.num_query_hashes as nat,
            query_hashes@.len(),
        ));
    }
    r
}

/// K-merize and classify one query record, returning its output block.
///
/// The block is determined by the query's canonical k-mer hash set (in some
/// enumeration order) and a well-formed random sample matrix.
pub fn classify_record(
    record: &Record,
    reverse_index: &ReverseIndex,
    valid_records: &Vec<String>,
    config: &Config,
) -> (r: String)
    requires
        reverse_index.wf(),
        config.wf(),
        reverse_index.num_records == valid_records@.len(),
    ensures
        exists|qv: Seq<u64>, samples: Seq<Seq<usize>>|
            #![trigger spec_block(record.id@, *reverse_index, valid_records@, qv, samples)]
            qv.to_set() == crate::kmers::kmer_hash_set(
                record.seq@,
                config.kmer_size as int,
                config.ds_factor,
            ) && samples_wf(
                samples,
                config.num_bootstraps as nat,
                config.num_query_hashes as nat,
                qv.len(),
            ) && r@ == spec_block(record.id@, *reverse_index, valid_records@, qv, samples),
{
    let hs = crate::kmers::kmerize(config, record.seq.as_slice());
    let qv = crate::utils::hash_set_to_vec(&hs);
    bootstrap_classify_query(&qv, record.id.as_str(), reverse_index, valid_records, config)
}

} // verus!
