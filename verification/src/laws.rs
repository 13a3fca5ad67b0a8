//! The laws the pipeline obeys, stated and proved over the phase
//! specifications.

use crate::group::group_pairs;
use crate::group::group_values;
use crate::group::has_key;
use crate::group::lemma_group_pairs;
use crate::group::pairs_have_key;
use crate::group::sorted_keys;
use crate::group::values_of_key;
use crate::hasher::partition_spec;
use crate::kv::content_ok;
use crate::kv::content_pairs;
use crate::kv::encode_pair;
use crate::kv::encode_pairs;
use crate::kv::lemma_round_trip;
use crate::kv::wf_field;
use crate::kv::wf_pair;
use crate::num::numeral_val;
use crate::pipeline::merged_output;
use crate::pipeline::pack_lines;
use crate::pipeline::pairs_for_partition;
use crate::wordcount::one_text;
use crate::wordcount::sum_values;
use crate::wordcount::wc_pairs;
use crate::wordcount::wc_reduce_spec;
use vstd::prelude::*;

verus! {

/// Partition completeness and disjointness: a key emitted anywhere lands in
/// the intermediate group of exactly one partition, the one its hash selects.
pub proof fn lemma_partition_routing(
    ps: Seq<(Seq<char>, Seq<char>)>,
    nreduce: int,
    r: int,
    k: Seq<char>,
)
    requires
        nreduce >= 1,
    ensures
        pairs_have_key(pairs_for_partition(ps, nreduce, r), k) <==> (pairs_have_key(ps, k)
            && partition_spec(k, nreduce as nat) == r),
    decreases ps.len(),
{
    let fp = pairs_for_partition(ps, nreduce, r);
    if ps.len() == 0 {
        assert(!pairs_have_key(fp, k));
        assert(!pairs_have_key(ps, k));
    } else {
        let ps0 = ps.drop_last();
        let p = ps.last();
        lemma_partition_routing(ps0, nreduce, r, k);
        let fp0 = pairs_for_partition(ps0, nreduce, r);
        if pairs_have_key(fp, k) {
            let i = choose|i: int| 0 <= i < fp.len() && (#[trigger] fp[i]).0 == k;
            if partition_spec(p.0, nreduce as nat) == r {
                assert(fp == fp0.push(p));
                if i < fp0.len() {
                    assert(fp0[i] == fp[i]);
                    assert(pairs_have_key(fp0, k));
                } else {
                    assert(fp[i] == p);
                }
            } else {
                assert(fp == fp0);
                assert(pairs_have_key(fp0, k));
            }
            assert(pairs_have_key(ps, k) && partition_spec(k, nreduce as nat) == r) by {
                if pairs_have_key(fp0, k) {
                    let m = choose|m: int| 0 <= m < ps0.len() && (#[trigger] ps0[m]).0 == k;
                    assert(ps[m] == ps0[m]);
                } else {
                    assert(p.0 == k);
                    assert(ps[ps.len() - 1] == p);
                }
            }
        }
        if pairs_have_key(ps, k) && partition_spec(k, nreduce as nat) == r {
            let i = choose|i: int| 0 <= i < ps.len() && (#[trigger] ps[i]).0 == k;
            if i < ps0.len() {
                assert(ps0[i] == ps[i]);
                assert(pairs_have_key(fp0, k));
                let m = choose|m: int| 0 <= m < fp0.len() && (#[trigger] fp0[m]).0 == k;
                if partition_spec(p.0, nreduce as nat) == r {
                    assert(fp == fp0.push(p));
                    assert(fp[m] == fp0[m]);
                } else {
                    assert(fp == fp0);
                }
                assert(pairs_have_key(fp, k));
            } else {
                assert(p.0 == k);
                assert(fp == fp0.push(p));
                assert(fp[fp.len() - 1] == p);
                assert(pairs_have_key(fp, k));
            }
        }
    }
}

/// Routing leaves a key's values untouched: the partition the key hashes to
/// sees exactly the values the key had among all emitted pairs.
pub proof fn lemma_partition_values(
    ps: Seq<(Seq<char>, Seq<char>)>,
    nreduce: int,
    r: int,
    k: Seq<char>,
)
    requires
        nreduce >= 1,
        partition_spec(k, nreduce as nat) == r,
    ensures
        values_of_key(pairs_for_partition(ps, nreduce, r), k) == values_of_key(ps, k),
    decreases ps.len(),
{
    if ps.len() > 0 {
        let ps0 = ps.drop_last();
        let p = ps.last();
        lemma_partition_values(ps0, nreduce, r, k);
        let fp0 = pairs_for_partition(ps0, nreduce, r);
        if partition_spec(p.0, nreduce as nat) == r {
            assert(pairs_for_partition(ps, nreduce, r) == fp0.push(p));
            assert(fp0.push(p).drop_last() =~= fp0);
            assert(fp0.push(p).last() == p);
        } else {
            assert(p.0 != k);
        }
    }
}

/// The records of singleton groups, as a pair sequence.
pub open spec fn singles(gs: Seq<(Seq<char>, Seq<Seq<char>>)>) -> Seq<(Seq<char>, Seq<char>)>
    decreases gs.len(),
{
    if gs.len() == 0 {
        seq![]
    } else {
        seq![(gs[0].0, gs[0].1[0])] + singles(gs.drop_first())
    }
}

/// The merge writes exactly the records of its singleton groups.
pub proof fn lemma_merged_output_encodes(gs: Seq<(Seq<char>, Seq<Seq<char>>)>)
    ensures
        merged_output(gs) == encode_pairs(singles(gs)),
    decreases gs.len(),
{
    if gs.len() == 0 {
        assert(merged_output(gs) =~= encode_pairs(singles(gs)));
    } else {
        lemma_merged_output_encodes(gs.drop_first());
        assert(singles(gs)[0] == (gs[0].0, gs[0].1[0]));
        assert(singles(gs).drop_first() =~= singles(gs.drop_first()));
        assert(encode_pairs(singles(gs)) == encode_pair(singles(gs)[0]) + encode_pairs(
            singles(gs).drop_first(),
        ));
    }
}

/// Whether every group holds a record-able key and exactly one record-able
/// value.
pub open spec fn wf_groups(gs: Seq<(Seq<char>, Seq<Seq<char>>)>) -> bool {
    forall|i: int|
        0 <= i < gs.len() ==> wf_field((#[trigger] gs[i]).0) && gs[i].1.len() == 1 && wf_field(
            gs[i].1[0],
        )
}

/// Final result ordering: the merged text parses back into one record per
/// key, the keys strictly increasing in lexicographic order — sorted, no
/// duplicates.
pub proof fn lemma_final_result_sorted(contents: Seq<Seq<char>>)
    requires
        wf_groups(group_pairs(crate::pipeline::concat_pairs(contents))),
    ensures
        ({
            let gs = group_pairs(crate::pipeline::concat_pairs(contents));
            let out = merged_output(gs);
            &&& content_ok(out)
            &&& content_pairs(out).len() == gs.len()
            &&& forall|i: int|
                0 <= i < gs.len() ==> #[trigger] content_pairs(out)[i] == (gs[i].0, gs[i].1[0])
            &&& forall|i: int, j: int|
                0 <= i < j < gs.len() ==> crate::order::lex_lt(
                    #[trigger] content_pairs(out)[i].0,
                    #[trigger] content_pairs(out)[j].0,
                )
        }),
{
    let ps = crate::pipeline::concat_pairs(contents);
    let gs = group_pairs(ps);
    lemma_group_pairs(ps, seq![]);
    lemma_merged_output_encodes(gs);
    lemma_singles_len(gs);
    assert(forall|i: int| 0 <= i < singles(gs).len() ==> wf_pair(#[trigger] singles(gs)[i]));
    lemma_round_trip(singles(gs));
    assert(sorted_keys(gs));
    assert forall|i: int, j: int| 0 <= i < j < gs.len() implies crate::order::lex_lt(
        #[trigger] content_pairs(merged_output(gs))[i].0,
        #[trigger] content_pairs(merged_output(gs))[j].0,
    ) by {
        assert(content_pairs(merged_output(gs))[i] == singles(gs)[i]);
        assert(content_pairs(merged_output(gs))[j] == singles(gs)[j]);
    }
}

/// Each group yields one record, carrying its key and its one value.
pub proof fn lemma_singles_len(gs: Seq<(Seq<char>, Seq<Seq<char>>)>)
    ensures
        singles(gs).len() == gs.len(),
        forall|i: int| 0 <= i < gs.len() ==> #[trigger] singles(gs)[i] == (gs[i].0, gs[i].1[0]),
    decreases gs.len(),
{
    if gs.len() > 0 {
        lemma_singles_len(gs.drop_first());
        assert forall|i: int| 0 <= i < gs.len() implies #[trigger] singles(gs)[i] == (
        gs[i].0,
        gs[i].1[0],
        ) by {
            if i > 0 {
                assert(singles(gs)[i] == singles(gs.drop_first())[i - 1]);
                assert(gs.drop_first()[i - 1] == gs[i]);
            }
        }
    }
}

/// Every chunk the splitter makes is a run of consecutive whole lines: no
/// line is split across two chunks.
pub proof fn lemma_pack_lines_slices(
    ls: Seq<Seq<char>>,
    t: int,
    m: int,
    nmap: int,
    off: int,
    i: int,
)
    requires
        m < nmap,
        0 <= i < nmap - m,
    ensures
        exists|a: int, b: int|
            0 <= a <= b <= ls.len() && pack_lines(ls, t, m, nmap, off)[i] == #[trigger] ls.subrange(
                a,
                b,
            ).flatten(),
    decreases nmap - m,
{
    crate::pipeline::lemma_pack_lines_len(ls, t, m, nmap, off);
    if m >= nmap - 1 {
        assert(ls.subrange(0, ls.len() as int) =~= ls);
        assert(pack_lines(ls, t, m, nmap, off)[0] == ls.subrange(0, ls.len() as int).flatten());
    } else {
        let n = crate::pipeline::chunk_line_count(ls, t * (m + 1), off);
        crate::pipeline::lemma_chunk_line_count_bound(ls, t * (m + 1), off);
        if i == 0 {
            assert(ls.take(n) =~= ls.subrange(0, n));
            assert(pack_lines(ls, t, m, nmap, off)[0] == ls.subrange(0, n).flatten());
        } else {
            let rest = ls.skip(n);
            lemma_pack_lines_slices(
                rest,
                t,
                m + 1,
                nmap,
                off + ls.take(n).flatten().len(),
                i - 1,
            );
            let (a, b) = choose|a: int, b: int|
                0 <= a <= b <= rest.len() && pack_lines(
                    rest,
                    t,
                    m + 1,
                    nmap,
                    off + ls.take(n).flatten().len(),
                )[i - 1] == #[trigger] rest.subrange(a, b).flatten();
            assert(rest.subrange(a, b) =~= ls.subrange(n + a, n + b));
            assert(pack_lines(ls, t, m, nmap, off)[i] == ls.subrange(n + a, n + b).flatten());
        }
    }
}

/// Every value the word count emits is the text `1`.
pub proof fn lemma_wc_values_ones(toks: Seq<Seq<char>>)
    ensures
        forall|i: int|
            0 <= i < wc_pairs(toks).len() ==> (#[trigger] wc_pairs(toks)[i]).1 == one_text(),
    decreases toks.len(),
{
    if toks.len() > 0 {
        lemma_wc_values_ones(toks.drop_last());
        let rest = wc_pairs(toks.drop_last());
        assert forall|i: int| 0 <= i < wc_pairs(toks).len() implies (#[trigger] wc_pairs(
            toks,
        )[i]).1 == one_text() by {
            if i < rest.len() {
                assert(wc_pairs(toks)[i] == rest[i]);
            }
        }
    }
}

/// Summing a list of `1`s counts the list.
pub proof fn lemma_sum_ones(vs: Seq<Seq<char>>)
    requires
        forall|i: int| 0 <= i < vs.len() ==> #[trigger] vs[i] == one_text(),
        vs.len() <= u64::MAX,
    ensures
        sum_values(vs) == vs.len(),
    decreases vs.len(),
{
    if vs.len() > 0 {
        lemma_sum_ones(vs.drop_last());
        assert(numeral_val(one_text()) == 1) by {
            assert(one_text().drop_last() =~= Seq::<char>::empty());
            assert(numeral_val(Seq::<char>::empty()) == 0);
            assert(one_text().last() == '1');
            assert(crate::num::digit_val('1') == 1);
        }
        assert(crate::num::is_numeral(one_text()));
        assert(crate::wordcount::parse_val(vs.last()) == 1);
    }
}

/// Word-count totals are preserved through the shuffle: for any key, the
/// reduce task of the key's own partition sees exactly the key's values from
/// every map task, in map order, and writes their count — the number of times
/// the key was emitted anywhere.
pub proof fn theorem_wc_count(ps: Seq<(Seq<char>, Seq<char>)>, nreduce: int, k: Seq<char>)
    requires
        nreduce >= 1,
        forall|i: int| 0 <= i < ps.len() ==> (#[trigger] ps[i]).1 == one_text(),
        ps.len() <= u64::MAX,
    ensures
        ({
            let r = partition_spec(k, nreduce as nat) as int;
            let routed = pairs_for_partition(ps, nreduce, r);
            wc_reduce_spec(k, group_values(group_pairs(routed), k)) == crate::num::dec_digits(
                values_of_key(ps, k).len() as nat,
            )
        }),
{
    let r = partition_spec(k, nreduce as nat) as int;
    let routed = pairs_for_partition(ps, nreduce, r);
    lemma_partition_values(ps, nreduce, r, k);
    lemma_group_pairs(routed, k);
    assert(group_values(group_pairs(routed), k) == values_of_key(ps, k));
    lemma_values_of_key_ones(ps, k);
    lemma_values_len_bound(ps, k);
    lemma_sum_ones(values_of_key(ps, k));
}

/// A key's values among word-count pairs are all the text `1`.
pub proof fn lemma_values_of_key_ones(ps: Seq<(Seq<char>, Seq<char>)>, k: Seq<char>)
    requires
        forall|i: int| 0 <= i < ps.len() ==> (#[trigger] ps[i]).1 == one_text(),
    ensures
        forall|i: int|
            0 <= i < values_of_key(ps, k).len() ==> #[trigger] values_of_key(ps, k)[i]
                == one_text(),
    decreases ps.len(),
{
    if ps.len() > 0 {
        assert(forall|i: int|
            0 <= i < ps.drop_last().len() ==> (#[trigger] ps.drop_last()[i]).1 == one_text());
        lemma_values_of_key_ones(ps.drop_last(), k);
        let rest = values_of_key(ps.drop_last(), k);
        assert(ps[ps.len() - 1] == ps.last());
        assert forall|i: int| 0 <= i < values_of_key(ps, k).len() implies #[trigger] values_of_key(
            ps,
            k,
        )[i] == one_text() by {
            if i < rest.len() {
                assert(values_of_key(ps, k)[i] == rest[i]);
            }
        }
    }
}

/// The tokens of a list of chunks, chunk after chunk.
pub open spec fn tokens_of_chunks(cs: Seq<Seq<char>>) -> Seq<Seq<char>>
    decreases cs.len(),
{
    if cs.len() == 0 {
        seq![]
    } else {
        crate::text::ws_tokens(cs[0]) + tokens_of_chunks(cs.drop_first())
    }
}

/// Whether a line list came from a text: every line nonempty, every line but
/// the last ending with its line feed.
pub open spec fn shaped_lines(ls: Seq<Seq<char>>) -> bool {
    (forall|i: int| 0 <= i < ls.len() ==> (#[trigger] ls[i]).len() > 0) && (forall|i: int|
        0 <= i < ls.len() - 1 ==> (#[trigger] ls[i]).last() == '\n')
}

/// The flattening of nonempty lines ends where its last line ends.
pub proof fn lemma_flatten_last(ls: Seq<Seq<char>>)
    requires
        ls.len() > 0,
        forall|i: int| 0 <= i < ls.len() ==> (#[trigger] ls[i]).len() > 0,
    ensures
        ls.flatten().len() > 0,
        ls.flatten().last() == ls.last().last(),
    decreases ls.len(),
{
    let l0 = ls.drop_last();
    assert(ls =~= l0.push(ls.last()));
    l0.lemma_flatten_push(ls.last());
    assert(ls.flatten() == l0.flatten() + ls.last());
    assert(ls.flatten().last() == ls.last().last());
}

/// Packing lines into chunks never splits or merges a token: the tokens of
/// the chunks, chunk after chunk, are the tokens of the whole text.
pub proof fn lemma_pack_lines_tokens(ls: Seq<Seq<char>>, t: int, m: int, nmap: int, off: int)
    requires
        m < nmap,
        shaped_lines(ls),
    ensures
        tokens_of_chunks(pack_lines(ls, t, m, nmap, off)) == crate::text::ws_tokens(ls.flatten()),
    decreases nmap - m,
{
    let cs = pack_lines(ls, t, m, nmap, off);
    if m >= nmap - 1 {
        assert(cs == seq![ls.flatten()]);
        assert(cs.drop_first() =~= Seq::<Seq<char>>::empty());
        assert(tokens_of_chunks(cs.drop_first()) =~= Seq::<Seq<char>>::empty());
        assert(tokens_of_chunks(cs) =~= crate::text::ws_tokens(ls.flatten()));
    } else {
        let n = crate::pipeline::chunk_line_count(ls, t * (m + 1), off);
        crate::pipeline::lemma_chunk_line_count_bound(ls, t * (m + 1), off);
        let c0 = ls.take(n).flatten();
        let rest_ls = ls.skip(n);
        let rest = pack_lines(rest_ls, t, m + 1, nmap, off + c0.len());
        assert(cs == seq![c0] + rest);
        assert(cs[0] == c0);
        assert(cs.drop_first() =~= rest);
        assert(shaped_lines(rest_ls)) by {
            assert(forall|i: int|
                0 <= i < rest_ls.len() ==> #[trigger] rest_ls[i] == ls[i + n]);
        }
        lemma_pack_lines_tokens(rest_ls, t, m + 1, nmap, off + c0.len());
        vstd::seq_lib::lemma_flatten_concat(ls.take(n), rest_ls);
        assert(ls.take(n) + rest_ls =~= ls);
        assert(ls.flatten() == c0 + rest_ls.flatten());
        if n == 0 {
            assert(ls.take(0) =~= Seq::<Seq<char>>::empty());
            assert(c0 =~= Seq::<char>::empty());
            assert(c0 + rest_ls.flatten() =~= rest_ls.flatten());
            assert(crate::text::ws_tokens(c0) =~= Seq::<Seq<char>>::empty());
            assert(tokens_of_chunks(cs) =~= crate::text::ws_tokens(ls.flatten()));
        } else if n == ls.len() {
            assert(rest_ls.len() == 0);
            assert(rest_ls.flatten() =~= Seq::<char>::empty());
            assert(c0 + rest_ls.flatten() =~= c0);
            assert(crate::text::ws_tokens(Seq::<char>::empty()) =~= Seq::<Seq<char>>::empty());
            assert(tokens_of_chunks(cs) =~= crate::text::ws_tokens(c0) + tokens_of_chunks(rest));
            assert(tokens_of_chunks(cs) =~= crate::text::ws_tokens(ls.flatten()));
        } else {
            // the chunk ends with a whole line, whose line feed separates the
            // tokens on either side of the boundary
            assert(forall|i: int| 0 <= i < n ==> (#[trigger] ls.take(n)[i]).len() > 0);
            lemma_flatten_last(ls.take(n));
            assert(ls.take(n).last() == ls[n - 1]);
            assert(ls[n - 1].last() == '\n');
            assert(c0.len() > 0);
            assert(c0.last() == '\n');
            assert(crate::text::is_space(c0.last()));
            crate::text::lemma_tokens_concat(c0, rest_ls.flatten(), seq![]);
            assert(tokens_of_chunks(cs) == crate::text::ws_tokens(c0) + tokens_of_chunks(rest));
        }
    }
}

/// Word-count pairs of concatenated token lists are the pairs of the parts.
pub proof fn lemma_wc_pairs_concat(a: Seq<Seq<char>>, b: Seq<Seq<char>>)
    ensures
        wc_pairs(a + b) == wc_pairs(a) + wc_pairs(b),
    decreases b.len(),
{
    if b.len() == 0 {
        assert(a + b =~= a);
        assert(wc_pairs(b) =~= Seq::<(Seq<char>, Seq<char>)>::empty());
        assert(wc_pairs(a) + wc_pairs(b) =~= wc_pairs(a));
    } else {
        let b0 = b.drop_last();
        lemma_wc_pairs_concat(a, b0);
        assert((a + b).drop_last() =~= a + b0);
        assert((a + b).last() == b.last());
        let c = crate::wordcount::clean_token(b.last());
        if c.len() > 0 {
            assert(wc_pairs(a) + wc_pairs(b0).push((c, one_text())) =~= (wc_pairs(a) + wc_pairs(
                b0,
            )).push((c, one_text())));
        }
    }
}

/// Routing distributes over concatenation: the pairs routed to a partition
/// from two parts are the routed pairs of each, in order.
pub proof fn lemma_partition_concat(
    a: Seq<(Seq<char>, Seq<char>)>,
    b: Seq<(Seq<char>, Seq<char>)>,
    nreduce: int,
    r: int,
)
    ensures
        pairs_for_partition(a + b, nreduce, r) == pairs_for_partition(a, nreduce, r)
            + pairs_for_partition(b, nreduce, r),
    decreases b.len(),
{
    if b.len() == 0 {
        assert(a + b =~= a);
        assert(pairs_for_partition(b, nreduce, r) =~= Seq::<(Seq<char>, Seq<char>)>::empty());
        assert(pairs_for_partition(a, nreduce, r) + pairs_for_partition(b, nreduce, r)
            =~= pairs_for_partition(a, nreduce, r));
    } else {
        let b0 = b.drop_last();
        lemma_partition_concat(a, b0, nreduce, r);
        assert((a + b).drop_last() =~= a + b0);
        assert((a + b).last() == b.last());
        if partition_spec(b.last().0, nreduce as nat) == r {
            assert(pairs_for_partition(a, nreduce, r) + pairs_for_partition(b0, nreduce, r).push(
                b.last(),
            ) =~= (pairs_for_partition(a, nreduce, r) + pairs_for_partition(b0, nreduce, r)).push(
                b.last(),
            ));
        }
    }
}

/// Routing keeps pairs well-formed.
pub proof fn lemma_partition_wf(ps: Seq<(Seq<char>, Seq<char>)>, nreduce: int, r: int)
    requires
        forall|i: int| 0 <= i < ps.len() ==> wf_pair(#[trigger] ps[i]),
    ensures
        forall|i: int|
            0 <= i < pairs_for_partition(ps, nreduce, r).len() ==> wf_pair(
                #[trigger] pairs_for_partition(ps, nreduce, r)[i],
            ),
    decreases ps.len(),
{
    if ps.len() > 0 {
        let ps0 = ps.drop_last();
        assert(forall|i: int| 0 <= i < ps0.len() ==> #[trigger] ps0[i] == ps[i]);
        lemma_partition_wf(ps0, nreduce, r);
        let fp0 = pairs_for_partition(ps0, nreduce, r);
        let fp = pairs_for_partition(ps, nreduce, r);
        assert(ps[ps.len() - 1] == ps.last());
        assert forall|i: int| 0 <= i < fp.len() implies wf_pair(#[trigger] fp[i]) by {
            if partition_spec(ps.last().0, nreduce as nat) == r {
                assert(fp == fp0.push(ps.last()));
                if i < fp0.len() {
                    assert(fp[i] == fp0[i]);
                }
            } else {
                assert(fp == fp0);
            }
        }
    }
}

/// Chunking the input and mapping each chunk emits the same pairs as mapping
/// the whole input: the splitter's line-aligned boundaries never split,
/// merge, drop or duplicate a token.
pub proof fn theorem_chunking_preserves_map(content: Seq<char>, nmap: int)
    requires
        nmap >= 1,
    ensures
        tokens_of_chunks(crate::pipeline::split_spec(content, nmap)) == crate::text::ws_tokens(
            content,
        ),
{
    crate::text::lemma_raw_lines_shape_acc(content, seq![]);
    crate::text::lemma_raw_lines_concat(content);
    let ls = crate::text::raw_lines(content);
    assert(shaped_lines(ls));
    lemma_pack_lines_tokens(ls, content.len() as int / nmap, 0, nmap, 0);
}

/// The pairs every map task emits, task after task.
pub open spec fn map_pairs_of_chunks<M: crate::wordcount::Mapper>(
    chunks: Seq<Seq<char>>,
    mapper: &M,
) -> Seq<(Seq<char>, Seq<char>)>
    decreases chunks.len(),
{
    if chunks.len() == 0 {
        seq![]
    } else {
        mapper.map_spec(chunks[0]) + map_pairs_of_chunks(chunks.drop_first(), mapper)
    }
}

/// What a reduce task parses back from its intermediate texts is exactly what
/// the map tasks routed to it, in map order: the shuffle loses nothing, adds
/// nothing, and reaches the right partition.
pub proof fn lemma_reduce_input_pairs<M: crate::wordcount::Mapper>(
    chunks: Seq<Seq<char>>,
    nreduce: int,
    r: int,
    mapper: &M,
)
    requires
        nreduce >= 1,
        0 <= r < nreduce,
    ensures
        crate::pipeline::concat_pairs(
            crate::pipeline::partition_inputs(
                crate::pipeline::intermediates_spec(chunks, nreduce, mapper),
                r,
            ),
        ) == pairs_for_partition(map_pairs_of_chunks(chunks, mapper), nreduce, r),
    decreases chunks.len(),
{
    let inter = crate::pipeline::intermediates_spec(chunks, nreduce, mapper);
    let pi = crate::pipeline::partition_inputs(inter, r);
    if chunks.len() == 0 {
        assert(pi.len() == 0);
        assert(crate::pipeline::concat_pairs(pi) =~= Seq::<(Seq<char>, Seq<char>)>::empty());
        assert(pairs_for_partition(map_pairs_of_chunks(chunks, mapper), nreduce, r)
            =~= Seq::<(Seq<char>, Seq<char>)>::empty());
    } else {
        let ps0 = mapper.map_spec(chunks[0]);
        mapper.map_spec_wf(chunks[0]);
        lemma_partition_wf(ps0, nreduce, r);
        lemma_round_trip(pairs_for_partition(ps0, nreduce, r));
        assert(inter[0] == crate::pipeline::do_map_spec(ps0, nreduce));
        assert(pi[0] == inter[0][r]);
        assert(inter[0][r] == encode_pairs(pairs_for_partition(ps0, nreduce, r)));
        assert(content_pairs(pi[0]) == pairs_for_partition(ps0, nreduce, r));
        let chunks1 = chunks.drop_first();
        lemma_reduce_input_pairs(chunks1, nreduce, r, mapper);
        assert(pi.drop_first() =~= crate::pipeline::partition_inputs(
            crate::pipeline::intermediates_spec(chunks1, nreduce, mapper),
            r,
        ));
        assert(crate::pipeline::concat_pairs(pi) == content_pairs(pi[0])
            + crate::pipeline::concat_pairs(pi.drop_first()));
        lemma_partition_concat(ps0, map_pairs_of_chunks(chunks1, mapper), nreduce, r);
        assert(map_pairs_of_chunks(chunks, mapper) == ps0 + map_pairs_of_chunks(chunks1, mapper));
    }
}

/// The word-count pairs of the chunks, task after task, are the word-count
/// pairs of the chunk tokens taken together.
pub proof fn lemma_wc_chunks(cs: Seq<Seq<char>>)
    ensures
        map_pairs_of_chunks(cs, &crate::wordcount::WordCount) == wc_pairs(tokens_of_chunks(cs)),
    decreases cs.len(),
{
    if cs.len() == 0 {
        assert(map_pairs_of_chunks(cs, &crate::wordcount::WordCount) =~= wc_pairs(
            tokens_of_chunks(cs),
        ));
    } else {
        lemma_wc_chunks(cs.drop_first());
        lemma_wc_pairs_concat(
            crate::text::ws_tokens(cs[0]),
            tokens_of_chunks(cs.drop_first()),
        );
    }
}

/// The word count emits at most one pair per token.
pub proof fn lemma_wc_pairs_len(toks: Seq<Seq<char>>)
    ensures
        wc_pairs(toks).len() <= toks.len(),
    decreases toks.len(),
{
    if toks.len() > 0 {
        lemma_wc_pairs_len(toks.drop_last());
    }
}

/// A text has at most one token per character, plus the token in progress.
pub proof fn lemma_tokens_len(s: Seq<char>, cur: Seq<char>)
    ensures
        crate::text::tokens_acc(s, cur).len() <= s.len() + if cur.len() == 0 {
            0int
        } else {
            1int
        },
    decreases s.len(),
{
    if s.len() > 0 {
        if crate::text::is_space(s[0]) {
            lemma_tokens_len(s.drop_first(), seq![]);
        } else {
            lemma_tokens_len(s.drop_first(), cur.push(s[0]));
        }
    }
}

/// Word-count totals are invariant under the chunking and the shuffle: with
/// any number of map and reduce tasks, the reduce task of a key's own
/// partition groups, for that key, exactly the pairs that mapping the whole
/// input emits for it, and reduces them to the key's total occurrence count.
pub proof fn theorem_word_count_preserved(
    content: Seq<char>,
    nmap: int,
    nreduce: int,
    k: Seq<char>,
)
    requires
        nmap >= 1,
        nreduce >= 1,
        content.len() <= u64::MAX,
    ensures
        ({
            let chunks = crate::pipeline::split_spec(content, nmap);
            let r = partition_spec(k, nreduce as nat) as int;
            let routed = crate::pipeline::concat_pairs(
                crate::pipeline::partition_inputs(
                    crate::pipeline::intermediates_spec(
                        chunks,
                        nreduce,
                        &crate::wordcount::WordCount,
                    ),
                    r,
                ),
            );
            wc_reduce_spec(k, group_values(group_pairs(routed), k)) == crate::num::dec_digits(
                values_of_key(crate::wordcount::wc_map_spec(content), k).len() as nat,
            )
        }),
{
    let chunks = crate::pipeline::split_spec(content, nmap);
    let ps = crate::wordcount::wc_map_spec(content);
    theorem_chunking_preserves_map(content, nmap);
    lemma_wc_chunks(chunks);
    assert(map_pairs_of_chunks(chunks, &crate::wordcount::WordCount) == ps);
    let r = partition_spec(k, nreduce as nat) as int;
    crate::hasher::lemma_partition_in_range(k, nreduce as nat);
    lemma_reduce_input_pairs(chunks, nreduce, r, &crate::wordcount::WordCount);
    lemma_wc_values_ones(crate::text::ws_tokens(content));
    lemma_wc_pairs_len(crate::text::ws_tokens(content));
    lemma_tokens_len(content, seq![]);
    theorem_wc_count(ps, nreduce, k);
}

/// The records a reduce task writes, as a pair sequence: each group's key
/// with its reduced value.
pub open spec fn reduced_pairs<R: crate::wordcount::Reducer>(
    gs: Seq<(Seq<char>, Seq<Seq<char>>)>,
    reducer: &R,
) -> Seq<(Seq<char>, Seq<char>)>
    decreases gs.len(),
{
    if gs.len() == 0 {
        seq![]
    } else {
        seq![(gs[0].0, reducer.reduce_spec(gs[0].0, gs[0].1))] + reduced_pairs(
            gs.drop_first(),
            reducer,
        )
    }
}

/// A reduce task writes exactly the records of its reduced groups.
pub proof fn lemma_groups_output_encodes<R: crate::wordcount::Reducer>(
    gs: Seq<(Seq<char>, Seq<Seq<char>>)>,
    reducer: &R,
)
    ensures
        crate::pipeline::groups_output(gs, reducer) == encode_pairs(reduced_pairs(gs, reducer)),
    decreases gs.len(),
{
    if gs.len() == 0 {
        assert(crate::pipeline::groups_output(gs, reducer) =~= encode_pairs(
            reduced_pairs(gs, reducer),
        ));
    } else {
        lemma_groups_output_encodes(gs.drop_first(), reducer);
        assert(reduced_pairs(gs, reducer)[0] == (gs[0].0, reducer.reduce_spec(gs[0].0, gs[0].1)));
        assert(reduced_pairs(gs, reducer).drop_first() =~= reduced_pairs(
            gs.drop_first(),
            reducer,
        ));
        assert(encode_pairs(reduced_pairs(gs, reducer)) == encode_pair(
            reduced_pairs(gs, reducer)[0],
        ) + encode_pairs(reduced_pairs(gs, reducer).drop_first()));
    }
}

/// Every key the grouping of well-formed pairs holds is itself well-formed.
pub proof fn lemma_group_keys_wf(ps: Seq<(Seq<char>, Seq<char>)>)
    requires
        forall|i: int| 0 <= i < ps.len() ==> wf_pair(#[trigger] ps[i]),
    ensures
        forall|i: int|
            0 <= i < group_pairs(ps).len() ==> wf_field((#[trigger] group_pairs(ps)[i]).0),
{
    let gs = group_pairs(ps);
    assert forall|i: int| 0 <= i < gs.len() implies wf_field((#[trigger] gs[i]).0) by {
        let k = gs[i].0;
        assert(has_key(gs, k));
        lemma_group_pairs(ps, k);
        assert(pairs_have_key(ps, k));
        let j = choose|j: int| 0 <= j < ps.len() && (#[trigger] ps[j]).0 == k;
        assert(wf_pair(ps[j]));
    }
}

/// The pipeline never feeds itself a malformed line: for any map and reduce
/// functions that emit record-able text, every intermediate text a reduce
/// task reads parses, and so does the partial result it writes.
pub proof fn theorem_no_malformed<M: crate::wordcount::Mapper, R: crate::wordcount::Reducer>(
    chunks: Seq<Seq<char>>,
    nreduce: int,
    r: int,
    mapper: &M,
    reducer: &R,
)
    requires
        nreduce >= 1,
        0 <= r < nreduce,
    ensures
        crate::pipeline::all_ok(
            crate::pipeline::partition_inputs(
                crate::pipeline::intermediates_spec(chunks, nreduce, mapper),
                r,
            ),
        ),
        content_ok(
            crate::pipeline::groups_output(
                group_pairs(
                    crate::pipeline::concat_pairs(
                        crate::pipeline::partition_inputs(
                            crate::pipeline::intermediates_spec(chunks, nreduce, mapper),
                            r,
                        ),
                    ),
                ),
                reducer,
            ),
        ),
{
    let inter = crate::pipeline::intermediates_spec(chunks, nreduce, mapper);
    let pi = crate::pipeline::partition_inputs(inter, r);
    assert forall|m: int| 0 <= m < pi.len() implies content_ok(#[trigger] pi[m]) by {
        let ps = mapper.map_spec(chunks[m]);
        mapper.map_spec_wf(chunks[m]);
        lemma_partition_wf(ps, nreduce, r);
        lemma_round_trip(pairs_for_partition(ps, nreduce, r));
        assert(inter[m] == crate::pipeline::do_map_spec(ps, nreduce));
        assert(pi[m] == encode_pairs(pairs_for_partition(ps, nreduce, r)));
    }
    let all = crate::pipeline::concat_pairs(pi);
    assert(forall|i: int| 0 <= i < all.len() ==> wf_pair(#[trigger] all[i])) by {
        lemma_concat_pairs_wf(chunks, nreduce, r, mapper);
    }
    let gs = group_pairs(all);
    lemma_group_keys_wf(all);
    lemma_groups_output_encodes(gs, reducer);
    let rp = reduced_pairs(gs, reducer);
    lemma_reduced_pairs_wf(gs, reducer);
    lemma_round_trip(rp);
}

/// Every record a reduce task writes is well-formed: the key came from a
/// well-formed pair, the value from the reduce function's contract.
pub proof fn lemma_reduced_pairs_wf<R: crate::wordcount::Reducer>(
    gs: Seq<(Seq<char>, Seq<Seq<char>>)>,
    reducer: &R,
)
    requires
        forall|i: int| 0 <= i < gs.len() ==> wf_field((#[trigger] gs[i]).0),
    ensures
        forall|i: int|
            0 <= i < reduced_pairs(gs, reducer).len() ==> wf_pair(
                #[trigger] reduced_pairs(gs, reducer)[i],
            ),
    decreases gs.len(),
{
    if gs.len() > 0 {
        assert(forall|i: int|
            0 <= i < gs.drop_first().len() ==> #[trigger] gs.drop_first()[i] == gs[i + 1]);
        lemma_reduced_pairs_wf(gs.drop_first(), reducer);
        reducer.reduce_spec_wf(gs[0].0, gs[0].1);
        let rp = reduced_pairs(gs, reducer);
        assert forall|i: int| 0 <= i < rp.len() implies wf_pair(#[trigger] rp[i]) by {
            if i > 0 {
                assert(rp[i] == reduced_pairs(gs.drop_first(), reducer)[i - 1]);
            } else {
                assert(rp[0] == (gs[0].0, reducer.reduce_spec(gs[0].0, gs[0].1)));
            }
        }
    }
}

/// Everything a reduce task parses comes from well-formed pairs.
pub proof fn lemma_concat_pairs_wf<M: crate::wordcount::Mapper>(
    chunks: Seq<Seq<char>>,
    nreduce: int,
    r: int,
    mapper: &M,
)
    requires
        nreduce >= 1,
        0 <= r < nreduce,
    ensures
        forall|i: int|
            0 <= i < crate::pipeline::concat_pairs(
                crate::pipeline::partition_inputs(
                    crate::pipeline::intermediates_spec(chunks, nreduce, mapper),
                    r,
                ),
            ).len() ==> wf_pair(
                #[trigger] crate::pipeline::concat_pairs(
                    crate::pipeline::partition_inputs(
                        crate::pipeline::intermediates_spec(chunks, nreduce, mapper),
                        r,
                    ),
                )[i],
            ),
{
    lemma_reduce_input_pairs(chunks, nreduce, r, mapper);
    let mp = map_pairs_of_chunks(chunks, mapper);
    lemma_map_pairs_wf(chunks, mapper);
    lemma_partition_wf(mp, nreduce, r);
}

/// Every pair any map task emits is well-formed.
pub proof fn lemma_map_pairs_wf<M: crate::wordcount::Mapper>(chunks: Seq<Seq<char>>, mapper: &M)
    ensures
        forall|i: int|
            0 <= i < map_pairs_of_chunks(chunks, mapper).len() ==> wf_pair(
                #[trigger] map_pairs_of_chunks(chunks, mapper)[i],
            ),
    decreases chunks.len(),
{
    if chunks.len() > 0 {
        mapper.map_spec_wf(chunks[0]);
        lemma_map_pairs_wf(chunks.drop_first(), mapper);
        let mp = map_pairs_of_chunks(chunks, mapper);
        let head = mapper.map_spec(chunks[0]);
        let tail = map_pairs_of_chunks(chunks.drop_first(), mapper);
        assert forall|i: int| 0 <= i < mp.len() implies wf_pair(#[trigger] mp[i]) by {
            if i < head.len() {
                assert(mp[i] == head[i]);
            } else {
                assert(mp[i] == tail[i - head.len()]);
            }
        }
    }
}

/// The values of a key in a concatenation are its values in the parts, in
/// order.
pub proof fn lemma_values_concat(
    a: Seq<(Seq<char>, Seq<char>)>,
    b: Seq<(Seq<char>, Seq<char>)>,
    k: Seq<char>,
)
    ensures
        values_of_key(a + b, k) == values_of_key(a, k) + values_of_key(b, k),
    decreases b.len(),
{
    if b.len() == 0 {
        assert(a + b =~= a);
        assert(values_of_key(b, k) =~= Seq::<Seq<char>>::empty());
        assert(values_of_key(a, k) + values_of_key(b, k) =~= values_of_key(a, k));
    } else {
        let b0 = b.drop_last();
        lemma_values_concat(a, b0, k);
        assert((a + b).drop_last() =~= a + b0);
        assert((a + b).last() == b.last());
        if b.last().0 == k {
            assert(values_of_key(a, k) + values_of_key(b0, k).push(b.last().1) =~= (values_of_key(
                a,
                k,
            ) + values_of_key(b0, k)).push(b.last().1));
        }
    }
}

/// A key has values exactly when some pair carries it.
pub proof fn lemma_values_absent_iff(ps: Seq<(Seq<char>, Seq<char>)>, k: Seq<char>)
    ensures
        values_of_key(ps, k).len() == 0 <==> !pairs_have_key(ps, k),
    decreases ps.len(),
{
    if ps.len() == 0 {
        assert(!pairs_have_key(ps, k));
    } else {
        let ps0 = ps.drop_last();
        lemma_values_absent_iff(ps0, k);
        assert(ps[ps.len() - 1] == ps.last());
        if ps.last().0 == k {
            assert(pairs_have_key(ps, k));
        } else {
            if pairs_have_key(ps, k) {
                let i = choose|i: int| 0 <= i < ps.len() && (#[trigger] ps[i]).0 == k;
                assert(ps0[i] == ps[i]);
                assert(pairs_have_key(ps0, k));
            }
            if pairs_have_key(ps0, k) {
                let i = choose|i: int| 0 <= i < ps0.len() && (#[trigger] ps0[i]).0 == k;
                assert(ps[i] == ps0[i]);
                assert(pairs_have_key(ps, k));
            }
        }
    }
}

/// A reduce task's records carry each of its keys exactly once, and no other.
pub proof fn lemma_reduced_pairs_keys<R: crate::wordcount::Reducer>(
    gs: Seq<(Seq<char>, Seq<Seq<char>>)>,
    reducer: &R,
    k: Seq<char>,
)
    requires
        sorted_keys(gs),
    ensures
        pairs_have_key(reduced_pairs(gs, reducer), k) <==> has_key(gs, k),
        values_of_key(reduced_pairs(gs, reducer), k).len() <= 1,
        values_of_key(reduced_pairs(gs, reducer), k) == if has_key(gs, k) {
            seq![reducer.reduce_spec(k, group_values(gs, k))]
        } else {
            Seq::<Seq<char>>::empty()
        },
    decreases gs.len(),
{
    let rp = reduced_pairs(gs, reducer);
    if gs.len() == 0 {
        assert(!pairs_have_key(rp, k));
        assert(!has_key(gs, k));
        assert(values_of_key(rp, k) =~= Seq::<Seq<char>>::empty());
    } else {
        let head = seq![(gs[0].0, reducer.reduce_spec(gs[0].0, gs[0].1))];
        let tail = reduced_pairs(gs.drop_first(), reducer);
        assert(rp == head + tail);
        crate::group::lemma_sorted_tail(gs);
        lemma_reduced_pairs_keys(gs.drop_first(), reducer, k);
        lemma_values_concat(head, tail, k);
        lemma_values_absent_iff(tail, k);
        assert(head[0].0 == gs[0].0);
        assert(head.drop_last() =~= Seq::<(Seq<char>, Seq<char>)>::empty());
        assert(head.last() == head[0]);
        if gs[0].0 == k {
            assert(values_of_key(head.drop_last(), k) =~= Seq::<Seq<char>>::empty());
            assert(values_of_key(head, k) == values_of_key(head.drop_last(), k).push(head[0].1));
            assert(values_of_key(head, k).len() == 1);
            // the tail's keys all come after the head's, so none is k
            assert(!has_key(gs.drop_first(), k)) by {
                crate::order::lemma_lex_irreflexive(k);
                assert forall|i: int|
                    0 <= i < gs.drop_first().len() implies (#[trigger] gs.drop_first()[i]).0
                    != k by {
                    assert(gs.drop_first()[i] == gs[i + 1]);
                    assert(crate::order::lex_lt(gs[0].0, gs[i + 1].0));
                    if gs[i + 1].0 == k {
                        assert(crate::order::lex_lt(k, k));
                    }
                }
            }
            assert(values_of_key(tail, k).len() == 0);
            assert(pairs_have_key(rp, k)) by {
                assert(rp[0].0 == k);
            }
            assert(has_key(gs, k)) by {
                assert(gs[0].0 == k);
            }
        } else {
            assert(values_of_key(head, k).len() == 0) by {
                assert(values_of_key(head, k) =~= values_of_key(head.drop_last(), k));
                assert(values_of_key(head.drop_last(), k) =~= Seq::<Seq<char>>::empty());
            }
            if pairs_have_key(rp, k) {
                let i = choose|i: int| 0 <= i < rp.len() && (#[trigger] rp[i]).0 == k;
                assert(i > 0);
                assert(rp[i] == tail[i - 1]);
                assert(pairs_have_key(tail, k));
            }
            if has_key(gs, k) {
                let i = choose|i: int| 0 <= i < gs.len() && (#[trigger] gs[i]).0 == k;
                assert(i > 0);
                assert(gs.drop_first()[i - 1] == gs[i]);
                assert(has_key(gs.drop_first(), k));
                assert(pairs_have_key(tail, k));
                let m = choose|m: int| 0 <= m < tail.len() && (#[trigger] tail[m]).0 == k;
                assert(rp[m + 1] == tail[m]);
                assert(pairs_have_key(rp, k));
            }
            if pairs_have_key(tail, k) {
                let m = choose|m: int| 0 <= m < tail.len() && (#[trigger] tail[m]).0 == k;
                assert(rp[m + 1] == tail[m]);
                assert(pairs_have_key(rp, k));
            }
        }
    }
}

/// Every group in a sorted list holds exactly the values its key looks up.
pub proof fn lemma_group_at_index(gs: Seq<(Seq<char>, Seq<Seq<char>>)>, i: int)
    requires
        sorted_keys(gs),
        0 <= i < gs.len(),
    ensures
        group_values(gs, gs[i].0) == gs[i].1,
    decreases i,
{
    if i == 0 {
    } else {
        crate::group::lemma_sorted_tail(gs);
        assert(gs.drop_first()[i - 1] == gs[i]);
        lemma_group_at_index(gs.drop_first(), i - 1);
        assert(crate::order::lex_lt(gs[0].0, gs[i].0));
        crate::order::lemma_lex_irreflexive(gs[i].0);
        assert(gs[0].0 != gs[i].0);
    }
}

/// The partial results of one run: for each partition, what its reduce task
/// writes.
pub open spec fn partials_spec<M: crate::wordcount::Mapper, R: crate::wordcount::Reducer>(
    chunks: Seq<Seq<char>>,
    nreduce: int,
    mapper: &M,
    reducer: &R,
) -> Seq<Seq<char>> {
    Seq::new(
        nreduce as nat,
        |r: int|
            crate::pipeline::groups_output(
                group_pairs(
                    crate::pipeline::concat_pairs(
                        crate::pipeline::partition_inputs(
                            crate::pipeline::intermediates_spec(chunks, nreduce, mapper),
                            r,
                        ),
                    ),
                ),
                reducer,
            ),
    )
}

/// A key no text carries has no values in their concatenation.
pub proof fn lemma_no_source(cs: Seq<Seq<char>>, k: Seq<char>)
    requires
        forall|q: int|
            0 <= q < cs.len() ==> !pairs_have_key(content_pairs(#[trigger] cs[q]), k),
    ensures
        values_of_key(crate::pipeline::concat_pairs(cs), k).len() == 0,
    decreases cs.len(),
{
    if cs.len() == 0 {
        assert(crate::pipeline::concat_pairs(cs) =~= Seq::<(Seq<char>, Seq<char>)>::empty());
    } else {
        let head = content_pairs(cs[0]);
        let rest = crate::pipeline::concat_pairs(cs.drop_first());
        lemma_values_concat(head, rest, k);
        lemma_values_absent_iff(head, k);
        assert(forall|q: int|
            0 <= q < cs.drop_first().len() ==> #[trigger] cs.drop_first()[q] == cs[q + 1]);
        lemma_no_source(cs.drop_first(), k);
    }
}

/// When at most one text carries a key, and that text at most once, the key
/// has at most one value in all the texts together.
pub proof fn lemma_single_source(cs: Seq<Seq<char>>, k: Seq<char>)
    requires
        forall|q: int|
            0 <= q < cs.len() ==> values_of_key(content_pairs(#[trigger] cs[q]), k).len() <= 1,
        forall|q1: int, q2: int|
            0 <= q1 < q2 < cs.len() ==> !(pairs_have_key(content_pairs(#[trigger] cs[q1]), k)
                && pairs_have_key(content_pairs(#[trigger] cs[q2]), k)),
    ensures
        values_of_key(crate::pipeline::concat_pairs(cs), k).len() <= 1,
    decreases cs.len(),
{
    if cs.len() == 0 {
        assert(crate::pipeline::concat_pairs(cs) =~= Seq::<(Seq<char>, Seq<char>)>::empty());
    } else {
        let head = content_pairs(cs[0]);
        let rest = crate::pipeline::concat_pairs(cs.drop_first());
        lemma_values_concat(head, rest, k);
        lemma_values_absent_iff(head, k);
        assert(forall|q: int|
            0 <= q < cs.drop_first().len() ==> #[trigger] cs.drop_first()[q] == cs[q + 1]);
        if pairs_have_key(head, k) {
            assert(forall|q: int|
                0 <= q < cs.drop_first().len() ==> !pairs_have_key(
                    content_pairs(#[trigger] cs.drop_first()[q]),
                    k,
                ));
            lemma_no_source(cs.drop_first(), k);
        } else {
            lemma_single_source(cs.drop_first(), k);
        }
    }
}

/// Partition disjointness carried to the merge: the partial results of one
/// run hold every key exactly once over all partitions, so combining them
/// never meets the same key twice.
pub proof fn theorem_no_duplicate_keys<
    M: crate::wordcount::Mapper,
    R: crate::wordcount::Reducer,
>(chunks: Seq<Seq<char>>, nreduce: int, mapper: &M, reducer: &R)
    requires
        nreduce >= 1,
    ensures
        crate::pipeline::all_single(
            group_pairs(
                crate::pipeline::concat_pairs(partials_spec(chunks, nreduce, mapper, reducer)),
            ),
        ),
{
    let cs = partials_spec(chunks, nreduce, mapper, reducer);
    let all = crate::pipeline::concat_pairs(cs);
    let gs = group_pairs(all);
    assert forall|i: int| 0 <= i < gs.len() implies (#[trigger] gs[i]).1.len() == 1 by {
        let k = gs[i].0;
        lemma_group_pairs(all, k);
        lemma_group_at_index(gs, i);
        assert forall|q: int|
            0 <= q < cs.len() implies values_of_key(content_pairs(#[trigger] cs[q]), k).len()
            <= 1 && (pairs_have_key(content_pairs(cs[q]), k) ==> partition_spec(k, nreduce as nat)
            == q) by {
            let routed = crate::pipeline::concat_pairs(
                crate::pipeline::partition_inputs(
                    crate::pipeline::intermediates_spec(chunks, nreduce, mapper),
                    q,
                ),
            );
            let gq = group_pairs(routed);
            lemma_group_pairs(routed, k);
            lemma_concat_pairs_wf(chunks, nreduce, q, mapper);
            lemma_group_keys_wf(routed);
            lemma_groups_output_encodes(gq, reducer);
            lemma_reduced_pairs_wf(gq, reducer);
            lemma_round_trip(reduced_pairs(gq, reducer));
            assert(cs[q] == crate::pipeline::groups_output(gq, reducer));
            assert(content_pairs(cs[q]) == reduced_pairs(gq, reducer));
            lemma_reduced_pairs_keys(gq, reducer, k);
            lemma_reduce_input_pairs(chunks, nreduce, q, mapper);
            lemma_partition_routing(map_pairs_of_chunks(chunks, mapper), nreduce, q, k);
            lemma_values_absent_iff(routed, k);
        }
        assert forall|q1: int, q2: int| 0 <= q1 < q2 < cs.len() implies !(pairs_have_key(
            content_pairs(#[trigger] cs[q1]),
            k,
        ) && pairs_have_key(content_pairs(#[trigger] cs[q2]), k)) by {
            if pairs_have_key(content_pairs(cs[q1]), k) && pairs_have_key(
                content_pairs(cs[q2]),
                k,
            ) {
                assert(partition_spec(k, nreduce as nat) == q1);
                assert(partition_spec(k, nreduce as nat) == q2);
            }
        }
        lemma_single_source(cs, k);
        lemma_values_absent_iff(all, k);
        assert(has_key(gs, k));
        assert(gs[i].1 == values_of_key(all, k));
        assert(values_of_key(all, k).len() >= 1);
    }
}

/// When only one text carries a key, the key's values in the concatenation
/// are its values in that text.
pub proof fn lemma_single_source_value(cs: Seq<Seq<char>>, k: Seq<char>, q0: int)
    requires
        0 <= q0 < cs.len(),
        forall|q: int|
            0 <= q < cs.len() && q != q0 ==> !pairs_have_key(
                content_pairs(#[trigger] cs[q]),
                k,
            ),
    ensures
        values_of_key(crate::pipeline::concat_pairs(cs), k) == values_of_key(
            content_pairs(cs[q0]),
            k,
        ),
    decreases cs.len(),
{
    let head = content_pairs(cs[0]);
    let rest = crate::pipeline::concat_pairs(cs.drop_first());
    lemma_values_concat(head, rest, k);
    assert(forall|q: int|
        0 <= q < cs.drop_first().len() ==> #[trigger] cs.drop_first()[q] == cs[q + 1]);
    if q0 == 0 {
        lemma_no_source(cs.drop_first(), k);
        assert(values_of_key(rest, k) =~= Seq::<Seq<char>>::empty());
        assert(values_of_key(head, k) + values_of_key(rest, k) =~= values_of_key(head, k));
    } else {
        lemma_values_absent_iff(head, k);
        assert(values_of_key(head, k) =~= Seq::<Seq<char>>::empty());
        lemma_single_source_value(cs.drop_first(), k, q0 - 1);
        assert(values_of_key(head, k) + values_of_key(rest, k) =~= values_of_key(rest, k));
        assert(cs.drop_first()[q0 - 1] == cs[q0]);
    }
}

/// Word-count totals reach the merge intact: for every key the map phase
/// emitted, the partial results of one run carry exactly one record for the
/// key, whose value is the key's total number of occurrences in the whole
/// input's word-count pairs.
pub proof fn theorem_word_count_final(content: Seq<char>, nmap: int, nreduce: int, k: Seq<char>)
    requires
        nmap >= 1,
        nreduce >= 1,
        content.len() <= u64::MAX,
        pairs_have_key(crate::wordcount::wc_map_spec(content), k),
    ensures
        ({
            let chunks = crate::pipeline::split_spec(content, nmap);
            let cs = partials_spec(
                chunks,
                nreduce,
                &crate::wordcount::WordCount,
                &crate::wordcount::WordCount,
            );
            values_of_key(crate::pipeline::concat_pairs(cs), k) == seq![
                crate::num::dec_digits(
                    values_of_key(crate::wordcount::wc_map_spec(content), k).len() as nat,
                ),
            ]
        }),
{
    let wc = &crate::wordcount::WordCount;
    let chunks = crate::pipeline::split_spec(content, nmap);
    let cs = partials_spec(chunks, nreduce, wc, wc);
    let ps = crate::wordcount::wc_map_spec(content);
    theorem_chunking_preserves_map(content, nmap);
    lemma_wc_chunks(chunks);
    assert(map_pairs_of_chunks(chunks, wc) == ps);
    crate::hasher::lemma_partition_in_range(k, nreduce as nat);
    let q0 = partition_spec(k, nreduce as nat) as int;
    assert forall|q: int|
        0 <= q < cs.len() implies (pairs_have_key(content_pairs(#[trigger] cs[q]), k)
        <==> partition_spec(k, nreduce as nat) == q) && (q == q0
        ==> values_of_key(content_pairs(cs[q]), k) == seq![
        crate::num::dec_digits(values_of_key(ps, k).len() as nat),
    ]) by {
        let routed = crate::pipeline::concat_pairs(
            crate::pipeline::partition_inputs(
                crate::pipeline::intermediates_spec(chunks, nreduce, wc),
                q,
            ),
        );
        let gq = group_pairs(routed);
        lemma_group_pairs(routed, k);
        lemma_concat_pairs_wf(chunks, nreduce, q, wc);
        lemma_group_keys_wf(routed);
        lemma_groups_output_encodes(gq, wc);
        lemma_reduced_pairs_wf(gq, wc);
        lemma_round_trip(reduced_pairs(gq, wc));
        assert(cs[q] == crate::pipeline::groups_output(gq, wc));
        assert(content_pairs(cs[q]) == reduced_pairs(gq, wc));
        lemma_reduced_pairs_keys(gq, wc, k);
        lemma_reduce_input_pairs(chunks, nreduce, q, wc);
        lemma_partition_routing(ps, nreduce, q, k);
        if q == q0 {
            theorem_word_count_preserved(content, nmap, nreduce, k);
            assert(has_key(gq, k));
            assert(values_of_key(content_pairs(cs[q]), k) == seq![
                crate::wordcount::Reducer::reduce_spec(wc, k, group_values(gq, k)),
            ]);
        }
    }
    lemma_single_source_value(cs, k, q0);
}

/// A key never has more values than there are pairs.
pub proof fn lemma_values_len_bound(ps: Seq<(Seq<char>, Seq<char>)>, k: Seq<char>)
    ensures
        values_of_key(ps, k).len() <= ps.len(),
    decreases ps.len(),
{
    if ps.len() > 0 {
        lemma_values_len_bound(ps.drop_last(), k);
    }
}

} // verus!
