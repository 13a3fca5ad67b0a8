//! The four phases of the pipeline, each a pure function from text to text.
//!
//! `split` cuts the input into line-aligned chunks; `do_map` maps one chunk
//! and routes its pairs into one intermediate text per partition; `do_reduce`
//! groups one partition's intermediate texts and reduces each key;
//! `merge` combines the partial results into one text sorted by key.
//! `run_single` sequences them: split, then every map task in index order,
//! then every reduce task in index order, then the merge. The caller reads
//! and writes the files that carry each phase's texts.

use crate::group::Group;
use crate::group::group_pairs;
use crate::group::group_pairs_acc;
use crate::group::insert_pair;
use crate::group::insert_pair_spec;
use crate::group::lemma_group_acc_push;
use crate::hasher::partition;
use crate::hasher::partition_spec;
use crate::kv::KeyValue;
use crate::kv::append_pair;
use crate::kv::content_ok;
use crate::kv::content_pairs;
use crate::kv::encode_pair;
use crate::kv::encode_pairs;
use crate::kv::parse_content;
use crate::text::raw_lines;
use crate::text::raw_lines_of;
use crate::wordcount::Mapper;
use crate::wordcount::Reducer;
use vstd::prelude::*;
use vstd::seq_lib::lemma_flatten_concat;
use vstd::string::StrSliceExecFns;
use vstd::string::StringExecFns;

verus! {

/// Why a job failed. Input/output failures live with the caller, who owns the
/// files; these are the failures of the pipeline's own logic.
#[derive(Clone, Copy, PartialEq, Eq, Structural, Debug)]
pub enum JobError {
    /// A job needs at least one map task and one reduce task.
    InvalidConfig,
    /// A data line did not split into exactly one key and one value.
    MalformedLine,
    /// One key appeared in two partitions' results: the partitioning was
    /// inconsistent between the map and reduce runs.
    DuplicateKey,
}

/// Everything one run writes: the texts of every file of every phase.
pub struct JobOutput {
    /// One chunk per map task.
    pub map_inputs: Vec<String>,
    /// For each map task, one intermediate text per partition.
    pub intermediates: Vec<Vec<String>>,
    /// One partial result per partition.
    pub partials: Vec<String>,
    /// The final result.
    pub result: String,
}

/// How many leading lines the current chunk takes: lines are accumulated
/// until the running offset passes `limit`; the line that passes it still
/// belongs to the closing chunk.
pub open spec fn chunk_line_count(ls: Seq<Seq<char>>, limit: int, off: int) -> int
    decreases ls.len(),
{
    if ls.len() == 0 {
        0
    } else if off + ls[0].len() > limit {
        1
    } else {
        1 + chunk_line_count(ls.drop_first(), limit, off + ls[0].len())
    }
}

/// The chunk never takes more lines than there are.
pub proof fn lemma_chunk_line_count_bound(ls: Seq<Seq<char>>, limit: int, off: int)
    ensures
        0 <= chunk_line_count(ls, limit, off) <= ls.len(),
    decreases ls.len(),
{
    if ls.len() > 0 && !(off + ls[0].len() > limit) {
        lemma_chunk_line_count_bound(ls.drop_first(), limit, off + ls[0].len());
    }
}

/// Chunks `m` to `nmap - 1`, packed from the remaining lines: every chunk but
/// the last closes when the running offset passes its share, and the last
/// chunk absorbs whatever remains.
pub open spec fn pack_lines(ls: Seq<Seq<char>>, t: int, m: int, nmap: int, off: int) -> Seq<
    Seq<char>,
>
    recommends
        m < nmap,
    decreases nmap - m,
{
    if m >= nmap - 1 {
        seq![ls.flatten()]
    } else {
        let n = chunk_line_count(ls, t * (m + 1), off);
        seq![ls.take(n).flatten()] + pack_lines(
            ls.skip(n),
            t,
            m + 1,
            nmap,
            off + ls.take(n).flatten().len(),
        )
    }
}

/// The chunks of the input text: its raw lines, packed with a share of
/// `len / nmap` characters per chunk.
pub open spec fn split_spec(content: Seq<char>, nmap: int) -> Seq<Seq<char>>
    recommends
        nmap >= 1,
{
    pack_lines(raw_lines(content), content.len() as int / nmap, 0, nmap, 0)
}

/// Packing yields exactly the asked-for number of chunks.
pub proof fn lemma_pack_lines_len(ls: Seq<Seq<char>>, t: int, m: int, nmap: int, off: int)
    requires
        m < nmap,
    ensures
        pack_lines(ls, t, m, nmap, off).len() == nmap - m,
    decreases nmap - m,
{
    if m < nmap - 1 {
        let n = chunk_line_count(ls, t * (m + 1), off);
        lemma_pack_lines_len(ls.skip(n), t, m + 1, nmap, off + ls.take(n).flatten().len());
    }
}

/// The chunks concatenate to everything the lines held: nothing is lost or
/// duplicated at chunk boundaries.
pub proof fn lemma_pack_lines_concat(ls: Seq<Seq<char>>, t: int, m: int, nmap: int, off: int)
    requires
        m < nmap,
    ensures
        pack_lines(ls, t, m, nmap, off).flatten() == ls.flatten(),
    decreases nmap - m,
{
    if m >= nmap - 1 {
        seq![ls.flatten()].lemma_flatten_one_element();
    } else {
        let n = chunk_line_count(ls, t * (m + 1), off);
        lemma_chunk_line_count_bound(ls, t * (m + 1), off);
        let rest = pack_lines(ls.skip(n), t, m + 1, nmap, off + ls.take(n).flatten().len());
        lemma_pack_lines_concat(ls.skip(n), t, m + 1, nmap, off + ls.take(n).flatten().len());
        lemma_flatten_concat(seq![ls.take(n).flatten()], rest);
        assert(seq![ls.take(n).flatten()] + rest == pack_lines(ls, t, m, nmap, off));
        seq![ls.take(n).flatten()].lemma_flatten_one_element();
        lemma_flatten_concat(ls.take(n), ls.skip(n));
        assert(ls.take(n) + ls.skip(n) =~= ls);
    }
}

/// Splitter coverage: the chunks of a text concatenate back to the text.
pub proof fn lemma_split_concat(content: Seq<char>, nmap: int)
    requires
        nmap >= 1,
    ensures
        split_spec(content, nmap).len() == nmap,
        split_spec(content, nmap).flatten() == content,
{
    lemma_pack_lines_len(raw_lines(content), content.len() as int / nmap, 0, nmap, 0);
    lemma_pack_lines_concat(raw_lines(content), content.len() as int / nmap, 0, nmap, 0);
    crate::text::lemma_raw_lines_concat(content);
}

/// Cuts the input into `nmap` line-aligned chunks. The chunks concatenate
/// back to the input, and no line is split across two chunks.
pub fn split(content: &str, nmap: usize) -> (r: Vec<String>)
    requires
        nmap >= 1,
    ensures
        r.deep_view() == split_spec(content@, nmap as int),
        r.len() == nmap,
{
    let lines = raw_lines_of(content);
    let ghost lv = lines.deep_view();
    let total = content.unicode_len();
    let t = total / nmap;
    let mut out: Vec<String> = Vec::new();
    let mut li: usize = 0;
    let mut off: usize = 0;
    proof {
        lemma_pack_lines_len(lv, t as int, 0, nmap as int, 0);
        assert(lv.skip(0) =~= lv);
        assert(lv.take(0) =~= Seq::<Seq<char>>::empty());
        assert(out.deep_view() + pack_lines(lv.skip(0), t as int, 0, nmap as int, 0)
            =~= pack_lines(lv, t as int, 0, nmap as int, 0));
        crate::text::lemma_raw_lines_concat(content@);
        assert(lv.take(0).flatten() =~= Seq::<char>::empty());
    }
    while out.len() + 1 < nmap
        invariant
            nmap >= 1,
            out.len() < nmap,
            0 <= li <= lines.len(),
            lines.deep_view() == lv,
            lv == raw_lines(content@),
            lv.flatten() == content@,
            total == content@.len(),
            t == total / nmap,
            off == lv.take(li as int).flatten().len(),
            split_spec(content@, nmap as int) == out.deep_view() + pack_lines(
                lv.skip(li as int),
                t as int,
                out.len() as int,
                nmap as int,
                off as int,
            ),
        decreases nmap - out.len(),
    {
        let ghost m = out.len() as int;
        let ghost rem = lv.skip(li as int);
        let ghost off0 = off as int;
        let limit = {
            proof {
                assert(t * (m + 1) <= t * (nmap as int)) by (nonlinear_arith)
                    requires
                        m + 1 <= nmap as int,
                        t >= 0,
                ;
                assert(t * (nmap as int) <= total as int) by (nonlinear_arith)
                    requires
                        t == (total as int) / (nmap as int),
                        nmap >= 1,
                ;
            }
            t * (out.len() + 1)
        };
        let ghost n = chunk_line_count(rem, limit as int, off0);
        let mut chunk = String::new();
        let mut j: usize = 0;
        proof {
            lemma_chunk_line_count_bound(rem, limit as int, off0);
            assert(rem.take(0) =~= Seq::<Seq<char>>::empty());
            assert(rem.take(0).flatten() =~= Seq::<char>::empty());
            assert(rem.skip(0) =~= rem);
            assert(lv =~= lv.take(li as int) + lv.skip(li as int));
            lemma_flatten_concat(lv.take(li as int), lv.skip(li as int));
        }
        loop
            invariant_except_break
                0 <= j,
                li + j <= lines.len(),
                lines.deep_view() == lv,
                lv.flatten() == content@,
                total == content@.len(),
                rem == lv.skip(li as int),
                j <= rem.len(),
                chunk@ == rem.take(j as int).flatten(),
                off == off0 + chunk@.len(),
                off0 == lv.take(li as int).flatten().len(),
                n == j + chunk_line_count(rem.skip(j as int), limit as int, off as int),
                off <= total,
            ensures
                j == n,
                0 <= j <= rem.len(),
                li + j <= lines.len(),
                chunk@ == rem.take(j as int).flatten(),
                off == off0 + chunk@.len(),
                off <= total,
            decreases lines.len() - (li + j),
        {
            if li + j == lines.len() {
                proof {
                    assert(rem.skip(j as int).len() == 0);
                    assert(chunk_line_count(rem.skip(j as int), limit as int, off as int) == 0);
                }
                break ;
            }
            proof {
                assert(rem.skip(j as int).len() > 0);
                assert(rem.skip(j as int)[0] == rem[j as int]);
                assert(rem[j as int] == lv[li as int + j]);
                assert(lines@[li as int + j]@ == lv[li as int + j]);
                assert(rem.skip(j as int).drop_first() =~= rem.skip(j as int + 1));
                assert(rem.take(j as int + 1) =~= rem.take(j as int).push(rem[j as int]));
                assert(rem.take(j as int + 1).flatten() == rem.take(j as int).flatten()
                    + rem[j as int]) by {
                    rem.take(j as int).lemma_flatten_push(rem[j as int]);
                }
                // the characters consumed so far never pass the whole text
                assert(lv.take(li as int + j + 1) =~= lv.take(li as int).add(
                    rem.take(j as int + 1),
                ));
                lemma_flatten_concat(lv.take(li as int), rem.take(j as int + 1));
                assert(lv =~= lv.take(li as int + j + 1) + lv.skip(li as int + j + 1));
                lemma_flatten_concat(lv.take(li as int + j + 1), lv.skip(li as int + j + 1));
                assert(lv.take(li as int + j + 1).flatten().len() <= total);
            }
            let line = &lines[li + j];
            let llen = line.as_str().unicode_len();
            chunk.append(line.as_str());
            off = off + llen;
            j = j + 1;
            if off > limit {
                proof {
                    assert(rem.skip(j as int - 1)[0] == rem[j as int - 1]);
                    assert(chunk_line_count(rem.skip(j as int - 1), limit as int, (off - llen) as int)
                        == 1);
                }
                break ;
            }
        }
        let ghost old_dv = out.deep_view();
        let ghost chv = chunk@;
        out.push(chunk);
        li = li + j;
        proof {
            assert(j == n);
            assert(out.deep_view() =~= old_dv.push(chv));
            assert(rem.take(n) =~= lv.skip(li as int - n).take(n));
            assert(pack_lines(rem, t as int, m, nmap as int, off0) == seq![rem.take(n).flatten()]
                + pack_lines(rem.skip(n), t as int, m + 1, nmap as int, off0 + rem.take(
                n,
            ).flatten().len()));
            assert(rem.skip(n) =~= lv.skip(li as int));
            assert(lv.take(li as int) =~= lv.take(li as int - n).add(rem.take(n)));
            lemma_flatten_concat(lv.take(li as int - n), rem.take(n));
            assert(out.deep_view() + pack_lines(
                lv.skip(li as int),
                t as int,
                m + 1,
                nmap as int,
                off as int,
            ) =~= old_dv + (seq![chv] + pack_lines(
                lv.skip(li as int),
                t as int,
                m + 1,
                nmap as int,
                off as int,
            )));
        }
    }
    // the last chunk absorbs every remaining line
    let ghost m = out.len() as int;
    let mut chunk = String::new();
    let ghost rem = lv.skip(li as int);
    let mut j: usize = 0;
    proof {
        assert(rem.take(0) =~= Seq::<Seq<char>>::empty());
        assert(rem.take(0).flatten() =~= Seq::<char>::empty());
    }
    while li + j < lines.len()
        invariant
            0 <= j,
            li + j <= lines.len(),
            lines.deep_view() == lv,
            rem == lv.skip(li as int),
            j <= rem.len(),
            chunk@ == rem.take(j as int).flatten(),
        decreases lines.len() - (li + j),
    {
        proof {
            assert(rem.skip(j as int).len() > 0);
            assert(rem[j as int] == lv[li as int + j]);
            assert(lines@[li as int + j]@ == lv[li as int + j]);
            assert(rem.take(j as int + 1) =~= rem.take(j as int).push(rem[j as int]));
            rem.take(j as int).lemma_flatten_push(rem[j as int]);
        }
        let line = &lines[li + j];
        chunk.append(line.as_str());
        j = j + 1;
    }
    let ghost old_dv = out.deep_view();
    let ghost chv = chunk@;
    out.push(chunk);
    proof {
        assert(rem.take(j as int) =~= rem);
        assert(chv == rem.flatten());
        assert(pack_lines(rem, t as int, m, nmap as int, off as int) == seq![rem.flatten()]);
        assert(out.deep_view() =~= old_dv.push(chv));
        assert(out.deep_view() =~= old_dv + seq![rem.flatten()]);
    }
    out
}

/// The pairs whose keys the hash routes to partition `r`, in emission order.
pub open spec fn pairs_for_partition(
    ps: Seq<(Seq<char>, Seq<char>)>,
    nreduce: int,
    r: int,
) -> Seq<(Seq<char>, Seq<char>)>
    decreases ps.len(),
{
    if ps.len() == 0 {
        seq![]
    } else {
        let rest = pairs_for_partition(ps.drop_last(), nreduce, r);
        if partition_spec(ps.last().0, nreduce as nat) == r {
            rest.push(ps.last())
        } else {
            rest
        }
    }
}

/// The intermediate texts one map task writes: for each partition, the
/// records of the pairs routed there, in emission order.
pub open spec fn do_map_spec(ps: Seq<(Seq<char>, Seq<char>)>, nreduce: int) -> Seq<Seq<char>> {
    Seq::new(nreduce as nat, |r: int| encode_pairs(pairs_for_partition(ps, nreduce, r)))
}

/// One more record extends the encoding at its end.
pub proof fn lemma_encode_pairs_push(ps: Seq<(Seq<char>, Seq<char>)>, p: (Seq<char>, Seq<char>))
    ensures
        encode_pairs(ps.push(p)) == encode_pairs(ps) + encode_pair(p),
    decreases ps.len(),
{
    if ps.len() == 0 {
        assert(ps.push(p)[0] == p);
        assert(ps.push(p).drop_first() =~= Seq::<(Seq<char>, Seq<char>)>::empty());
        assert(encode_pairs(ps.push(p).drop_first()) =~= Seq::<char>::empty());
        assert(encode_pairs(ps) =~= Seq::<char>::empty());
        assert(encode_pairs(ps.push(p)) =~= encode_pairs(ps) + encode_pair(p));
    } else {
        assert(ps.push(p)[0] == ps[0]);
        assert(ps.push(p).drop_first() =~= ps.drop_first().push(p));
        lemma_encode_pairs_push(ps.drop_first(), p);
        assert(encode_pair(ps[0]) + (encode_pairs(ps.drop_first()) + encode_pair(p)) =~= (
        encode_pair(ps[0]) + encode_pairs(ps.drop_first())) + encode_pair(p));
    }
}

/// Maps one chunk and routes every emitted pair, by the hash of its key, into
/// one intermediate text per partition, in emission order.
pub fn do_map<M: Mapper>(content: &str, nreduce: usize, mapper: &M) -> (r: Vec<String>)
    requires
        nreduce >= 1,
    ensures
        r.deep_view() == do_map_spec(mapper.map_spec(content@), nreduce as int),
        r.len() == nreduce,
{
    let pairs = mapper.apply(content);
    let ghost pv = pairs.deep_view();
    let mut outs: Vec<String> = Vec::new();
    let mut rr: usize = 0;
    while rr < nreduce
        invariant
            0 <= rr <= nreduce,
            nreduce >= 1,
            pairs.deep_view() == pv,
            pv == mapper.map_spec(content@),
            outs.len() == rr,
            forall|q: int|
                0 <= q < rr ==> outs.deep_view()[q] == encode_pairs(
                    pairs_for_partition(pv, nreduce as int, q),
                ),
        decreases nreduce - rr,
    {
        let mut buf = String::new();
        let mut j: usize = 0;
        proof {
            assert(pv.take(0) =~= Seq::<(Seq<char>, Seq<char>)>::empty());
            assert(buf@ =~= encode_pairs(pairs_for_partition(pv.take(0), nreduce as int, rr as int)));
        }
        while j < pairs.len()
            invariant
                0 <= j <= pairs.len(),
                0 <= rr < nreduce,
                pairs.deep_view() == pv,
                buf@ == encode_pairs(pairs_for_partition(pv.take(j as int), nreduce as int, rr as int)),
            decreases pairs.len() - j,
        {
            proof {
                assert(pairs@[j as int]@ == pv[j as int]);
                assert(pv.take(j as int + 1).drop_last() =~= pv.take(j as int));
                assert(pv.take(j as int + 1).last() == pv[j as int]);
            }
            let p = partition(pairs[j].key.as_str(), nreduce);
            if p == rr {
                append_pair(&mut buf, &pairs[j]);
                proof {
                    lemma_encode_pairs_push(
                        pairs_for_partition(pv.take(j as int), nreduce as int, rr as int),
                        pv[j as int],
                    );
                }
            }
            j = j + 1;
        }
        let ghost old_dv = outs.deep_view();
        let ghost bv = buf@;
        outs.push(buf);
        proof {
            assert(pv.take(pv.len() as int) =~= pv);
            assert(outs.deep_view() =~= old_dv.push(bv));
        }
        rr = rr + 1;
    }
    proof {
        assert(outs.deep_view() =~= do_map_spec(pv, nreduce as int));
    }
    outs
}

/// Whether every text parses: every line of every text is a record.
pub open spec fn all_ok(contents: Seq<Seq<char>>) -> bool {
    forall|i: int| 0 <= i < contents.len() ==> content_ok(#[trigger] contents[i])
}

/// The pairs of all the texts, text by text, line by line.
pub open spec fn concat_pairs(contents: Seq<Seq<char>>) -> Seq<(Seq<char>, Seq<char>)>
    decreases contents.len(),
{
    if contents.len() == 0 {
        seq![]
    } else {
        content_pairs(contents[0]) + concat_pairs(contents.drop_first())
    }
}

/// One more text appends its pairs at the end.
pub proof fn lemma_concat_pairs_push(contents: Seq<Seq<char>>, c: Seq<char>)
    ensures
        concat_pairs(contents.push(c)) == concat_pairs(contents) + content_pairs(c),
    decreases contents.len(),
{
    if contents.len() == 0 {
        assert(contents.push(c)[0] == c);
        assert(contents.push(c).drop_first() =~= Seq::<Seq<char>>::empty());
        assert(concat_pairs(contents.push(c).drop_first()) =~= Seq::<(Seq<char>, Seq<char>)>::empty());
        assert(concat_pairs(contents) =~= Seq::<(Seq<char>, Seq<char>)>::empty());
        assert(concat_pairs(contents.push(c)) =~= concat_pairs(contents) + content_pairs(c));
    } else {
        assert(contents.push(c)[0] == contents[0]);
        assert(contents.push(c).drop_first() =~= contents.drop_first().push(c));
        lemma_concat_pairs_push(contents.drop_first(), c);
        assert(content_pairs(contents[0]) + (concat_pairs(contents.drop_first()) + content_pairs(c))
            =~= (content_pairs(contents[0]) + concat_pairs(contents.drop_first())) + content_pairs(
            c,
        ));
    }
}

/// Grouping a concatenation is grouping the first part, then the second.
pub proof fn lemma_group_acc_concat(
    gs: Seq<(Seq<char>, Seq<Seq<char>>)>,
    a: Seq<(Seq<char>, Seq<char>)>,
    b: Seq<(Seq<char>, Seq<char>)>,
)
    ensures
        group_pairs_acc(gs, a + b) == group_pairs_acc(group_pairs_acc(gs, a), b),
    decreases a.len(),
{
    if a.len() == 0 {
        assert(a + b =~= b);
    } else {
        assert((a + b)[0] == a[0]);
        assert((a + b).drop_first() =~= a.drop_first() + b);
        lemma_group_acc_concat(insert_pair_spec(gs, a[0].0, a[0].1), a.drop_first(), b);
    }
}

/// The records of the reduced groups, in group order: one line per key.
pub open spec fn groups_output<R: Reducer>(
    gs: Seq<(Seq<char>, Seq<Seq<char>>)>,
    reducer: &R,
) -> Seq<char>
    decreases gs.len(),
{
    if gs.len() == 0 {
        seq![]
    } else {
        encode_pair((gs[0].0, reducer.reduce_spec(gs[0].0, gs[0].1))) + groups_output(
            gs.drop_first(),
            reducer,
        )
    }
}

/// Reads one partition's intermediate texts, groups every pair by key, and
/// reduces each key in key order. Fails exactly when some line of some text
/// is not a record.
pub fn do_reduce<R: Reducer>(inputs: &Vec<String>, reducer: &R) -> (r: Result<String, JobError>)
    ensures
        r is Ok <==> all_ok(inputs.deep_view()),
        r is Ok ==> r->Ok_0@ == groups_output(group_pairs(concat_pairs(inputs.deep_view())), reducer),
        r is Err ==> r->Err_0 == JobError::MalformedLine,
{
    let ghost dv = inputs.deep_view();
    let mut groups: Vec<Group> = Vec::new();
    let mut i: usize = 0;
    proof {
        assert(dv.take(0) =~= Seq::<Seq<char>>::empty());
        assert(concat_pairs(dv.take(0)) =~= Seq::<(Seq<char>, Seq<char>)>::empty());
        assert(groups.deep_view() =~= group_pairs_acc(
            seq![],
            concat_pairs(dv.take(0)),
        ));
    }
    while i < inputs.len()
        invariant
            0 <= i <= inputs.len(),
            inputs.deep_view() == dv,
            forall|q: int| 0 <= q < i ==> content_ok(#[trigger] dv[q]),
            groups.deep_view() == group_pairs(concat_pairs(dv.take(i as int))),
        decreases inputs.len() - i,
    {
        proof {
            assert(inputs@[i as int]@ == dv[i as int]);
        }
        let pairs = match parse_content(inputs[i].as_str()) {
            Some(ps) => ps,
            None => {
                proof {
                    assert(!content_ok(dv[i as int]));
                }
                return Err(JobError::MalformedLine);
            },
        };
        let ghost pv = pairs.deep_view();
        let ghost before = groups.deep_view();
        let mut j: usize = 0;
        proof {
            assert(pv.take(0) =~= Seq::<(Seq<char>, Seq<char>)>::empty());
            assert(group_pairs_acc(before, pv.take(0)) == before);
        }
        while j < pairs.len()
            invariant
                0 <= j <= pairs.len(),
                pairs.deep_view() == pv,
                groups.deep_view() == group_pairs_acc(before, pv.take(j as int)),
            decreases pairs.len() - j,
        {
            proof {
                assert(pairs@[j as int]@ == pv[j as int]);
                assert(pv.take(j as int + 1) =~= pv.take(j as int).push(pv[j as int]));
                lemma_group_acc_push(before, pv.take(j as int), pv[j as int]);
            }
            let key = pairs[j].key.clone();
            let value = pairs[j].value.clone();
            insert_pair(&mut groups, key, value);
            j = j + 1;
        }
        proof {
            assert(pv.take(pv.len() as int) =~= pv);
            assert(dv.take(i as int + 1) =~= dv.take(i as int).push(dv[i as int]));
            lemma_concat_pairs_push(dv.take(i as int), dv[i as int]);
            lemma_group_acc_concat(seq![], concat_pairs(dv.take(i as int)), pv);
        }
        i = i + 1;
    }
    proof {
        assert(dv.take(dv.len() as int) =~= dv);
        assert(all_ok(dv));
    }
    let ghost gs = groups.deep_view();
    let mut out = String::new();
    let mut g: usize = 0;
    proof {
        assert(gs.skip(0) =~= gs);
        assert(Seq::<char>::empty() + groups_output(gs, reducer) =~= groups_output(gs, reducer));
    }
    while g < groups.len()
        invariant
            0 <= g <= groups.len(),
            groups.deep_view() == gs,
            gs == group_pairs(concat_pairs(dv)),
            dv == inputs.deep_view(),
            all_ok(dv),
            groups_output(gs, reducer) == out@ + groups_output(gs.skip(g as int), reducer),
        decreases groups.len() - g,
    {
        proof {
            assert(groups@[g as int].deep_view() == gs[g as int]);
            assert(gs.skip(g as int)[0] == gs[g as int]);
            assert(gs.skip(g as int).drop_first() =~= gs.skip(g as int + 1));
        }
        let reduced = reducer.apply(groups[g].key.as_str(), &groups[g].values);
        let line = KeyValue { key: groups[g].key.clone(), value: reduced };
        append_pair(&mut out, &line);
        g = g + 1;
    }
    proof {
        assert(gs.skip(gs.len() as int).len() == 0);
        assert(groups_output(gs.skip(gs.len() as int), reducer) =~= Seq::<char>::empty());
        assert(out@ =~= groups_output(gs, reducer));
    }
    Ok(out)
}

/// The records of singleton groups: one line per key, carrying the one value.
pub open spec fn merged_output(gs: Seq<(Seq<char>, Seq<Seq<char>>)>) -> Seq<char>
    decreases gs.len(),
{
    if gs.len() == 0 {
        seq![]
    } else {
        encode_pair((gs[0].0, gs[0].1[0])) + merged_output(gs.drop_first())
    }
}

/// Whether every group holds exactly one value.
pub open spec fn all_single(gs: Seq<(Seq<char>, Seq<Seq<char>>)>) -> bool {
    forall|i: int| 0 <= i < gs.len() ==> (#[trigger] gs[i]).1.len() == 1
}

/// Combines the partial results into one text sorted by key. Fails on a line
/// that is not a record, and on a key that two partitions both produced.
pub fn merge(partials: &Vec<String>) -> (r: Result<String, JobError>)
    ensures
        r is Ok <==> all_ok(partials.deep_view()) && all_single(
            group_pairs(concat_pairs(partials.deep_view())),
        ),
        r is Ok ==> r->Ok_0@ == merged_output(group_pairs(concat_pairs(partials.deep_view()))),
        !all_ok(partials.deep_view()) ==> r == Err::<String, JobError>(JobError::MalformedLine),
        all_ok(partials.deep_view()) && !all_single(
            group_pairs(concat_pairs(partials.deep_view())),
        ) ==> r == Err::<String, JobError>(JobError::DuplicateKey),
{
    let ghost dv = partials.deep_view();
    let mut groups: Vec<Group> = Vec::new();
    let mut i: usize = 0;
    proof {
        assert(dv.take(0) =~= Seq::<Seq<char>>::empty());
        assert(concat_pairs(dv.take(0)) =~= Seq::<(Seq<char>, Seq<char>)>::empty());
        assert(groups.deep_view() =~= group_pairs_acc(
            seq![],
            concat_pairs(dv.take(0)),
        ));
    }
    while i < partials.len()
        invariant
            0 <= i <= partials.len(),
            partials.deep_view() == dv,
            forall|q: int| 0 <= q < i ==> content_ok(#[trigger] dv[q]),
            groups.deep_view() == group_pairs(concat_pairs(dv.take(i as int))),
        decreases partials.len() - i,
    {
        proof {
            assert(partials@[i as int]@ == dv[i as int]);
        }
        let pairs = match parse_content(partials[i].as_str()) {
            Some(ps) => ps,
            None => {
                proof {
                    assert(!content_ok(dv[i as int]));
                }
                return Err(JobError::MalformedLine);
            },
        };
        let ghost pv = pairs.deep_view();
        let ghost before = groups.deep_view();
        let mut j: usize = 0;
        proof {
            assert(pv.take(0) =~= Seq::<(Seq<char>, Seq<char>)>::empty());
            assert(group_pairs_acc(before, pv.take(0)) == before);
        }
        while j < pairs.len()
            invariant
                0 <= j <= pairs.len(),
                pairs.deep_view() == pv,
                groups.deep_view() == group_pairs_acc(before, pv.take(j as int)),
            decreases pairs.len() - j,
        {
            proof {
                assert(pairs@[j as int]@ == pv[j as int]);
                assert(pv.take(j as int + 1) =~= pv.take(j as int).push(pv[j as int]));
                lemma_group_acc_push(before, pv.take(j as int), pv[j as int]);
            }
            let key = pairs[j].key.clone();
            let value = pairs[j].value.clone();
            insert_pair(&mut groups, key, value);
            j = j + 1;
        }
        proof {
            assert(pv.take(pv.len() as int) =~= pv);
            assert(dv.take(i as int + 1) =~= dv.take(i as int).push(dv[i as int]));
            lemma_concat_pairs_push(dv.take(i as int), dv[i as int]);
            lemma_group_acc_concat(seq![], concat_pairs(dv.take(i as int)), pv);
        }
        i = i + 1;
    }
    proof {
        assert(dv.take(dv.len() as int) =~= dv);
        assert(all_ok(dv));
    }
    let ghost gs = groups.deep_view();
    let mut out = String::new();
    let mut g: usize = 0;
    proof {
        assert(gs.skip(0) =~= gs);
        assert(Seq::<char>::empty() + merged_output(gs) =~= merged_output(gs));
    }
    while g < groups.len()
        invariant
            0 <= g <= groups.len(),
            groups.deep_view() == gs,
            gs == group_pairs(concat_pairs(dv)),
            dv == partials.deep_view(),
            all_ok(dv),
            forall|q: int| 0 <= q < g ==> (#[trigger] gs[q]).1.len() == 1,
            merged_output(gs) == out@ + merged_output(gs.skip(g as int)),
        decreases groups.len() - g,
    {
        proof {
            assert(groups@[g as int].deep_view() == gs[g as int]);
            assert(gs.skip(g as int)[0] == gs[g as int]);
            assert(gs.skip(g as int).drop_first() =~= gs.skip(g as int + 1));
        }
        if groups[g].values.len() != 1 {
            proof {
                assert(gs[g as int].1.len() != 1);
            }
            return Err(JobError::DuplicateKey);
        }
        let value = groups[g].values[0].clone();
        proof {
            assert(value@ == gs[g as int].1[0]);
        }
        let line = KeyValue { key: groups[g].key.clone(), value };
        append_pair(&mut out, &line);
        g = g + 1;
    }
    proof {
        assert(gs.skip(gs.len() as int).len() == 0);
        assert(merged_output(gs.skip(gs.len() as int)) =~= Seq::<char>::empty());
        assert(out@ =~= merged_output(gs));
        assert(all_single(gs));
    }
    Ok(out)
}

/// The intermediate texts of a whole run: for each chunk, the texts its map
/// task writes, one per partition.
pub open spec fn intermediates_spec<M: Mapper>(
    chunks: Seq<Seq<char>>,
    nreduce: int,
    mapper: &M,
) -> Seq<Seq<Seq<char>>> {
    Seq::new(chunks.len(), |m: int| do_map_spec(mapper.map_spec(chunks[m]), nreduce))
}

/// The texts partition `r`'s reduce task reads: one per map task.
pub open spec fn partition_inputs(inter: Seq<Seq<Seq<char>>>, r: int) -> Seq<Seq<char>> {
    Seq::new(inter.len(), |m: int| inter[m][r])
}

/// Runs the whole job on `content`: split, every map task in index order,
/// every reduce task in index order, then the merge. Everything each phase
/// wrote comes back in the output; the caller owns the files.
pub fn run_single<M: Mapper, R: Reducer>(
    nmap: usize,
    nreduce: usize,
    content: &str,
    mapper: &M,
    reducer: &R,
) -> (r: Result<JobOutput, JobError>)
    ensures
        (nmap == 0 || nreduce == 0) <==> r == Err::<JobOutput, JobError>(JobError::InvalidConfig),
        nmap >= 1 && nreduce >= 1 ==> r is Ok,
        r is Ok ==> {
            let out = r->Ok_0;
            let chunks = split_spec(content@, nmap as int);
            let inter = intermediates_spec(chunks, nreduce as int, mapper);
            &&& out.map_inputs.deep_view() == chunks
            &&& out.map_inputs.len() == nmap
            &&& out.intermediates.len() == nmap
            &&& forall|m: int|
                0 <= m < nmap ==> (#[trigger] out.intermediates@[m]).deep_view() == inter[m]
            &&& out.partials.len() == nreduce
            &&& forall|q: int|
                0 <= q < nreduce ==> out.partials.deep_view()[q] == groups_output(
                    group_pairs(concat_pairs(partition_inputs(inter, q))),
                    reducer,
                )
            &&& out.result@ == merged_output(
                group_pairs(concat_pairs(out.partials.deep_view())),
            )
        },
{
    if nmap == 0 || nreduce == 0 {
        return Err(JobError::InvalidConfig);
    }
    let map_inputs = split(content, nmap);
    let ghost chunks = split_spec(content@, nmap as int);
    let ghost inter = intermediates_spec(chunks, nreduce as int, mapper);

    let mut intermediates: Vec<Vec<String>> = Vec::new();
    let mut m: usize = 0;
    while m < nmap
        invariant
            0 <= m <= nmap,
            nmap >= 1,
            nreduce >= 1,
            map_inputs.deep_view() == chunks,
            map_inputs.len() == nmap,
            chunks == split_spec(content@, nmap as int),
            inter == intermediates_spec(chunks, nreduce as int, mapper),
            intermediates.len() == m,
            forall|q: int|
                0 <= q < m ==> (#[trigger] intermediates@[q]).deep_view() == inter[q],
        decreases nmap - m,
    {
        proof {
            assert(map_inputs@[m as int]@ == chunks[m as int]);
        }
        let inter_m = do_map(map_inputs[m].as_str(), nreduce, mapper);
        let ghost imv = inter_m.deep_view();
        intermediates.push(inter_m);
        proof {
            assert(inter[m as int] == do_map_spec(mapper.map_spec(chunks[m as int]), nreduce as int));
            assert(intermediates@[m as int].deep_view() == imv);
        }
        m = m + 1;
    }

    let mut partials: Vec<String> = Vec::new();
    let mut q: usize = 0;
    while q < nreduce
        invariant
            0 <= q <= nreduce,
            nmap >= 1,
            nreduce >= 1,
            intermediates.len() == nmap,
            forall|mm: int|
                0 <= mm < nmap ==> (#[trigger] intermediates@[mm]).deep_view() == inter[mm],
            inter == intermediates_spec(chunks, nreduce as int, mapper),
            inter.len() == nmap,
            partials.len() == q,
            forall|p: int|
                0 <= p < q ==> partials.deep_view()[p] == groups_output(
                    group_pairs(concat_pairs(partition_inputs(inter, p))),
                    reducer,
                ),
        decreases nreduce - q,
    {
        // gather the intermediate text of every map task for this partition
        let mut slice: Vec<String> = Vec::new();
        let mut mm: usize = 0;
        while mm < nmap
            invariant
                0 <= mm <= nmap,
                0 <= q < nreduce,
                intermediates.len() == nmap,
                forall|m2: int|
                    0 <= m2 < nmap ==> (#[trigger] intermediates@[m2]).deep_view() == inter[m2],
                inter == intermediates_spec(chunks, nreduce as int, mapper),
                inter.len() == nmap,
                slice.len() == mm,
                forall|m2: int|
                    0 <= m2 < mm ==> slice.deep_view()[m2] == partition_inputs(inter, q as int)[m2],
            decreases nmap - mm,
        {
            proof {
                assert(intermediates@[mm as int].deep_view() == inter[mm as int]);
                assert(inter[mm as int].len() == nreduce) by {
                    assert(inter[mm as int] == do_map_spec(
                        mapper.map_spec(chunks[mm as int]),
                        nreduce as int,
                    ));
                }
                assert(intermediates@[mm as int]@[q as int]@ == inter[mm as int][q as int]);
            }
            let one = intermediates[mm][q].clone();
            let ghost old_dv = slice.deep_view();
            let ghost ov = one@;
            slice.push(one);
            proof {
                assert(slice.deep_view() =~= old_dv.push(ov));
                assert(partition_inputs(inter, q as int)[mm as int] == inter[mm as int][q as int]);
            }
            mm = mm + 1;
        }
        proof {
            assert(slice.deep_view() =~= partition_inputs(inter, q as int));
        }
        let partial = match do_reduce(&slice, reducer) {
            Ok(p) => p,
            Err(e) => {
                proof {
                    crate::laws::theorem_no_malformed(chunks, nreduce as int, q as int, mapper, reducer);
                    assert(false);
                }
                return Err(e);
            },
        };
        let ghost old_pv = partials.deep_view();
        let ghost pav = partial@;
        partials.push(partial);
        proof {
            assert(partials.deep_view() =~= old_pv.push(pav));
        }
        q = q + 1;
    }

    let ghost pv = partials.deep_view();
    let result = match merge(&partials) {
        Ok(res) => res,
        Err(e) => {
            proof {
                assert(pv =~= crate::laws::partials_spec(chunks, nreduce as int, mapper, reducer));
                assert forall|p: int| 0 <= p < pv.len() implies content_ok(#[trigger] pv[p]) by {
                    crate::laws::theorem_no_malformed(chunks, nreduce as int, p, mapper, reducer);
                }
                assert(all_ok(pv));
                crate::laws::theorem_no_duplicate_keys(chunks, nreduce as int, mapper, reducer);
                assert(false);
            }
            return Err(e);
        },
    };
    Ok(JobOutput { map_inputs, intermediates, partials, result })
}

} // verus!
