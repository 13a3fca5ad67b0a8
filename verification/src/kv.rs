//! Key/value pairs and the line-oriented record format.
//!
//! Every record is one line `key value\n`: the two fields separated by one
//! space, neither field empty, neither holding whitespace. Encoding writes
//! pairs in order; parsing accepts exactly the lines that split into two
//! whitespace-separated tokens.

use crate::text::is_space;
use crate::text::lines_acc;
use crate::text::lines_of;
use crate::text::split_lines;
use crate::text::tokens_acc;
use crate::text::tokens_of;
use crate::text::ws_tokens;
use vstd::prelude::*;
use vstd::string::StringExecFns;

verus! {

/// One key/value pair, as emitted by a map function. No uniqueness is asked
/// of keys at emission time.
pub struct KeyValue {
    pub key: String,
    pub value: String,
}

impl View for KeyValue {
    type V = (Seq<char>, Seq<char>);

    open spec fn view(&self) -> (Seq<char>, Seq<char>) {
        (self.key@, self.value@)
    }
}

impl DeepView for KeyValue {
    type V = (Seq<char>, Seq<char>);

    open spec fn deep_view(&self) -> (Seq<char>, Seq<char>) {
        self.view()
    }
}

/// Whether a field may stand in a record: nonempty and free of whitespace.
pub open spec fn wf_field(s: Seq<char>) -> bool {
    s.len() > 0 && forall|i: int| 0 <= i < s.len() ==> !is_space(#[trigger] s[i])
}

/// Whether both fields of a pair may stand in a record.
pub open spec fn wf_pair(p: (Seq<char>, Seq<char>)) -> bool {
    wf_field(p.0) && wf_field(p.1)
}

/// The one line that carries a pair, without its terminator.
pub open spec fn line_of_pair(p: (Seq<char>, Seq<char>)) -> Seq<char> {
    p.0 + seq![' '] + p.1
}

/// The record for one pair: its line and the terminator.
pub open spec fn encode_pair(p: (Seq<char>, Seq<char>)) -> Seq<char> {
    line_of_pair(p) + seq!['\n']
}

/// The records for a sequence of pairs, in order.
pub open spec fn encode_pairs(ps: Seq<(Seq<char>, Seq<char>)>) -> Seq<char>
    decreases ps.len(),
{
    if ps.len() == 0 {
        seq![]
    } else {
        encode_pair(ps[0]) + encode_pairs(ps.drop_first())
    }
}

/// Whether a line parses as a record: exactly two tokens.
pub open spec fn line_ok(l: Seq<char>) -> bool {
    ws_tokens(l).len() == 2
}

/// The pair a record line carries.
pub open spec fn pair_of_line(l: Seq<char>) -> (Seq<char>, Seq<char>) {
    (ws_tokens(l)[0], ws_tokens(l)[1])
}

/// Whether a whole text parses: every line is a record.
pub open spec fn content_ok(c: Seq<char>) -> bool {
    forall|i: int| 0 <= i < split_lines(c).len() ==> line_ok(#[trigger] split_lines(c)[i])
}

/// The pairs a text carries, line by line.
pub open spec fn content_pairs(c: Seq<char>) -> Seq<(Seq<char>, Seq<char>)> {
    split_lines(c).map_values(|l: Seq<char>| pair_of_line(l))
}

/// Appends the record for `kv` to `out`.
pub fn append_pair(out: &mut String, kv: &KeyValue) -> (u: ())
    ensures
        final(out)@ == old(out)@ + encode_pair(kv@),
{
    proof {
        reveal_strlit(" ");
        reveal_strlit("\n");
    }
    out.append(kv.key.as_str());
    out.append(" ");
    out.append(kv.value.as_str());
    out.append("\n");
    proof {
        assert(" "@ =~= seq![' ']);
        assert("\n"@ =~= seq!['\n']);
        assert(final(out)@ =~= old(out)@ + encode_pair(kv@));
    }
}

/// Parses one record line: exactly two whitespace-separated tokens, the key
/// and the value.
pub fn parse_line(line: &str) -> (r: Option<KeyValue>)
    ensures
        r is Some <==> line_ok(line@),
        r is Some ==> r->0@ == pair_of_line(line@),
{
    let mut toks = tokens_of(line);
    if toks.len() == 2 {
        let value = match toks.pop() {
            Some(v) => v,
            None => {
                proof {
                    assert(false);
                }
                return None;
            },
        };
        let key = match toks.pop() {
            Some(k) => k,
            None => {
                proof {
                    assert(false);
                }
                return None;
            },
        };
        Some(KeyValue { key, value })
    } else {
        None
    }
}

/// Parses a whole text: one record per line. Returns the pairs exactly when
/// every line is a record.
pub fn parse_content(c: &str) -> (r: Option<Vec<KeyValue>>)
    ensures
        r is Some <==> content_ok(c@),
        r is Some ==> r->0.deep_view() == content_pairs(c@),
{
    let lines = lines_of(c);
    let ghost ls = split_lines(c@);
    let mut out: Vec<KeyValue> = Vec::new();
    let mut i: usize = 0;
    proof {
        assert(out.deep_view() =~= Seq::<(Seq<char>, Seq<char>)>::empty());
    }
    while i < lines.len()
        invariant
            0 <= i <= lines.len(),
            lines.deep_view() == ls,
            ls == split_lines(c@),
            forall|j: int| 0 <= j < i ==> line_ok(#[trigger] ls[j]),
            out.deep_view() =~= ls.take(i as int).map_values(|l: Seq<char>| pair_of_line(l)),
        decreases lines.len() - i,
    {
        let kv = match parse_line(lines[i].as_str()) {
            Some(kv) => kv,
            None => {
                proof {
                    assert(lines@[i as int]@ == lines.deep_view()[i as int]);
                    assert(!line_ok(ls[i as int]));
                }
                return None;
            },
        };
        let ghost old_dv = out.deep_view();
        out.push(kv);
        proof {
            assert(lines[i as int]@ == ls[i as int]);
            assert(out.deep_view() =~= old_dv.push(kv@));
            assert(out.deep_view() =~= ls.take(i as int + 1).map_values(
                |l: Seq<char>| pair_of_line(l),
            ));
        }
        i = i + 1;
    }
    proof {
        assert(ls.take(ls.len() as int) =~= ls);
    }
    Some(out)
}

/// A run of non-whitespace characters extends the token in progress.
pub proof fn lemma_tokens_nonspace_prefix(w: Seq<char>, s: Seq<char>, cur: Seq<char>)
    requires
        forall|i: int| 0 <= i < w.len() ==> !is_space(#[trigger] w[i]),
    ensures
        tokens_acc(w + s, cur) == tokens_acc(s, cur + w),
    decreases w.len(),
{
    if w.len() == 0 {
        assert(w + s =~= s);
        assert(cur + w =~= cur);
    } else {
        assert((w + s)[0] == w[0]);
        assert((w + s).drop_first() =~= w.drop_first() + s);
        lemma_tokens_nonspace_prefix(w.drop_first(), s, cur.push(w[0]));
        assert(cur.push(w[0]) + w.drop_first() =~= cur + w);
    }
}

/// A run of characters without a line feed extends the line in progress.
pub proof fn lemma_lines_nonnl_prefix(w: Seq<char>, s: Seq<char>, cur: Seq<char>)
    requires
        forall|i: int| 0 <= i < w.len() ==> #[trigger] w[i] != '\n',
    ensures
        lines_acc(w + s, cur) == lines_acc(s, cur + w),
    decreases w.len(),
{
    if w.len() == 0 {
        assert(w + s =~= s);
        assert(cur + w =~= cur);
    } else {
        assert((w + s)[0] == w[0]);
        assert((w + s).drop_first() =~= w.drop_first() + s);
        lemma_lines_nonnl_prefix(w.drop_first(), s, cur.push(w[0]));
        assert(cur.push(w[0]) + w.drop_first() =~= cur + w);
    }
}

/// The line of a well-formed pair splits back into its two fields.
pub proof fn lemma_line_tokens(k: Seq<char>, v: Seq<char>)
    requires
        wf_field(k),
        wf_field(v),
    ensures
        ws_tokens(line_of_pair((k, v))) == seq![k, v],
{
    let mid = seq![' '] + v;
    assert(line_of_pair((k, v)) =~= k + mid);
    lemma_tokens_nonspace_prefix(k, mid, seq![]);
    assert(Seq::<char>::empty() + k =~= k);
    assert(mid[0] == ' ');
    assert(mid.drop_first() =~= v);
    assert(tokens_acc(mid, k) == seq![k] + tokens_acc(v, seq![]));
    assert(v + Seq::<char>::empty() =~= v);
    lemma_tokens_nonspace_prefix(v, seq![], seq![]);
    assert(Seq::<char>::empty() + v =~= v);
    assert(tokens_acc(v, seq![]) == tokens_acc(Seq::<char>::empty(), v));
    assert(tokens_acc(Seq::<char>::empty(), v) =~= seq![v]);
    assert(seq![k] + seq![v] =~= seq![k, v]);
}

/// The encoding of well-formed pairs splits back into one line per pair.
pub proof fn lemma_encode_lines(ps: Seq<(Seq<char>, Seq<char>)>)
    requires
        forall|i: int| 0 <= i < ps.len() ==> wf_pair(#[trigger] ps[i]),
    ensures
        split_lines(encode_pairs(ps)) == ps.map_values(|p: (Seq<char>, Seq<char>)| line_of_pair(p)),
    decreases ps.len(),
{
    let f = |p: (Seq<char>, Seq<char>)| line_of_pair(p);
    if ps.len() == 0 {
        assert(encode_pairs(ps) =~= Seq::<char>::empty());
        assert(split_lines(Seq::<char>::empty()) =~= Seq::<Seq<char>>::empty());
        assert(ps.map_values(f) =~= Seq::<Seq<char>>::empty());
    } else {
        let p = ps[0];
        let w = line_of_pair(p);
        let rest = encode_pairs(ps.drop_first());
        assert(encode_pairs(ps) == encode_pair(p) + rest);
        assert(encode_pair(p) + rest =~= w + (seq!['\n'] + rest));
        assert(forall|i: int| 0 <= i < w.len() ==> #[trigger] w[i] != '\n') by {
            assert(wf_pair(p));
            assert(forall|i: int| 0 <= i < p.0.len() ==> !is_space(#[trigger] p.0[i]));
            assert(forall|i: int| 0 <= i < p.1.len() ==> !is_space(#[trigger] p.1[i]));
            assert(forall|i: int|
                0 <= i < w.len() ==> #[trigger] w[i] == (if i < p.0.len() {
                    p.0[i]
                } else if i == p.0.len() {
                    ' '
                } else {
                    p.1[i - p.0.len() - 1]
                }));
        }
        lemma_lines_nonnl_prefix(w, seq!['\n'] + rest, seq![]);
        assert(Seq::<char>::empty() + w =~= w);
        assert((seq!['\n'] + rest)[0] == '\n');
        assert((seq!['\n'] + rest).drop_first() =~= rest);
        assert(lines_acc(seq!['\n'] + rest, w) == seq![w] + lines_acc(rest, seq![]));
        assert(forall|i: int| 0 <= i < ps.drop_first().len() ==> wf_pair(#[trigger] ps.drop_first()[i]));
        lemma_encode_lines(ps.drop_first());
        assert(ps.map_values(f) =~= seq![w] + ps.drop_first().map_values(f));
        assert(split_lines(encode_pairs(ps)) == seq![w] + ps.drop_first().map_values(f));
    }
}

/// Round trip: parsing the encoding of well-formed pairs gives the pairs back,
/// keys, values and order intact.
pub proof fn lemma_round_trip(ps: Seq<(Seq<char>, Seq<char>)>)
    requires
        forall|i: int| 0 <= i < ps.len() ==> wf_pair(#[trigger] ps[i]),
    ensures
        content_ok(encode_pairs(ps)),
        content_pairs(encode_pairs(ps)) == ps,
{
    let f = |p: (Seq<char>, Seq<char>)| line_of_pair(p);
    lemma_encode_lines(ps);
    let ls = split_lines(encode_pairs(ps));
    assert forall|i: int| 0 <= i < ls.len() implies line_ok(#[trigger] ls[i]) by {
        assert(ls[i] == line_of_pair(ps[i]));
        lemma_line_tokens(ps[i].0, ps[i].1);
    }
    assert forall|i: int| 0 <= i < ls.len() implies #[trigger] content_pairs(encode_pairs(ps))[i]
        == ps[i] by {
        assert(ls[i] == line_of_pair(ps[i]));
        lemma_line_tokens(ps[i].0, ps[i].1);
        assert(pair_of_line(ls[i]) == (ps[i].0, ps[i].1));
    }
    assert(content_pairs(encode_pairs(ps)) =~= ps);
}

} // verus!
