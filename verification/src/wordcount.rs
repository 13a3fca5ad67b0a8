//! The pluggable map and reduce functions, and the word count that fills them.
//!
//! The pipeline invokes the two through capability interfaces: a `Mapper`
//! turns a chunk of text into key/value pairs, a `Reducer` turns a key and
//! its values into one aggregate value. Any conforming implementation is
//! substitutable; the word count maps each token to `(token, "1")` and
//! reduces by summing the numeric values.

use crate::chars::alphanumeric_char;
use crate::chars::is_alphanumeric_char;
use crate::kv::KeyValue;
use crate::kv::wf_field;
use crate::kv::wf_pair;
use crate::num::dec_digits;
use crate::num::is_numeral;
use crate::num::lemma_dec_digits_numeral;
use crate::num::numeral_val;
use crate::num::parse_u64;
use crate::num::u64_to_string;
use crate::text::is_space;
use crate::text::tokens_of;
use crate::text::ws_tokens;
use vstd::prelude::*;
use vstd::string::StrSliceExecFns;
use vstd::string::StringExecFns;

verus! {

/// A map function: chunk text in, key/value pairs out. Every pair emitted
/// must be able to stand in a record: nonempty fields, free of whitespace.
pub trait Mapper {
    /// What the map function returns, as a function of the chunk text alone.
    spec fn map_spec(&self, content: Seq<char>) -> Seq<(Seq<char>, Seq<char>)>;

    /// Every emitted pair fits the record format.
    proof fn map_spec_wf(&self, content: Seq<char>)
        ensures
            forall|i: int|
                0 <= i < self.map_spec(content).len() ==> wf_pair(
                    #[trigger] self.map_spec(content)[i],
                ),
    ;

    /// Runs the map function on one chunk.
    fn apply(&self, content: &str) -> (r: Vec<KeyValue>)
        ensures
            r.deep_view() == self.map_spec(content@),
    ;
}

/// A reduce function: a key and its values in, one aggregate value out. The
/// aggregate must be able to stand in a record.
pub trait Reducer {
    /// What the reduce function returns, as a function of key and values.
    spec fn reduce_spec(&self, key: Seq<char>, values: Seq<Seq<char>>) -> Seq<char>;

    /// The aggregate fits the record format.
    proof fn reduce_spec_wf(&self, key: Seq<char>, values: Seq<Seq<char>>)
        ensures
            wf_field(self.reduce_spec(key, values)),
    ;

    /// Runs the reduce function on one key.
    fn apply(&self, key: &str, values: &Vec<String>) -> (r: String)
        ensures
            r@ == self.reduce_spec(key@, values.deep_view()),
    ;
}

/// Whether the word count keeps a character of a token.
pub open spec fn keep_char(c: char) -> bool {
    is_alphanumeric_char(c) && !is_space(c)
}

/// A token stripped to its kept characters.
pub open spec fn clean_token(t: Seq<char>) -> Seq<char>
    decreases t.len(),
{
    if t.len() == 0 {
        seq![]
    } else {
        let rest = clean_token(t.drop_last());
        if keep_char(t.last()) {
            rest.push(t.last())
        } else {
            rest
        }
    }
}

/// The value attached to every occurrence of a token.
pub open spec fn one_text() -> Seq<char> {
    seq!['1']
}

/// The word-count pairs for a token list: `(token, "1")` for each token that
/// is nonempty once stripped, in order.
pub open spec fn wc_pairs(toks: Seq<Seq<char>>) -> Seq<(Seq<char>, Seq<char>)>
    decreases toks.len(),
{
    if toks.len() == 0 {
        seq![]
    } else {
        let rest = wc_pairs(toks.drop_last());
        let c = clean_token(toks.last());
        if c.len() > 0 {
            rest.push((c, one_text()))
        } else {
            rest
        }
    }
}

/// What the word-count map emits for a chunk.
pub open spec fn wc_map_spec(content: Seq<char>) -> Seq<(Seq<char>, Seq<char>)> {
    wc_pairs(ws_tokens(content))
}

/// No kept character is whitespace.
pub proof fn lemma_clean_token_wf(t: Seq<char>)
    ensures
        forall|i: int| 0 <= i < clean_token(t).len() ==> !is_space(#[trigger] clean_token(t)[i]),
    decreases t.len(),
{
    if t.len() > 0 {
        lemma_clean_token_wf(t.drop_last());
        let rest = clean_token(t.drop_last());
        if keep_char(t.last()) {
            assert forall|i: int| 0 <= i < clean_token(t).len() implies !is_space(
                #[trigger] clean_token(t)[i],
            ) by {
                if i < rest.len() {
                    assert(clean_token(t)[i] == rest[i]);
                }
            }
        }
    }
}

/// Every word-count pair fits the record format.
pub proof fn lemma_wc_pairs_wf(toks: Seq<Seq<char>>)
    ensures
        forall|i: int| 0 <= i < wc_pairs(toks).len() ==> wf_pair(#[trigger] wc_pairs(toks)[i]),
    decreases toks.len(),
{
    if toks.len() > 0 {
        lemma_wc_pairs_wf(toks.drop_last());
        let rest = wc_pairs(toks.drop_last());
        let c = clean_token(toks.last());
        if c.len() > 0 {
            lemma_clean_token_wf(toks.last());
            assert(wf_field(c));
            assert(wf_field(one_text()));
            assert(wf_pair((c, one_text())));
            assert forall|i: int| 0 <= i < wc_pairs(toks).len() implies wf_pair(
                #[trigger] wc_pairs(toks)[i],
            ) by {
                if i < rest.len() {
                    assert(wc_pairs(toks)[i] == rest[i]);
                }
            }
        }
    }
}

/// Strips a token to its kept characters.
fn clean_token_exec(t: &str) -> (r: String)
    ensures
        r@ == clean_token(t@),
{
    let len = t.unicode_len();
    let mut r = String::new();
    let mut i: usize = 0;
    proof {
        assert(t@.take(0) =~= Seq::<char>::empty());
    }
    while i < len
        invariant
            0 <= i <= len,
            len == t@.len(),
            r@ == clean_token(t@.take(i as int)),
        decreases len - i,
    {
        let c = t.get_char(i);
        let keep = alphanumeric_char(c);
        proof {
            assert(keep == keep_char(c));
            assert(t@.take(i as int + 1).drop_last() =~= t@.take(i as int));
            assert(t@.take(i as int + 1).last() == c);
        }
        if keep {
            let piece = t.substring_char(i, i + 1);
            r.append(piece);
            proof {
                assert(piece@ =~= seq![c]);
                assert(r@ =~= clean_token(t@.take(i as int)).push(c));
            }
        }
        i = i + 1;
    }
    proof {
        assert(t@.take(len as int) =~= t@);
    }
    r
}

/// The word count: the reference map and reduce functions.
pub struct WordCount;

impl Mapper for WordCount {
    open spec fn map_spec(&self, content: Seq<char>) -> Seq<(Seq<char>, Seq<char>)> {
        wc_map_spec(content)
    }

    proof fn map_spec_wf(&self, content: Seq<char>) {
        lemma_wc_pairs_wf(ws_tokens(content));
    }

    fn apply(&self, content: &str) -> (r: Vec<KeyValue>) {
        let toks = tokens_of(content);
        let ghost tv = toks.deep_view();
        let mut out: Vec<KeyValue> = Vec::new();
        let mut i: usize = 0;
        proof {
            assert(tv.take(0) =~= Seq::<Seq<char>>::empty());
            assert(out.deep_view() =~= wc_pairs(tv.take(0)));
        }
        while i < toks.len()
            invariant
                0 <= i <= toks.len(),
                toks.deep_view() == tv,
                tv == ws_tokens(content@),
                out.deep_view() == wc_pairs(tv.take(i as int)),
            decreases toks.len() - i,
        {
            proof {
                assert(toks@[i as int]@ == tv[i as int]);
                assert(tv.take(i as int + 1).drop_last() =~= tv.take(i as int));
                assert(tv.take(i as int + 1).last() == tv[i as int]);
            }
            let cleaned = clean_token_exec(toks[i].as_str());
            if cleaned.as_str().unicode_len() > 0 {
                let ghost old_dv = out.deep_view();
                let ghost ck = cleaned@;
                proof {
                    reveal_strlit("1");
                }
                let one = String::from_str("1");
                proof {
                    assert(one@ =~= one_text());
                }
                out.push(KeyValue { key: cleaned, value: one });
                proof {
                    assert(out.deep_view() =~= old_dv.push((ck, one_text())));
                }
            }
            i = i + 1;
        }
        proof {
            assert(tv.take(tv.len() as int) =~= tv);
        }
        out
    }
}

/// The value one text denotes to the word count: its numeral's value, or zero
/// where the text is not a numeral that fits in 64 bits.
pub open spec fn parse_val(v: Seq<char>) -> u64 {
    if is_numeral(v) && numeral_val(v) <= u64::MAX {
        numeral_val(v) as u64
    } else {
        0
    }
}

/// Saturating sum of the values of a value list, in order.
pub open spec fn sum_values(vs: Seq<Seq<char>>) -> u64
    decreases vs.len(),
{
    if vs.len() == 0 {
        0
    } else {
        let rest = sum_values(vs.drop_last());
        if rest + parse_val(vs.last()) > u64::MAX {
            u64::MAX
        } else {
            (rest + parse_val(vs.last())) as u64
        }
    }
}

/// What the word-count reduce returns: the numeral of the sum.
pub open spec fn wc_reduce_spec(key: Seq<char>, values: Seq<Seq<char>>) -> Seq<char> {
    dec_digits(sum_values(values) as nat)
}

/// Sums the numeric values attached to a key and renders the sum. A value
/// that is not a 64-bit numeral counts as zero; the sum saturates.
pub fn reduce(key: &str, values: &Vec<String>) -> (r: String)
    ensures
        r@ == wc_reduce_spec(key@, values.deep_view()),
{
    let ghost vv = values.deep_view();
    let mut sum: u64 = 0;
    let mut i: usize = 0;
    proof {
        assert(vv.take(0) =~= Seq::<Seq<char>>::empty());
    }
    while i < values.len()
        invariant
            0 <= i <= values.len(),
            values.deep_view() == vv,
            sum == sum_values(vv.take(i as int)),
        decreases values.len() - i,
    {
        proof {
            assert(values@[i as int]@ == vv[i as int]);
            assert(vv.take(i as int + 1).drop_last() =~= vv.take(i as int));
            assert(vv.take(i as int + 1).last() == vv[i as int]);
        }
        let v: u64 = match parse_u64(values[i].as_str()) {
            Some(n) => n,
            None => 0,
        };
        proof {
            assert(v == parse_val(vv[i as int]));
        }
        sum = sum.saturating_add(v);
        i = i + 1;
    }
    proof {
        assert(vv.take(vv.len() as int) =~= vv);
    }
    u64_to_string(sum)
}

impl Reducer for WordCount {
    open spec fn reduce_spec(&self, key: Seq<char>, values: Seq<Seq<char>>) -> Seq<char> {
        wc_reduce_spec(key, values)
    }

    proof fn reduce_spec_wf(&self, key: Seq<char>, values: Seq<Seq<char>>) {
        let n = sum_values(values) as nat;
        lemma_dec_digits_numeral(n);
        assert(wf_field(dec_digits(n))) by {
            assert(forall|i: int|
                0 <= i < dec_digits(n).len() ==> crate::num::is_digit_char(
                    #[trigger] dec_digits(n)[i],
                ));
        }
    }

    fn apply(&self, key: &str, values: &Vec<String>) -> (r: String) {
        reduce(key, values)
    }
}

} // verus!
