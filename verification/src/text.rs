//! Lines and whitespace-separated tokens.
//!
//! Every file the pipeline writes is line-oriented: one record per line, the
//! fields of a record separated by whitespace. Whitespace here is the ASCII
//! whitespace characters.

use vstd::prelude::*;
use vstd::string::StrSliceExecFns;
use vstd::string::StringExecFns;

verus! {

/// The ASCII whitespace characters: the separators of this library's record
/// format and of the word-count tokenizer.
pub open spec fn is_space(c: char) -> bool {
    c == ' ' || c == '\t' || c == '\n' || c == '\r' || c == '\x0B' || c == '\x0C'
}

/// Decides `is_space`.
pub fn space_char(c: char) -> (r: bool)
    ensures
        r == is_space(c),
{
    c == ' ' || c == '\t' || c == '\n' || c == '\r' || c == '\x0B' || c == '\x0C'
}

/// The whitespace-separated tokens of `s` after the partial token `cur`:
/// whitespace ends the token in progress, every other character extends it,
/// and a token in progress at the end is yielded.
pub open spec fn tokens_acc(s: Seq<char>, cur: Seq<char>) -> Seq<Seq<char>>
    decreases s.len(),
{
    if s.len() == 0 {
        if cur.len() == 0 {
            seq![]
        } else {
            seq![cur]
        }
    } else if is_space(s[0]) {
        if cur.len() == 0 {
            tokens_acc(s.drop_first(), seq![])
        } else {
            seq![cur] + tokens_acc(s.drop_first(), seq![])
        }
    } else {
        tokens_acc(s.drop_first(), cur.push(s[0]))
    }
}

/// The whitespace-separated tokens of `s`: the maximal nonempty runs of
/// non-whitespace characters, in order.
pub open spec fn ws_tokens(s: Seq<char>) -> Seq<Seq<char>> {
    tokens_acc(s, seq![])
}

/// The lines of `s` after the partial line `cur`: a line feed ends the line
/// in progress (possibly empty), and a nonempty line in progress at the end
/// is yielded without a terminator.
pub open spec fn lines_acc(s: Seq<char>, cur: Seq<char>) -> Seq<Seq<char>>
    decreases s.len(),
{
    if s.len() == 0 {
        if cur.len() == 0 {
            seq![]
        } else {
            seq![cur]
        }
    } else if s[0] == '\n' {
        seq![cur] + lines_acc(s.drop_first(), seq![])
    } else {
        lines_acc(s.drop_first(), cur.push(s[0]))
    }
}

/// The lines of `s`, without their terminators.
pub open spec fn split_lines(s: Seq<char>) -> Seq<Seq<char>> {
    lines_acc(s, seq![])
}

/// As `lines_acc`, but each line keeps its terminator, so that the lines
/// concatenate back to the text they came from.
pub open spec fn raw_lines_acc(s: Seq<char>, cur: Seq<char>) -> Seq<Seq<char>>
    decreases s.len(),
{
    if s.len() == 0 {
        if cur.len() == 0 {
            seq![]
        } else {
            seq![cur]
        }
    } else if s[0] == '\n' {
        seq![cur.push('\n')] + raw_lines_acc(s.drop_first(), seq![])
    } else {
        raw_lines_acc(s.drop_first(), cur.push(s[0]))
    }
}

/// The lines of `s` with their terminators kept.
pub open spec fn raw_lines(s: Seq<char>) -> Seq<Seq<char>> {
    raw_lines_acc(s, seq![])
}

/// The raw lines of a text concatenate back to the text itself.
pub proof fn lemma_raw_lines_concat_acc(s: Seq<char>, cur: Seq<char>)
    ensures
        raw_lines_acc(s, cur).flatten() == cur + s,
    decreases s.len(),
{
    if s.len() == 0 {
        if cur.len() == 0 {
            assert(raw_lines_acc(s, cur).flatten() =~= cur + s);
        } else {
            seq![cur].lemma_flatten_one_element();
            assert(cur + s =~= cur);
        }
    } else if s[0] == '\n' {
        lemma_raw_lines_concat_acc(s.drop_first(), seq![]);
        let rest = raw_lines_acc(s.drop_first(), seq![]);
        assert((seq![cur.push('\n')] + rest).drop_first() =~= rest);
        assert((seq![cur.push('\n')] + rest).flatten() == cur.push('\n') + rest.flatten());
        assert(Seq::<char>::empty() + s.drop_first() =~= s.drop_first());
        assert(cur.push('\n') + s.drop_first() =~= cur + s);
    } else {
        lemma_raw_lines_concat_acc(s.drop_first(), cur.push(s[0]));
        assert(cur.push(s[0]) + s.drop_first() =~= cur + s);
    }
}

/// Splitter coverage, at the level of lines: concatenating the raw lines of a
/// text reproduces the text exactly.
pub proof fn lemma_raw_lines_concat(s: Seq<char>)
    ensures
        raw_lines(s).flatten() == s,
{
    lemma_raw_lines_concat_acc(s, seq![]);
    assert(Seq::<char>::empty() + s =~= s);
}

/// Whether `l` is one whole line: nonempty, with a line feed at the end and
/// nowhere else, or (a final line without a terminator) no line feed at all.
pub open spec fn is_whole_line(l: Seq<char>) -> bool {
    l.len() > 0 && forall|j: int| 0 <= j < l.len() - 1 ==> #[trigger] l[j] != '\n'
}

/// Every raw line is one whole line, and every raw line except possibly the
/// last ends with its line feed.
pub proof fn lemma_raw_lines_shape_acc(s: Seq<char>, cur: Seq<char>)
    requires
        forall|j: int| 0 <= j < cur.len() ==> #[trigger] cur[j] != '\n',
    ensures
        forall|i: int|
            0 <= i < raw_lines_acc(s, cur).len() ==> is_whole_line(
                #[trigger] raw_lines_acc(s, cur)[i],
            ),
        forall|i: int|
            0 <= i < raw_lines_acc(s, cur).len() - 1 ==> (#[trigger] raw_lines_acc(s, cur)[i])
                .last() == '\n',
    decreases s.len(),
{
    let r = raw_lines_acc(s, cur);
    if s.len() == 0 {
        if cur.len() > 0 {
            assert(is_whole_line(cur));
        }
    } else if s[0] == '\n' {
        lemma_raw_lines_shape_acc(s.drop_first(), seq![]);
        let rest = raw_lines_acc(s.drop_first(), seq![]);
        assert(r == seq![cur.push('\n')] + rest);
        assert(forall|j: int| 0 <= j < cur.len() ==> #[trigger] cur.push('\n')[j] == cur[j]);
        assert(is_whole_line(cur.push('\n')));
        assert forall|i: int| 0 <= i < r.len() implies is_whole_line(#[trigger] r[i]) by {
            if i > 0 {
                assert(r[i] == rest[i - 1]);
            }
        }
        assert forall|i: int| 0 <= i < r.len() - 1 implies (#[trigger] r[i]).last() == '\n' by {
            if i > 0 {
                assert(r[i] == rest[i - 1]);
            }
        }
    } else {
        assert(forall|j: int|
            0 <= j < cur.push(s[0]).len() ==> #[trigger] cur.push(s[0])[j] != '\n');
        lemma_raw_lines_shape_acc(s.drop_first(), cur.push(s[0]));
        assert(r == raw_lines_acc(s.drop_first(), cur.push(s[0])));
    }
}

/// Tokenizing a text that ends in whitespace and then more text gives the
/// tokens of the two parts, one after the other: a chunk boundary on
/// whitespace never splits or joins a token.
pub proof fn lemma_tokens_concat(a: Seq<char>, b: Seq<char>, cur: Seq<char>)
    requires
        a.len() > 0,
        is_space(a.last()),
    ensures
        tokens_acc(a + b, cur) == tokens_acc(a, cur) + tokens_acc(b, seq![]),
    decreases a.len(),
{
    assert((a + b).len() > 0);
    assert((a + b)[0] == a[0]);
    if a.len() == 1 {
        assert(a[0] == a.last());
        assert((a + b).drop_first() =~= b);
        assert(tokens_acc(b, seq![]) == tokens_acc((a + b).drop_first(), seq![]));
        assert(a.drop_first() =~= Seq::<char>::empty());
        assert(tokens_acc(a.drop_first(), seq![]) =~= Seq::<Seq<char>>::empty());
        if cur.len() == 0 {
            assert(tokens_acc(a, cur) =~= Seq::<Seq<char>>::empty());
            assert(tokens_acc(a + b, cur) =~= tokens_acc(a, cur) + tokens_acc(b, seq![]));
        } else {
            assert(tokens_acc(a, cur) =~= seq![cur]);
            assert(tokens_acc(a + b, cur) =~= tokens_acc(a, cur) + tokens_acc(b, seq![]));
        }
    } else {
        assert(a.drop_first().len() > 0);
        assert(a.drop_first().last() == a.last());
        assert((a + b).drop_first() =~= a.drop_first() + b);
        if is_space(a[0]) {
            if cur.len() == 0 {
                lemma_tokens_concat(a.drop_first(), b, seq![]);
            } else {
                lemma_tokens_concat(a.drop_first(), b, seq![]);
                assert(seq![cur] + (tokens_acc(a.drop_first(), seq![]) + tokens_acc(b, seq![]))
                    =~= (seq![cur] + tokens_acc(a.drop_first(), seq![])) + tokens_acc(
                    b,
                    seq![],
                ));
            }
        } else {
            lemma_tokens_concat(a.drop_first(), b, cur.push(a[0]));
        }
    }
}

/// Splits `s` into its whitespace-separated tokens.
pub fn tokens_of(s: &str) -> (r: Vec<String>)
    ensures
        r.deep_view() == ws_tokens(s@),
{
    let len = s.unicode_len();
    let mut out: Vec<String> = Vec::new();
    let mut start: usize = 0;
    let mut i: usize = 0;
    proof {
        assert(s@.skip(0) =~= s@);
        assert(s@.subrange(0, 0) =~= Seq::<char>::empty());
        assert(out.deep_view() =~= Seq::<Seq<char>>::empty());
    }
    while i < len
        invariant
            0 <= start <= i <= len,
            len == s@.len(),
            forall|j: int| start <= j < i ==> !is_space(#[trigger] s@[j]),
            ws_tokens(s@) == out.deep_view() + tokens_acc(
                s@.skip(i as int),
                s@.subrange(start as int, i as int),
            ),
        decreases len - i,
    {
        let c = s.get_char(i);
        proof {
            assert(s@.skip(i as int)[0] == c);
            assert(s@.skip(i as int).drop_first() =~= s@.skip(i as int + 1));
        }
        if space_char(c) {
            if start < i {
                let t = s.substring_char(start, i);
                let ghost old_dv = out.deep_view();
                out.push(String::from_str(t));
                proof {
                    assert(out.deep_view() =~= old_dv.push(t@));
                    assert(out.deep_view() + tokens_acc(s@.skip(i as int + 1), seq![]) =~= old_dv
                        + (seq![t@] + tokens_acc(s@.skip(i as int + 1), seq![])));
                }
            } else {
                proof {
                    assert(s@.subrange(start as int, i as int).len() == 0);
                }
            }
            start = i + 1;
            proof {
                assert(s@.subrange(start as int, start as int) =~= Seq::<char>::empty());
            }
        } else {
            proof {
                assert(s@.subrange(start as int, i as int + 1) =~= s@.subrange(
                    start as int,
                    i as int,
                ).push(c));
            }
        }
        i = i + 1;
    }
    proof {
        assert(s@.skip(len as int) =~= Seq::<char>::empty());
    }
    if start < len {
        let t = s.substring_char(start, len);
        let ghost old_dv = out.deep_view();
        out.push(String::from_str(t));
        proof {
            assert(s@.subrange(start as int, len as int).len() > 0);
            assert(out.deep_view() =~= old_dv.push(t@));
            assert(out.deep_view() =~= old_dv + seq![t@]);
        }
    } else {
        proof {
            assert(s@.subrange(start as int, len as int).len() == 0);
            assert(out.deep_view() + Seq::<Seq<char>>::empty() =~= out.deep_view());
        }
    }
    out
}

/// Splits `s` into its lines, without terminators.
pub fn lines_of(s: &str) -> (r: Vec<String>)
    ensures
        r.deep_view() == split_lines(s@),
{
    let len = s.unicode_len();
    let mut out: Vec<String> = Vec::new();
    let mut start: usize = 0;
    let mut i: usize = 0;
    proof {
        assert(s@.skip(0) =~= s@);
        assert(s@.subrange(0, 0) =~= Seq::<char>::empty());
        assert(out.deep_view() =~= Seq::<Seq<char>>::empty());
    }
    while i < len
        invariant
            0 <= start <= i <= len,
            len == s@.len(),
            split_lines(s@) == out.deep_view() + lines_acc(
                s@.skip(i as int),
                s@.subrange(start as int, i as int),
            ),
        decreases len - i,
    {
        let c = s.get_char(i);
        proof {
            assert(s@.skip(i as int)[0] == c);
            assert(s@.skip(i as int).drop_first() =~= s@.skip(i as int + 1));
        }
        if c == '\n' {
            let t = s.substring_char(start, i);
            let ghost old_dv = out.deep_view();
            out.push(String::from_str(t));
            proof {
                assert(out.deep_view() =~= old_dv.push(t@));
                assert(out.deep_view() + lines_acc(s@.skip(i as int + 1), seq![]) =~= old_dv + (
                seq![t@] + lines_acc(s@.skip(i as int + 1), seq![])));
            }
            start = i + 1;
            proof {
                assert(s@.subrange(start as int, start as int) =~= Seq::<char>::empty());
            }
        } else {
            proof {
                assert(s@.subrange(start as int, i as int + 1) =~= s@.subrange(
                    start as int,
                    i as int,
                ).push(c));
            }
        }
        i = i + 1;
    }
    proof {
        assert(s@.skip(len as int) =~= Seq::<char>::empty());
    }
    if start < len {
        let t = s.substring_char(start, len);
        let ghost old_dv = out.deep_view();
        out.push(String::from_str(t));
        proof {
            assert(s@.subrange(start as int, len as int).len() > 0);
            assert(out.deep_view() =~= old_dv.push(t@));
            assert(out.deep_view() =~= old_dv + seq![t@]);
        }
    } else {
        proof {
            assert(s@.subrange(start as int, len as int).len() == 0);
            assert(out.deep_view() + Seq::<Seq<char>>::empty() =~= out.deep_view());
        }
    }
    out
}

/// Splits `s` into its lines, each keeping its terminator.
pub fn raw_lines_of(s: &str) -> (r: Vec<String>)
    ensures
        r.deep_view() == raw_lines(s@),
{
    let len = s.unicode_len();
    let mut out: Vec<String> = Vec::new();
    let mut start: usize = 0;
    let mut i: usize = 0;
    proof {
        assert(s@.skip(0) =~= s@);
        assert(s@.subrange(0, 0) =~= Seq::<char>::empty());
        assert(out.deep_view() =~= Seq::<Seq<char>>::empty());
    }
    while i < len
        invariant
            0 <= start <= i <= len,
            len == s@.len(),
            raw_lines(s@) == out.deep_view() + raw_lines_acc(
                s@.skip(i as int),
                s@.subrange(start as int, i as int),
            ),
        decreases len - i,
    {
        let c = s.get_char(i);
        proof {
            assert(s@.skip(i as int)[0] == c);
            assert(s@.skip(i as int).drop_first() =~= s@.skip(i as int + 1));
        }
        if c == '\n' {
            let t = s.substring_char(start, i + 1);
            let ghost old_dv = out.deep_view();
            out.push(String::from_str(t));
            proof {
                assert(t@ =~= s@.subrange(start as int, i as int).push('\n'));
                assert(out.deep_view() =~= old_dv.push(t@));
                assert(out.deep_view() + raw_lines_acc(s@.skip(i as int + 1), seq![]) =~= old_dv
                    + (seq![t@] + raw_lines_acc(s@.skip(i as int + 1), seq![])));
            }
            start = i + 1;
            proof {
                assert(s@.subrange(start as int, start as int) =~= Seq::<char>::empty());
            }
        } else {
            proof {
                assert(s@.subrange(start as int, i as int + 1) =~= s@.subrange(
                    start as int,
                    i as int,
                ).push(c));
            }
        }
        i = i + 1;
    }
    proof {
        assert(s@.skip(len as int) =~= Seq::<char>::empty());
    }
    if start < len {
        let t = s.substring_char(start, len);
        let ghost old_dv = out.deep_view();
        out.push(String::from_str(t));
        proof {
            assert(s@.subrange(start as int, len as int).len() > 0);
            assert(out.deep_view() =~= old_dv.push(t@));
            assert(out.deep_view() =~= old_dv + seq![t@]);
        }
    } else {
        proof {
            assert(s@.subrange(start as int, len as int).len() == 0);
            assert(out.deep_view() + Seq::<Seq<char>>::empty() =~= out.deep_view());
        }
    }
    out
}

} // verus!
