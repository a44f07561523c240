//! Poll data types, poll-text parsing and the renderings the commands
//! answer with, each pinned down over `Seq<char>`.

use vstd::prelude::*;
use crate::text::{
    chars_vec, dec_str, find_char, find_char_vec, push_dec, string_from_chars, subvec, trim_spec,
    trim_vec,
};

verus! {

/// One votable option of a poll.
#[derive(Debug)]
pub struct PollItem {
    pub description: String,
    pub count: usize,
}

/// A question with its fixed, ordered sequence of options.
#[derive(Debug)]
pub struct Poll {
    pub question: String,
    pub options: Vec<PollItem>,
}

/// Why poll text was rejected.
#[derive(Debug, PartialEq, Eq, Structural)]
pub enum CreateError {
    /// The text holds no `?`.
    MalformedPoll,
    /// Fewer than two distinct options follow the question.
    InsufficientOptions,
}

/// A vote count after one more vote; the count sticks at the top of the
/// type's range rather than overflow.
pub open spec fn bump_count(c: usize) -> usize {
    if c == usize::MAX {
        c
    } else {
        (c + 1) as usize
    }
}

/// The descriptions of an option sequence.
pub open spec fn opts_views(s: Seq<PollItem>) -> Seq<Seq<char>> {
    s.map_values(|it: PollItem| it.description@)
}

/// The trimmed, non-empty lines of the option text, in order.
pub open spec fn option_lines(s: Seq<char>) -> Seq<Seq<char>>
    decreases s.len(),
{
    if s.len() == 0 {
        Seq::empty()
    } else {
        let i = find_char(s, '\n');
        let line = trim_spec(s.take(i));
        let rest = if 0 <= i < s.len() {
            option_lines(s.skip(i + 1))
        } else {
            Seq::empty()
        };
        if line.len() == 0 {
            rest
        } else {
            seq![line] + rest
        }
    }
}

/// The lines with every repetition of an earlier line dropped, keeping
/// first occurrences in order.
pub open spec fn dedup_views(s: Seq<Seq<char>>) -> Seq<Seq<char>>
    decreases s.len(),
{
    if s.len() == 0 {
        Seq::empty()
    } else {
        let front = dedup_views(s.drop_last());
        if front.contains(s.last()) {
            front
        } else {
            front.push(s.last())
        }
    }
}

/// True when the poll text holds a `?`.
pub open spec fn has_question(s: Seq<char>) -> bool {
    find_char(s, '?') < s.len()
}

/// The trimmed text up to and including the first `?`.
pub open spec fn question_of(s: Seq<char>) -> Seq<char> {
    trim_spec(s.take(find_char(s, '?') + 1))
}

/// The text after the first `?`, where the options stand.
pub open spec fn options_src(s: Seq<char>) -> Seq<char> {
    s.skip(find_char(s, '?') + 1)
}

/// The distinct option descriptions of the poll text, in first-occurrence
/// order.
pub open spec fn distinct_options(s: Seq<char>) -> Seq<Seq<char>> {
    dedup_views(option_lines(options_src(s)))
}

/// True when `p` is exactly the poll that `text` describes: its question,
/// its distinct options in order, and every count zero.
pub open spec fn is_parsed_poll(p: Poll, text: Seq<char>) -> bool {
    &&& p.question@ == question_of(text)
    &&& opts_views(p.options@) == distinct_options(text)
    &&& forall|j: int| 0 <= j < p.options@.len() ==> (#[trigger] p.options@[j]).count == 0
}

impl Poll {
    /// Count one more vote for option `idx`.
    pub fn bump(&mut self, idx: usize)
        requires
            idx < old(self).options@.len(),
        ensures
            final(self).question == old(self).question,
            final(self).options@ == old(self).options@.update(
                idx as int,
                (PollItem {
                    description: old(self).options@[idx as int].description,
                    count: bump_count(old(self).options@[idx as int].count),
                }),
            ),
    {
        let item = crate::unique_id_list::vec_index_mut(&mut self.options, idx);
        let c = item.count;
        item.count = if c == usize::MAX {
            c
        } else {
            c + 1
        };
    }

    /// Count one more vote for every option whose description equals the
    /// folded vote text, and report each such vote, as the text form of
    /// the vote command does.
    pub fn vote_matching(&mut self, vote_str: &String, sender: &str) -> (out: String)
        ensures
            final(self).question == old(self).question,
            final(self).options@.len() == old(self).options@.len(),
            forall|j: int|
                0 <= j < old(self).options@.len() ==> final(self).options@[j] == (if old(
                    self,
                ).options@[j].description@ == vote_str@ {
                    (PollItem {
                        description: old(self).options@[j].description,
                        count: bump_count(old(self).options@[j].count),
                    })
                } else {
                    old(self).options@[j]
                }),
            out@ == vote_lines(old(self).options@, vote_str@, sender@),
    {
        let mut out = String::new();
        let n = self.options.len();
        let mut i: usize = 0;
        while i < n
            invariant
                n == old(self).options@.len(),
                i <= n,
                self.question == old(self).question,
                self.options@.len() == n,
                forall|j: int| i <= j < n ==> self.options@[j] == old(self).options@[j],
                forall|j: int|
                    0 <= j < i ==> self.options@[j] == (if old(self).options@[j].description@
                        == vote_str@ {
                        (PollItem {
                            description: old(self).options@[j].description,
                            count: bump_count(old(self).options@[j].count),
                        })
                    } else {
                        old(self).options@[j]
                    }),
                out@ == vote_lines(old(self).options@.take(i as int), vote_str@, sender@),
            decreases n - i,
        {
            let matched = self.options[i].description == *vote_str;
            if matched {
                self.bump(i);
                out.append(sender);
                out.append(" voted for ");
                out.append(self.options[i].description.as_str());
                out.append("\n");
            }
            proof {
                let t = old(self).options@.take(i + 1);
                assert(t.drop_last() =~= old(self).options@.take(i as int));
                assert(t.last() == old(self).options@[i as int]);
            }
            i += 1;
        }
        proof {
            assert(old(self).options@.take(n as int) =~= old(self).options@);
        }
        out
    }
}

/// The report lines of a text vote: one line per option whose description
/// equals the folded vote text.
pub open spec fn vote_lines(opts: Seq<PollItem>, vs: Seq<char>, sender: Seq<char>) -> Seq<char>
    decreases opts.len(),
{
    if opts.len() == 0 {
        Seq::empty()
    } else {
        vote_lines(opts.drop_last(), vs, sender) + (if opts.last().description@ == vs {
            sender + " voted for "@ + opts.last().description@ + "\n"@
        } else {
            Seq::<char>::empty()
        })
    }
}

/// The final tally of a poll: its question, then one `description: count`
/// line per option.
pub open spec fn results_str(p: Poll) -> Seq<char> {
    "Results of poll: "@ + p.question@ + "\n"@ + results_lines(p.options@)
}

pub open spec fn results_lines(opts: Seq<PollItem>) -> Seq<char>
    decreases opts.len(),
{
    if opts.len() == 0 {
        Seq::empty()
    } else {
        results_lines(opts.drop_last()) + opts.last().description@ + ": "@ + dec_str(
            opts.last().count as nat,
        ) + "\n"@
    }
}

/// Render the final tally of a poll.
pub fn get_poll_results_string(poll: &Poll) -> (r: String)
    ensures
        r@ == results_str(*poll),
{
    let mut results = String::new();
    results.append("Results of poll: ");
    results.append(poll.question.as_str());
    results.append("\n");
    let n = poll.options.len();
    let mut i: usize = 0;
    while i < n
        invariant
            n == poll.options@.len(),
            i <= n,
            results@ == "Results of poll: "@ + poll.question@ + "\n"@ + results_lines(
                poll.options@.take(i as int),
            ),
        decreases n - i,
    {
        results.append(poll.options[i].description.as_str());
        results.append(": ");
        push_dec(&mut results, poll.options[i].count as u128);
        results.append("\n");
        proof {
            let t = poll.options@.take(i + 1);
            assert(t.drop_last() =~= poll.options@.take(i as int));
            assert(t.last() == poll.options@[i as int]);
        }
        i += 1;
    }
    proof {
        assert(poll.options@.take(n as int) =~= poll.options@);
    }
    results
}

/// The announcement of a fresh poll: its id, its question, and one
/// `index. description` line per option.
pub open spec fn created_str(id: nat, p: Poll) -> Seq<char> {
    "Poll #"@ + dec_str(id) + "\n"@ + p.question@ + "\n"@ + created_lines(p.options@)
}

pub open spec fn created_lines(opts: Seq<PollItem>) -> Seq<char>
    decreases opts.len(),
{
    if opts.len() == 0 {
        Seq::empty()
    } else {
        created_lines(opts.drop_last()) + dec_str((opts.len() - 1) as nat) + ". "@ + opts.last(
        ).description@ + "\n"@
    }
}

/// Render the announcement of a fresh poll.
pub fn render_created(id: usize, poll: &Poll) -> (r: String)
    ensures
        r@ == created_str(id as nat, *poll),
{
    let mut out = String::new();
    out.append("Poll #");
    push_dec(&mut out, id as u128);
    out.append("\n");
    out.append(poll.question.as_str());
    out.append("\n");
    let n = poll.options.len();
    let mut i: usize = 0;
    while i < n
        invariant
            n == poll.options@.len(),
            i <= n,
            out@ == "Poll #"@ + dec_str(id as nat) + "\n"@ + poll.question@ + "\n"@ + created_lines(
                poll.options@.take(i as int),
            ),
        decreases n - i,
    {
        push_dec(&mut out, i as u128);
        out.append(". ");
        out.append(poll.options[i].description.as_str());
        out.append("\n");
        proof {
            let t = poll.options@.take(i + 1);
            assert(t.drop_last() =~= poll.options@.take(i as int));
            assert(t.last() == poll.options@[i as int]);
            assert(t.len() - 1 == i as int);
        }
        i += 1;
    }
    proof {
        assert(poll.options@.take(n as int) =~= poll.options@);
    }
    out
}

/// One poll as the list command shows it: its id and question, then one
/// indented `index: description` line per option, counts omitted.
pub open spec fn list_poll_str(id: nat, p: Poll) -> Seq<char> {
    "Poll "@ + dec_str(id) + ": "@ + p.question@ + "\n"@ + list_lines(p.options@)
}

pub open spec fn list_lines(opts: Seq<PollItem>) -> Seq<char>
    decreases opts.len(),
{
    if opts.len() == 0 {
        Seq::empty()
    } else {
        list_lines(opts.drop_last()) + "\t"@ + dec_str((opts.len() - 1) as nat) + ": "@
            + opts.last().description@ + "\n"@
    }
}

/// Render one poll for the list command.
pub fn render_list_entry(id: usize, poll: &Poll) -> (r: String)
    ensures
        r@ == list_poll_str(id as nat, *poll),
{
    let mut out = String::new();
    out.append("Poll ");
    push_dec(&mut out, id as u128);
    out.append(": ");
    out.append(poll.question.as_str());
    out.append("\n");
    let n = poll.options.len();
    let mut i: usize = 0;
    while i < n
        invariant
            n == poll.options@.len(),
            i <= n,
            out@ == "Poll "@ + dec_str(id as nat) + ": "@ + poll.question@ + "\n"@ + list_lines(
                poll.options@.take(i as int),
            ),
        decreases n - i,
    {
        out.append("\t");
        push_dec(&mut out, i as u128);
        out.append(": ");
        out.append(poll.options[i].description.as_str());
        out.append("\n");
        proof {
            let t = poll.options@.take(i + 1);
            assert(t.drop_last() =~= poll.options@.take(i as int));
            assert(t.last() == poll.options@[i as int]);
            assert(t.len() - 1 == i as int);
        }
        i += 1;
    }
    proof {
        assert(poll.options@.take(n as int) =~= poll.options@);
    }
    out
}

/// Parse poll text: the trimmed text up to and including the first `?` is
/// the question; the non-empty trimmed lines after it, duplicates
/// dropped, are the options, of which at least two distinct ones must
/// remain. Every fresh option starts with a count of zero.
pub fn parse_poll(tail: &str) -> (r: Result<Poll, CreateError>)
    ensures
        r == Err::<Poll, CreateError>(CreateError::MalformedPoll) <==> !has_question(tail@),
        r == Err::<Poll, CreateError>(CreateError::InsufficientOptions) <==> has_question(tail@)
            && distinct_options(tail@).len() < 2,
        r matches Ok(p) ==> is_parsed_poll(p, tail@) && distinct_options(tail@).len() >= 2,
{
    let v = chars_vec(tail);
    let qpos = find_char_vec(&v, '?');
    proof {
        crate::text::lemma_find_char(v@, '?');
    }
    if qpos == v.len() {
        return Err(CreateError::MalformedPoll);
    }
    let question = string_from_chars(&trim_vec(&subvec(&v, 0, qpos + 1)));
    proof {
        assert(v@.subrange(0, qpos + 1 as int) =~= v@.take(find_char(v@, '?') + 1));
    }
    let mut opts: Vec<PollItem> = Vec::new();
    let mut p: usize = qpos + 1;
    let ghost src = v@.skip(qpos + 1 as int);
    let ghost mut processed: Seq<Seq<char>> = Seq::empty();
    proof {
        assert(src == options_src(tail@));
        assert(processed + option_lines(v@.skip(p as int)) =~= option_lines(src));
    }
    while p < v.len()
        invariant
            qpos + 1 <= p <= v@.len(),
            src == options_src(v@),
            v@ == tail@,
            processed + option_lines(v@.skip(p as int)) == option_lines(src),
            opts_views(opts@) == dedup_views(processed),
            forall|j: int| 0 <= j < opts@.len() ==> (#[trigger] opts@[j]).count == 0,
        decreases v@.len() - p,
    {
        let ghost tail_seq = v@.skip(p as int);
        let nl = crate::text::find_char_from(&v, '\n', p);
        proof {
            crate::text::lemma_find_char(tail_seq, '\n');
            let f = find_char(tail_seq, '\n');
            assert forall|j: int| p <= j < nl implies v@[j] != '\n' by {}
            if f < nl - p {
                assert(tail_seq[f] == v@[p + f]);
            } else if f > nl - p {
                if nl < v@.len() {
                    assert(tail_seq[nl - p] == v@[nl as int]);
                }
            }
            assert(f == nl - p);
        }
        let line_v = trim_vec(&subvec(&v, p, nl));
        proof {
            assert(v@.subrange(p as int, nl as int) =~= tail_seq.take(nl - p));
        }
        let ghost line = trim_spec(tail_seq.take(nl - p));
        let next: usize = if nl == v.len() {
            v.len()
        } else {
            nl + 1
        };
        proof {
            if nl < v@.len() {
                assert(tail_seq.skip(nl - p + 1) =~= v@.skip(nl + 1 as int));
            } else {
                assert(v@.skip(next as int) =~= Seq::<char>::empty());
            }
            assert(option_lines(tail_seq) == (if line.len() == 0 {
                Seq::<Seq<char>>::empty()
            } else {
                seq![line]
            }) + option_lines(v@.skip(next as int)));
        }
        if line_v.len() > 0 {
            let line_s = string_from_chars(&line_v);
            let mut found = false;
            let m = opts.len();
            let mut j: usize = 0;
            while j < m
                invariant
                    m == opts@.len(),
                    j <= m,
                    line_s@ == line,
                    found <==> exists|q: int|
                        0 <= q < j && (#[trigger] opts@[q]).description@ == line,
                decreases m - j,
            {
                if opts[j].description == line_s {
                    found = true;
                }
                j += 1;
            }
            proof {
                let dv = dedup_views(processed.push(line));
                assert(processed.push(line).drop_last() =~= processed);
                if found {
                    let q = choose|q: int|
                        0 <= q < opts@.len() && (#[trigger] opts@[q]).description@ == line;
                    assert(opts_views(opts@)[q] == line);
                    assert(dedup_views(processed).contains(line));
                } else {
                    if dedup_views(processed).contains(line) {
                        let q = choose|q: int|
                            0 <= q < dedup_views(processed).len() && dedup_views(processed)[q]
                                == line;
                        assert(opts_views(opts@)[q] == opts@[q].description@);
                    }
                    assert(!dedup_views(processed).contains(line));
                }
            }
            if !found {
                let ghost pre_opts = opts@;
                opts.push(PollItem { description: line_s, count: 0 });
                proof {
                    assert(opts_views(opts@) =~= opts_views(pre_opts).push(line));
                }
            }
            proof {
                processed = processed.push(line);
            }
        } else {
            proof {
                if line.len() == 0 {
                    assert(Seq::<Seq<char>>::empty() + option_lines(v@.skip(next as int))
                        =~= option_lines(v@.skip(next as int)));
                }
            }
        }
        proof {
            assert(processed + option_lines(v@.skip(next as int)) =~= option_lines(src));
        }
        p = next;
        proof {
            assert(p > nl || p == v@.len());
        }
    }
    proof {
        assert(v@.skip(p as int) =~= Seq::<char>::empty());
        assert(processed + option_lines(v@.skip(p as int)) =~= processed);
        assert(processed == option_lines(src));
    }
    if opts.len() < 2 {
        return Err(CreateError::InsufficientOptions);
    }
    Ok(Poll { question, options: opts })
}

} // verus!
