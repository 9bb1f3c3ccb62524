use vstd::prelude::*;
use crate::text::{
    append_chars, join_with, lemma_join_concat, lemma_join_split_lines,
    lemma_split_lines_nonempty, lines_of, newline, split_lines, string_of, views,
};

verus! {

/// The number of cl100k tokens that a text encodes to, special tokens allowed.
pub uninterp spec fn token_count_of(s: Seq<char>) -> nat;

/// Whether the cl100k encoder gets through a text: its regex engine gives up on
/// some texts that need too much backtracking.
pub uninterp spec fn encodes_ok(s: Seq<char>) -> bool;

/// Relies on `tiktoken_rs::cl100k_base_singleton`, `CoreBPE::special_tokens` and
/// `CoreBPE::encode`: whether encoding succeeds and how many tokens it gives depend
/// on the text alone, the encoder being fixed.
#[verifier::external_body]
pub fn count_tokens(text: &str) -> (r: Option<usize>)
    ensures
        r is Some == encodes_ok(text@),
        r is Some ==> r->0 as nat == token_count_of(text@),
{
    let bpe = tiktoken_rs::cl100k_base_singleton();
    match bpe.encode(text, &bpe.special_tokens()) {
        Ok((tokens, _)) => Some(tokens.len()),
        Err(_) => None,
    }
}

/// One line-aligned slice of a longer text.
pub struct SubChunk {
    pub text: Vec<char>,
    /// The tokens of `text`, as the encoder counts them.
    pub token_count: usize,
    /// The index, within the whole text, of the slice's first line.
    pub line_offset: usize,
}

/// A slice as text, token count and line offset.
impl View for SubChunk {
    type V = (Seq<char>, nat, nat);

    open spec fn view(&self) -> (Seq<char>, nat, nat) {
        (self.text@, self.token_count as nat, self.line_offset as nat)
    }
}

pub open spec fn sub_chunk_views(v: Seq<SubChunk>) -> Seq<(Seq<char>, nat, nat)> {
    v.map_values(|c: SubChunk| c@)
}

/// Lines `a` up to `b` of `lines`, joined by line breaks.
pub open spec fn run_text(lines: Seq<Seq<char>>, a: int, b: int) -> Seq<char> {
    join_with(lines.subrange(a, b), newline())
}

/// Greedy grouping of lines from line `i` on, where the open group starts at line
/// `start`: a line closes a non-empty group where the group with it would count
/// more than `max` tokens. Each group is (first line, end line).
pub open spec fn groups_from(lines: Seq<Seq<char>>, max: nat, i: nat, start: nat) -> Seq<
    (nat, nat),
>
    decreases lines.len() - i,
{
    if i >= lines.len() {
        if start < i {
            seq![(start, i)]
        } else {
            seq![]
        }
    } else if start < i && token_count_of(run_text(lines, start as int, i as int + 1)) > max {
        seq![(start, i)] + groups_from(lines, max, i + 1, i)
    } else {
        groups_from(lines, max, i + 1, start)
    }
}

/// Whether the encoder gets through every text that grouping lines from line `i`
/// on measures: each group with its next line, and each line that opens a group.
pub open spec fn measures_ok(lines: Seq<Seq<char>>, max: nat, i: nat, start: nat) -> bool
    decreases lines.len() - i,
{
    if i >= lines.len() {
        true
    } else {
        &&& encodes_ok(run_text(lines, start as int, i as int + 1))
        &&& if start < i && token_count_of(run_text(lines, start as int, i as int + 1)) > max {
            encodes_ok(run_text(lines, i as int, i as int + 1)) && measures_ok(lines, max, i + 1, i)
        } else {
            measures_ok(lines, max, i + 1, start)
        }
    }
}

pub open spec fn group_slice(lines: Seq<Seq<char>>, g: (nat, nat)) -> (Seq<char>, nat, nat) {
    let t = run_text(lines, g.0 as int, g.1 as int);
    (t, token_count_of(t), g.0)
}

/// The slices of `text` for a budget of `max` tokens: the whole text where it fits,
/// else its lines grouped greedily. Each is (text, tokens, first line).
pub open spec fn split_spec(text: Seq<char>, max: nat) -> Seq<(Seq<char>, nat, nat)> {
    if token_count_of(text) <= max {
        seq![(text, token_count_of(text), 0nat)]
    } else {
        let lines = split_lines(text);
        groups_from(lines, max, 0, 0).map_values(|g: (nat, nat)| group_slice(lines, g))
    }
}

/// Whether every count that splitting `text` needs succeeds.
pub open spec fn split_ok(text: Seq<char>, max: nat) -> bool {
    &&& encodes_ok(text)
    &&& token_count_of(text) > max ==> measures_ok(split_lines(text), max, 0, 0)
}

pub proof fn lemma_split_lines_no_newline(s: Seq<char>)
    ensures
        forall|j: int, k: int|
            0 <= j < split_lines(s).len() && 0 <= k < split_lines(s)[j].len()
                ==> split_lines(s)[j][k] != '\n',
    decreases s.len(),
{
    if s.len() > 0 {
        lemma_split_lines_no_newline(s.drop_last());
        lemma_split_lines_nonempty(s.drop_last());
    }
}

/// A run of one line is that line.
proof fn lemma_single_line_run(lines: Seq<Seq<char>>, a: int)
    requires
        0 <= a < lines.len(),
    ensures
        run_text(lines, a, a + 1) == lines[a],
{
    assert(lines.subrange(a, a + 1).len() == 1);
}

/// A run grows by a line break and its next line.
proof fn lemma_run_extend(lines: Seq<Seq<char>>, a: int, b: int)
    requires
        0 <= a < b < lines.len(),
    ensures
        run_text(lines, a, b + 1) == run_text(lines, a, b) + newline() + lines[b],
{
    assert(lines.subrange(a, b + 1).drop_last() =~= lines.subrange(a, b));
}

proof fn lemma_groups_join(lines: Seq<Seq<char>>, max: nat, i: nat, start: nat)
    requires
        start <= i <= lines.len(),
        start < lines.len(),
    ensures
        groups_from(lines, max, i, start).len() >= 1,
        join_with(
            slice_texts(groups_from(lines, max, i, start).map_values(|g: (nat, nat)| group_slice(lines, g))),
            newline(),
        ) == run_text(lines, start as int, lines.len() as int),
    decreases lines.len() - i,
{
    let n = lines.len();
    let g = groups_from(lines, max, i, start);
    let f = |g: (nat, nat)| group_slice(lines, g);
    if i >= n {
        assert(slice_texts(g.map_values(f)) =~= seq![run_text(lines, start as int, n as int)]);
    } else if start < i && token_count_of(run_text(lines, start as int, i as int + 1)) > max {
        let rest = groups_from(lines, max, i + 1, i);
        lemma_groups_join(lines, max, i + 1, i);
        let head = run_text(lines, start as int, i as int);
        assert(slice_texts(g.map_values(f)) =~= seq![head] + slice_texts(rest.map_values(f)));
        lemma_join_concat(seq![head], slice_texts(rest.map_values(f)), newline());
        assert(join_with(seq![head], newline()) == head);
        lemma_join_concat(
            lines.subrange(start as int, i as int),
            lines.subrange(i as int, n as int),
            newline(),
        );
        assert(lines.subrange(start as int, i as int) + lines.subrange(i as int, n as int)
            =~= lines.subrange(start as int, n as int));
    } else {
        lemma_groups_join(lines, max, i + 1, start);
    }
}

/// A group is a non-empty run of lines, within budget where it has two lines or more.
pub open spec fn group_ok(lines: Seq<Seq<char>>, g: (nat, nat), max: nat) -> bool {
    &&& g.0 < g.1 <= lines.len()
    &&& g.1 - g.0 >= 2 ==> token_count_of(run_text(lines, g.0 as int, g.1 as int)) <= max
}

proof fn lemma_groups_shape(lines: Seq<Seq<char>>, max: nat, i: nat, start: nat)
    requires
        start <= i <= lines.len(),
        i - start >= 2 ==> token_count_of(run_text(lines, start as int, i as int)) <= max,
    ensures
        forall|k: int|
            0 <= k < groups_from(lines, max, i, start).len() ==> group_ok(
                lines,
                #[trigger] groups_from(lines, max, i, start)[k],
                max,
            ),
    decreases lines.len() - i,
{
    let g = groups_from(lines, max, i, start);
    if i >= lines.len() {
        if start < i {
            assert(g.len() == 1 && g[0] == (start, i));
        }
    } else if start < i && token_count_of(run_text(lines, start as int, i as int + 1)) > max {
        lemma_groups_shape(lines, max, i + 1, i);
        let rest = groups_from(lines, max, i + 1, i);
        assert(g == seq![(start, i)] + rest);
        assert(g[0] == (start, i));
        assert forall|k: int| 0 <= k < g.len() implies group_ok(lines, g[k], max) by {
            if k > 0 {
                assert(g[k] == rest[k - 1]);
            }
        }
    } else {
        lemma_groups_shape(lines, max, i + 1, start);
        assert(g == groups_from(lines, max, i + 1, start));
    }
}

proof fn lemma_groups_contiguous(lines: Seq<Seq<char>>, max: nat, i: nat, start: nat)
    requires
        start <= i <= lines.len(),
        start < lines.len(),
    ensures
        ({
            let g = groups_from(lines, max, i, start);
            &&& g.len() >= 1
            &&& g[0].0 == start
            &&& g.last().1 == lines.len()
            &&& forall|k: int| 0 <= k < g.len() - 1 ==> (#[trigger] g[k]).1 == g[k + 1].0
        }),
    decreases lines.len() - i,
{
    let g = groups_from(lines, max, i, start);
    if i >= lines.len() {
        assert(g =~= seq![(start, i)]);
    } else if start < i && token_count_of(run_text(lines, start as int, i as int + 1)) > max {
        lemma_groups_contiguous(lines, max, i + 1, i);
        let rest = groups_from(lines, max, i + 1, i);
        assert(g == seq![(start, i)] + rest);
        assert forall|k: int| 0 <= k < g.len() - 1 implies (#[trigger] g[k]).1 == g[k + 1].0 by {
            assert(g[k + 1] == rest[k]);
            if k > 0 {
                assert(g[k] == rest[k - 1]);
            }
        }
    } else {
        lemma_groups_contiguous(lines, max, i + 1, start);
        assert(g == groups_from(lines, max, i + 1, start));
    }
}

pub open spec fn slice_texts(s: Seq<(Seq<char>, nat, nat)>) -> Seq<Seq<char>> {
    s.map_values(|x: (Seq<char>, nat, nat)| x.0)
}

/// The slices of a text, joined by line breaks, give the text back; there is at
/// least one.
pub proof fn lemma_split_complete(text: Seq<char>, max: nat)
    ensures
        split_spec(text, max).len() >= 1,
        join_with(slice_texts(split_spec(text, max)), newline()) == text,
{
    if token_count_of(text) <= max {
        assert(slice_texts(split_spec(text, max)) =~= seq![text]);
    } else {
        let lines = split_lines(text);
        lemma_split_lines_nonempty(text);
        lemma_join_split_lines(text);
        lemma_groups_join(lines, max, 0, 0);
        assert(lines.subrange(0, lines.len() as int) =~= lines);
    }
}

/// Each slice of a text counts as many tokens as the encoder gives its text, and at
/// most `max`, but for a slice of one line that alone counts more.
pub proof fn lemma_split_within_budget(text: Seq<char>, max: nat)
    ensures
        forall|k: int|
            0 <= k < split_spec(text, max).len() ==> {
                let s = #[trigger] split_spec(text, max)[k];
                &&& s.1 == token_count_of(s.0)
                &&& s.1 <= max || !s.0.contains('\n')
            },
{
    if token_count_of(text) > max {
        let lines = split_lines(text);
        let all = groups_from(lines, max, 0, 0);
        lemma_groups_shape(lines, max, 0, 0);
        lemma_split_lines_no_newline(text);
        assert forall|k: int| 0 <= k < split_spec(text, max).len() implies {
            let s = #[trigger] split_spec(text, max)[k];
            &&& s.1 == token_count_of(s.0)
            &&& s.1 <= max || !s.0.contains('\n')
        } by {
            let g = all[k];
            assert(group_ok(lines, g, max));
            if g.1 - g.0 < 2 {
                lemma_single_line_run(lines, g.0 as int);
            }
        }
    }
}

/// Where slice `k` of `s` ends, as a line index: where the next one starts, or at
/// line `n` for the last.
pub open spec fn slice_end(s: Seq<(Seq<char>, nat, nat)>, k: int, n: nat) -> nat {
    if k + 1 < s.len() {
        s[k + 1].2
    } else {
        n
    }
}

/// The slices of a text are runs of its lines: the first starts at line 0, each
/// starts where the one before ends, the last ends after the last line, none is
/// empty, and each is its run of lines joined by line breaks.
pub proof fn lemma_split_partition(text: Seq<char>, max: nat)
    ensures
        ({
            let s = split_spec(text, max);
            let lines = split_lines(text);
            &&& s.len() >= 1
            &&& s[0].2 == 0
            &&& forall|k: int|
                0 <= k < s.len() ==> {
                    &&& (#[trigger] s[k]).2 < slice_end(s, k, lines.len()) <= lines.len()
                    &&& s[k].0 == run_text(lines, s[k].2 as int, slice_end(s, k, lines.len()) as int)
                }
        }),
{
    let s = split_spec(text, max);
    let lines = split_lines(text);
    lemma_split_lines_nonempty(text);
    if token_count_of(text) <= max {
        lemma_join_split_lines(text);
        assert(lines.subrange(0, lines.len() as int) =~= lines);
    } else {
        let g = groups_from(lines, max, 0, 0);
        lemma_groups_contiguous(lines, max, 0, 0);
        lemma_groups_shape(lines, max, 0, 0);
        assert forall|k: int| 0 <= k < s.len() implies {
            &&& (#[trigger] s[k]).2 < slice_end(s, k, lines.len()) <= lines.len()
            &&& s[k].0 == run_text(lines, s[k].2 as int, slice_end(s, k, lines.len()) as int)
        } by {
            assert(group_ok(lines, g[k], max));
            if k + 1 < s.len() {
                assert(g[k].1 == g[k + 1].0);
            }
        }
    }
}

proof fn lemma_split_facts(r: &Vec<SubChunk>, text: Seq<char>, max: nat)
    requires
        sub_chunk_views(r@) == split_spec(text, max),
    ensures
        slice_texts(sub_chunk_views(r@)) == r@.map_values(|c: SubChunk| c.text@),
        r@.len() >= 1,
        join_with(r@.map_values(|c: SubChunk| c.text@), newline()) == text,
        forall|k: int|
            0 <= k < r@.len() ==> r@[k].token_count == token_count_of(r@[k].text@),
        forall|k: int|
            0 <= k < r@.len() ==> r@[k].token_count <= max || !r@[k].text@.contains('\n'),
{
    lemma_split_complete(text, max);
    lemma_split_within_budget(text, max);
    assert(slice_texts(sub_chunk_views(r@)) =~= r@.map_values(|c: SubChunk| c.text@));
    assert forall|k: int| 0 <= k < r@.len() implies r@[k].token_count == token_count_of(
        r@[k].text@,
    ) && (r@[k].token_count <= max || !r@[k].text@.contains('\n')) by {
        assert(sub_chunk_views(r@)[k] == r@[k]@);
    }
}

/// Splits `text` into line-aligned slices of at most `max_tokens` tokens each, but
/// where one line alone counts more: a line joins the open slice only where the
/// slice with it still fits. The slices, joined by line breaks, give the text back.
/// `None` where the encoder fails on a text that the split measures.
pub fn split_text_by_token_limit(text: &Vec<char>, max_tokens: usize) -> (r: Option<
    Vec<SubChunk>,
>)
    ensures
        r is Some == split_ok(text@, max_tokens as nat),
        r is Some ==> {
            let v = r->0;
            &&& sub_chunk_views(v@) == split_spec(text@, max_tokens as nat)
            &&& slice_texts(sub_chunk_views(v@)) == v@.map_values(|c: SubChunk| c.text@)
            &&& v@.len() >= 1
            &&& join_with(v@.map_values(|c: SubChunk| c.text@), newline()) == text@
            &&& forall|k: int|
                0 <= k < v@.len() ==> v@[k].token_count == token_count_of(v@[k].text@)
            &&& forall|k: int|
                0 <= k < v@.len() ==> v@[k].token_count <= max_tokens
                    || !v@[k].text@.contains('\n')
        },
{
    let whole = match count_tokens(string_of(text).as_str()) {
        Some(n) => n,
        None => return None,
    };
    if whole <= max_tokens {
        let mut r: Vec<SubChunk> = Vec::new();
        r.push(SubChunk { text: text.clone(), token_count: whole, line_offset: 0 });
        proof {
            assert(sub_chunk_views(r@) =~= split_spec(text@, max_tokens as nat));
            lemma_split_facts(&r, text@, max_tokens as nat);
        }
        return Some(r);
    }
    let lines = lines_of(text);
    let ghost lv = views(lines@);
    let ghost max = max_tokens as nat;
    let ghost all = groups_from(lv, max, 0, 0);
    let ghost f = |g: (nat, nat)| group_slice(lv, g);
    let ghost mut done: Seq<(nat, nat)> = seq![];
    let mut out: Vec<SubChunk> = Vec::new();
    let mut cur_text: Vec<char> = Vec::new();
    let mut cur_tokens: usize = 0;
    let mut start: usize = 0;
    let mut i: usize = 0;
    while i < lines.len()
        invariant
            lv == views(lines@),
            lv == split_lines(text@),
            token_count_of(text@) > max,
            max == max_tokens as nat,
            all == groups_from(lv, max, 0, 0),
            f == (|g: (nat, nat)| group_slice(lv, g)),
            start <= i <= lines@.len(),
            lines@.len() == lv.len(),
            lv.len() >= 1,
            i > 0 ==> start < i,
            start < i ==> cur_text@ == run_text(lv, start as int, i as int),
            start < i ==> cur_tokens as nat == token_count_of(cur_text@),
            done + groups_from(lv, max, i as nat, start as nat) == all,
            sub_chunk_views(out@) == done.map_values(f),
            measures_ok(lv, max, 0, 0) == measures_ok(lv, max, i as nat, start as nat),
        decreases lines@.len() - i,
    {
        assert(lines[i as int]@ == lv[i as int]);
        let cand: Vec<char> = if start < i {
            let mut t = cur_text.clone();
            t.push('\n');
            append_chars(&mut t, &lines[i]);
            proof {
                lemma_run_extend(lv, start as int, i as int);
                assert(t@ =~= run_text(lv, start as int, i as int + 1));
            }
            t
        } else {
            proof {
                lemma_single_line_run(lv, i as int);
            }
            lines[i].clone()
        };
        assert(cand@ == run_text(lv, start as int, i as int + 1));
        let cand_tokens = match count_tokens(string_of(&cand).as_str()) {
            Some(n) => n,
            None => return None,
        };
        if start < i && cand_tokens > max_tokens {
            proof {
                lemma_single_line_run(lv, i as int);
            }
            let line_tokens = match count_tokens(string_of(&lines[i]).as_str()) {
                Some(n) => n,
                None => return None,
            };
            let ghost old_done = done;
            let ghost old_out = sub_chunk_views(out@);
            proof {
                done = done.push((start as nat, i as nat));
                assert(seq![(start as nat, i as nat)] + groups_from(lv, max, (i + 1) as nat, i as nat)
                    == groups_from(lv, max, i as nat, start as nat));
                assert(done + groups_from(lv, max, (i + 1) as nat, i as nat) =~= old_done
                    + groups_from(lv, max, i as nat, start as nat));
            }
            let piece = SubChunk { text: cur_text, token_count: cur_tokens, line_offset: start };
            let ghost elem = piece@;
            out.push(piece);
            proof {
                assert(elem == f((start as nat, i as nat)));
                assert(sub_chunk_views(out@) =~= old_out.push(elem));
                assert(sub_chunk_views(out@) =~= done.map_values(f));
            }
            cur_text = lines[i].clone();
            cur_tokens = line_tokens;
            start = i;
        } else {
            proof {
                assert(groups_from(lv, max, i as nat, start as nat) == groups_from(
                    lv,
                    max,
                    (i + 1) as nat,
                    start as nat,
                ));
            }
            cur_text = cand;
            cur_tokens = cand_tokens;
        }
        i = i + 1;
    }
    proof {
        assert(start < i);
        done = done.push((start as nat, i as nat));
        assert(done =~= all);
    }
    let ghost old_out = sub_chunk_views(out@);
    let piece = SubChunk { text: cur_text, token_count: cur_tokens, line_offset: start };
    let ghost elem = piece@;
    out.push(piece);
    proof {
        assert(elem == f((start as nat, i as nat)));
        assert(sub_chunk_views(out@) =~= old_out.push(elem));
        assert(sub_chunk_views(out@) =~= split_spec(text@, max_tokens as nat));
        lemma_split_facts(&out, text@, max_tokens as nat);
    }
    Some(out)
}

} // verus!
