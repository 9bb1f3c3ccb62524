use vstd::prelude::*;
use crate::hash::{content_id, content_id_of};
use crate::lang_driver::{
    clean_kind, clean_kind_chars, driver_for_extension, driver_of, lower_of, LanguageDriver,
};
use crate::syntax::{node_ok, SyntaxNode, SyntaxTree};
use crate::text::{
    append_chars, chars_of, first_line, first_line_of, join_chars, join_with, lines_of,
    newline, slice_chars, split_lines, string_of, trim, trim_chars, views,
};
use crate::tokens::{
    lemma_split_complete, lemma_split_within_budget, slice_texts, split_ok, split_spec, split_text_by_token_limit,
    sub_chunk_views, token_count_of,
};
use crate::types::{chunk_views, ChunkData, ChunkModel};

verus! {

/// `a + b`, or the largest `usize` where the sum is larger.
pub open spec fn sat_add(a: nat, b: nat) -> nat {
    if a + b <= usize::MAX {
        a + b
    } else {
        usize::MAX as nat
    }
}

pub open spec fn node_text(content: Seq<char>, n: SyntaxNode) -> Seq<char> {
    content.subrange(n.start as int, n.end as int)
}

/// How an enclosing scope shows in a breadcrumb: `kind(name)`, with `?` for a
/// scope without a name.
pub open spec fn scope_label(d: LanguageDriver, n: SyntaxNode, content: Seq<char>) -> Seq<char> {
    let name = match d.name_of(n, content) {
        Some(s) => s,
        None => "?"@,
    };
    clean_kind(n.kind@) + "("@ + name + ")"@
}

/// The labels of the named scopes around node `i`, outermost first.
pub open spec fn scope_labels(
    d: LanguageDriver,
    nodes: Seq<SyntaxNode>,
    content: Seq<char>,
    i: int,
) -> Seq<Seq<char>>
    decreases i,
{
    if 0 <= i < nodes.len() && nodes[i].parent is Some && nodes[i].parent->0 < i {
        let p = nodes[i].parent->0 as int;
        let up = scope_labels(d, nodes, content, p);
        if d.is_scope_kind(nodes[p].kind@) {
            up.push(scope_label(d, nodes[p], content))
        } else {
            up
        }
    } else {
        seq![]
    }
}

/// A breadcrumb: the labels joined by ` > `, or `root` where there are none.
pub open spec fn context_of(labels: Seq<Seq<char>>) -> Seq<char> {
    if labels.len() == 0 {
        "root"@
    } else {
        join_with(labels, " > "@)
    }
}

/// The comment nodes that run up to node `i` among its earlier siblings, in
/// source order.
pub open spec fn comment_run(d: LanguageDriver, nodes: Seq<SyntaxNode>, i: int) -> Seq<int>
    decreases i,
{
    if 0 <= i < nodes.len() && nodes[i].prev_sibling is Some && nodes[i].prev_sibling->0 < i
        && d.is_comment_kind(nodes[nodes[i].prev_sibling->0 as int].kind@) {
        let s = nodes[i].prev_sibling->0 as int;
        comment_run(d, nodes, s).push(s)
    } else {
        seq![]
    }
}

/// The comment block of node `i`: its comments, each trimmed, one per line.
pub open spec fn comment_block(
    d: LanguageDriver,
    nodes: Seq<SyntaxNode>,
    content: Seq<char>,
    i: int,
) -> Seq<char> {
    join_with(
        comment_run(d, nodes, i).map_values(|s: int| trim(node_text(content, nodes[s]))),
        newline(),
    )
}

/// The text that a chunk is split from: its comment block, a line break and its
/// code. Where there is no comment the text starts with the line break.
pub open spec fn chunk_text(comment: Seq<char>, code: Seq<char>) -> Seq<char> {
    comment + newline() + code
}

/// The number of line breaks in `s`.
pub open spec fn line_breaks(s: Seq<char>) -> nat
    decreases s.len(),
{
    if s.len() == 0 {
        0
    } else {
        line_breaks(s.drop_last()) + if s.last() == '\n' {
            1nat
        } else {
            0nat
        }
    }
}

/// The 0-based line of `content` on which position `pos` stands.
pub open spec fn row_at(content: Seq<char>, pos: int) -> nat {
    line_breaks(content.subrange(0, pos))
}

/// One declaration with what was found around it, before splitting.
pub struct LogicalChunk {
    pub chunk_type: Vec<char>,
    pub chunk_name: Vec<char>,
    pub context: Vec<char>,
    pub comment: Vec<char>,
    pub signature: Vec<char>,
    pub code: Vec<char>,
    pub text: Vec<char>,
    /// The 1-based line of the first comment in the source, or of the declaration
    /// where it has none.
    pub start_line: usize,
}

pub struct LogicalModel {
    pub chunk_type: Seq<char>,
    pub chunk_name: Seq<char>,
    pub context: Seq<char>,
    pub comment: Seq<char>,
    pub signature: Seq<char>,
    pub code: Seq<char>,
    pub text: Seq<char>,
    pub start_line: nat,
}

impl View for LogicalChunk {
    type V = LogicalModel;

    open spec fn view(&self) -> LogicalModel {
        LogicalModel {
            chunk_type: self.chunk_type@,
            chunk_name: self.chunk_name@,
            context: self.context@,
            comment: self.comment@,
            signature: self.signature@,
            code: self.code@,
            text: self.text@,
            start_line: self.start_line as nat,
        }
    }
}

pub open spec fn logical_views(v: Seq<LogicalChunk>) -> Seq<LogicalModel> {
    v.map_values(|c: LogicalChunk| c@)
}

/// The logical chunk of declaration node `i`.
pub open spec fn logical_chunk_of(
    d: LanguageDriver,
    nodes: Seq<SyntaxNode>,
    content: Seq<char>,
    i: int,
) -> LogicalModel {
    let n = nodes[i];
    let code = node_text(content, n);
    let comment = comment_block(d, nodes, content, i);
    let run = comment_run(d, nodes, i);
    let row = if run.len() > 0 {
        row_at(content, nodes[run[0]].start as int)
    } else {
        row_at(content, n.start as int)
    };
    LogicalModel {
        chunk_type: n.kind@,
        chunk_name: match d.name_of(n, content) {
            Some(s) => s,
            None => "anonymous"@,
        },
        context: context_of(scope_labels(d, nodes, content, i)),
        comment,
        signature: first_line(code),
        code,
        text: chunk_text(comment, code),
        start_line: sat_add(row as nat, 1),
    }
}

/// The logical chunks of the first `m` nodes, in node order.
pub open spec fn logical_chunks(
    d: LanguageDriver,
    nodes: Seq<SyntaxNode>,
    content: Seq<char>,
    m: nat,
) -> Seq<LogicalModel>
    decreases m,
{
    if m == 0 {
        seq![]
    } else {
        let before = logical_chunks(d, nodes, content, (m - 1) as nat);
        if d.is_declaration_kind(nodes[m - 1].kind@) {
            before.push(logical_chunk_of(d, nodes, content, m - 1))
        } else {
            before
        }
    }
}

/// The record of the `k`-th slice of logical chunk `lc`.
pub open spec fn record_of(
    d: LanguageDriver,
    path: Seq<char>,
    lc: LogicalModel,
    slice: (Seq<char>, nat, nat),
    k: nat,
) -> ChunkModel {
    let start = sat_add(lc.start_line, slice.2);
    ChunkModel {
        id: content_id_of(slice.0, k),
        file_path: path,
        language: d.label(),
        chunk_type: lc.chunk_type,
        chunk_name: lc.chunk_name,
        context: lc.context,
        signature: lc.signature,
        comment: lc.comment,
        code: slice.0,
        start_line: start,
        end_line: sat_add(start, (split_lines(slice.0).len() - 1) as nat),
        token_count: token_count_of(slice.0),
    }
}

/// The records of logical chunk `lc` for a budget of `max` tokens.
pub open spec fn chunk_records(
    d: LanguageDriver,
    path: Seq<char>,
    lc: LogicalModel,
    max: nat,
) -> Seq<ChunkModel> {
    let slices = split_spec(lc.text, max);
    Seq::new(slices.len(), |k: int| record_of(d, path, lc, slices[k], k as nat))
}

/// The records of the first `m` logical chunks, in order.
pub open spec fn records_of_chunks(
    d: LanguageDriver,
    path: Seq<char>,
    lcs: Seq<LogicalModel>,
    max: nat,
    m: nat,
) -> Seq<ChunkModel>
    decreases m,
{
    if m == 0 || m > lcs.len() {
        seq![]
    } else {
        records_of_chunks(d, path, lcs, max, (m - 1) as nat) + chunk_records(
            d,
            path,
            lcs[m - 1],
            max,
        )
    }
}

/// Whether every count that splitting the chunks of a file needs succeeds.
pub open spec fn file_ok(
    d: LanguageDriver,
    nodes: Seq<SyntaxNode>,
    content: Seq<char>,
    max: nat,
) -> bool {
    let lcs = logical_chunks(d, nodes, content, nodes.len());
    forall|j: int| 0 <= j < lcs.len() ==> split_ok(#[trigger] lcs[j].text, max)
}

/// The records of a whole file.
pub open spec fn file_records(
    d: LanguageDriver,
    path: Seq<char>,
    nodes: Seq<SyntaxNode>,
    content: Seq<char>,
    max: nat,
) -> Seq<ChunkModel> {
    let lcs = logical_chunks(d, nodes, content, nodes.len());
    records_of_chunks(d, path, lcs, max, lcs.len())
}

fn scope_label_chars(d: LanguageDriver, n: &SyntaxNode, content: &Vec<char>) -> (r: Vec<char>)
    requires
        n.name_field is Some ==> n.name_field->0.start <= n.name_field->0.end <= content@.len(),
        n.type_field is Some ==> n.type_field->0.start <= n.type_field->0.end <= content@.len(),
    ensures
        r@ == scope_label(d, *n, content@),
{
    let mut r = clean_kind_chars(&n.kind);
    append_chars(&mut r, &chars_of("("));
    match d.extract_name(n, content) {
        Some(name) => append_chars(&mut r, &name),
        None => append_chars(&mut r, &chars_of("?")),
    }
    append_chars(&mut r, &chars_of(")"));
    r
}

/// The labels of the named scopes around node `i`, outermost first.
fn scope_labels_of(d: LanguageDriver, tree: &SyntaxTree, content: &Vec<char>, i: usize) -> (r: Vec<
    Vec<char>,
>)
    requires
        tree.wf(content@.len()),
        i < tree.nodes@.len(),
    ensures
        views(r@) == scope_labels(d, tree.nodes@, content@, i as int),
    decreases i,
{
    match tree.nodes[i].parent {
        Some(p) => {
            assert(node_ok(tree.nodes@[i as int], i as int, content@.len()));
            let mut up = scope_labels_of(d, tree, content, p);
            if d.is_scope(&tree.nodes[p].kind) {
                assert(node_ok(tree.nodes@[p as int], p as int, content@.len()));
                let label = scope_label_chars(d, &tree.nodes[p], content);
                let ghost before = views(up@);
                up.push(label);
                assert(views(up@) =~= before.push(label@));
            }
            up
        },
        None => Vec::new(),
    }
}

/// The breadcrumb of node `i`: the named scopes around it, outermost first.
pub fn breadcrumb(d: LanguageDriver, tree: &SyntaxTree, content: &Vec<char>, i: usize) -> (r: Vec<
    char,
>)
    requires
        tree.wf(content@.len()),
        i < tree.nodes@.len(),
    ensures
        r@ == context_of(scope_labels(d, tree.nodes@, content@, i as int)),
{
    let labels = scope_labels_of(d, tree, content, i);
    if labels.len() == 0 {
        chars_of("root")
    } else {
        join_chars(&labels, &chars_of(" > "))
    }
}

/// The comment nodes that run up to node `i` among its earlier siblings.
fn comment_run_of(d: LanguageDriver, tree: &SyntaxTree, content_len: Ghost<nat>, i: usize) -> (r: Vec<
    usize,
>)
    requires
        tree.wf(content_len@),
        i < tree.nodes@.len(),
    ensures
        r@.map_values(|x: usize| x as int) == comment_run(d, tree.nodes@, i as int),
        forall|k: int| 0 <= k < r@.len() ==> r@[k] < i,
    decreases i,
{
    match tree.nodes[i].prev_sibling {
        Some(s) => {
            assert(node_ok(tree.nodes@[i as int], i as int, content_len@));
            if d.is_comment(&tree.nodes[s].kind) {
                let mut run = comment_run_of(d, tree, content_len, s);
                let ghost before = run@.map_values(|x: usize| x as int);
                run.push(s);
                assert(run@.map_values(|x: usize| x as int) =~= before.push(s as int));
                run
            } else {
                Vec::new()
            }
        },
        None => Vec::new(),
    }
}

/// The comment block of node `i`: the comments just before it, each trimmed, one per
/// line; empty where there are none.
pub fn get_preceding_comments(
    d: LanguageDriver,
    tree: &SyntaxTree,
    content: &Vec<char>,
    i: usize,
) -> (r: Vec<char>)
    requires
        tree.wf(content@.len()),
        i < tree.nodes@.len(),
    ensures
        r@ == comment_block(d, tree.nodes@, content@, i as int),
{
    let run = comment_run_of(d, tree, Ghost(content@.len()), i);
    let ghost run_spec = comment_run(d, tree.nodes@, i as int);
    let ghost texts_spec = run_spec.map_values(
        |s: int| trim(node_text(content@, tree.nodes@[s])),
    );
    let mut texts: Vec<Vec<char>> = Vec::new();
    let mut k: usize = 0;
    while k < run.len()
        invariant
            tree.wf(content@.len()),
            i < tree.nodes@.len(),
            k <= run@.len(),
            run@.map_values(|x: usize| x as int) == run_spec,
            forall|j: int| 0 <= j < run@.len() ==> run@[j] < i,
            texts_spec == run_spec.map_values(|s: int| trim(node_text(content@, tree.nodes@[s]))),
            views(texts@) == texts_spec.subrange(0, k as int),
        decreases run@.len() - k,
    {
        let s = run[k];
        assert(run_spec[k as int] == s as int);
        assert(node_ok(tree.nodes@[s as int], s as int, content@.len()));
        let raw = slice_chars(content, tree.nodes[s].start, tree.nodes[s].end);
        let t = trim_chars(&raw);
        let ghost before = views(texts@);
        assert(texts_spec[k as int] == t@);
        texts.push(t);
        assert(views(texts@) =~= before.push(t@));
        k = k + 1;
        assert(views(texts@) =~= texts_spec.subrange(0, k as int));
    }
    assert(texts_spec.subrange(0, run@.len() as int) =~= texts_spec);
    let nl = chars_of("\n");
    proof {
        reveal_strlit("\n");
        assert(nl@ =~= newline());
    }
    join_chars(&texts, &nl)
}


/// The 0-based line of `content` on which position `pos` stands.
pub fn row_of(content: &Vec<char>, pos: usize) -> (r: usize)
    requires
        pos <= content@.len(),
    ensures
        r as nat == row_at(content@, pos as int),
{
    let mut count: usize = 0;
    let mut j: usize = 0;
    while j < pos
        invariant
            j <= pos <= content@.len(),
            count <= j,
            count as nat == line_breaks(content@.subrange(0, j as int)),
        decreases pos - j,
    {
        assert(content@.subrange(0, j + 1).drop_last() =~= content@.subrange(0, j as int));
        if content[j] == '\n' {
            count = count + 1;
        }
        j = j + 1;
    }
    count
}

/// The logical chunk of node `i`.
fn logical_chunk(d: LanguageDriver, tree: &SyntaxTree, content: &Vec<char>, i: usize) -> (r:
    LogicalChunk)
    requires
        tree.wf(content@.len()),
        i < tree.nodes@.len(),
    ensures
        r@ == logical_chunk_of(d, tree.nodes@, content@, i as int),
{
    let n = &tree.nodes[i];
    assert(node_ok(tree.nodes@[i as int], i as int, content@.len()));
    let code = slice_chars(content, n.start, n.end);
    let run = comment_run_of(d, tree, Ghost(content@.len()), i);
    let ghost run_spec = comment_run(d, tree.nodes@, i as int);
    let comment = get_preceding_comments(d, tree, content, i);
    let row = if run.len() > 0 {
        assert(run_spec[0] == run@[0] as int);
        assert(node_ok(tree.nodes@[run@[0] as int], run@[0] as int, content@.len()));
        row_of(content, tree.nodes[run[0]].start)
    } else {
        row_of(content, n.start)
    };
    let chunk_name = match d.extract_name(n, content) {
        Some(name) => name,
        None => chars_of("anonymous"),
    };
    let context = breadcrumb(d, tree, content, i);
    let signature = first_line_of(&code);
    let mut text = comment.clone();
    let nl = chars_of("\n");
    proof {
        reveal_strlit("\n");
        assert(nl@ =~= newline());
    }
    append_chars(&mut text, &nl);
    append_chars(&mut text, &code);
    LogicalChunk {
        chunk_type: chars_of(n.kind.as_str()),
        chunk_name,
        context,
        comment,
        signature,
        code,
        text,
        start_line: row.saturating_add(1),
    }
}

/// One logical chunk per declaration node of `tree`, in node order: its breadcrumb,
/// the comments just before it and its first line.
pub fn find_chunks(d: LanguageDriver, tree: &SyntaxTree, content: &str) -> (r: Vec<LogicalChunk>)
    requires
        tree.wf(content@.len()),
    ensures
        logical_views(r@) == logical_chunks(d, tree.nodes@, content@, tree.nodes@.len()),
{
    let text = chars_of(content);
    let mut out: Vec<LogicalChunk> = Vec::new();
    let mut i: usize = 0;
    while i < tree.nodes.len()
        invariant
            tree.wf(content@.len()),
            text@ == content@,
            i <= tree.nodes@.len(),
            logical_views(out@) == logical_chunks(d, tree.nodes@, content@, i as nat),
        decreases tree.nodes@.len() - i,
    {
        if d.is_declaration(&tree.nodes[i].kind) {
            let lc = logical_chunk(d, tree, &text, i);
            let ghost before = logical_views(out@);
            out.push(lc);
            assert(logical_views(out@) =~= before.push(lc@));
        }
        i = i + 1;
    }
    out
}

/// The records of one logical chunk: one per slice of its text for a budget of
/// `max_chunk_tokens` tokens, each with the slice's identifier, lines and tokens.
/// `None` where the encoder fails on a text that the split needs counted.
pub fn chunk_records_of(
    d: LanguageDriver,
    file_path: &str,
    lc: &LogicalChunk,
    max_chunk_tokens: usize,
) -> (r: Option<Vec<ChunkData>>)
    ensures
        r is Some == split_ok(lc@.text, max_chunk_tokens as nat),
        r is Some ==> chunk_views(r->0@) == chunk_records(
            d,
            file_path@,
            lc@,
            max_chunk_tokens as nat,
        ),
{
    let slices = match split_text_by_token_limit(&lc.text, max_chunk_tokens) {
        Some(v) => v,
        None => return None,
    };
    let ghost spec_slices = split_spec(lc@.text, max_chunk_tokens as nat);
    let ghost all = chunk_records(d, file_path@, lc@, max_chunk_tokens as nat);
    let mut out: Vec<ChunkData> = Vec::new();
    let mut k: usize = 0;
    while k < slices.len()
        invariant
            sub_chunk_views(slices@) == spec_slices,
            forall|j: int|
                0 <= j < slices@.len() ==> (#[trigger] slices@[j]).token_count == token_count_of(
                    slices@[j].text@,
                ),
            spec_slices == split_spec(lc@.text, max_chunk_tokens as nat),
            all == chunk_records(d, file_path@, lc@, max_chunk_tokens as nat),
            k <= slices@.len(),
            chunk_views(out@) == all.subrange(0, k as int),
        decreases slices@.len() - k,
    {
        let slice = &slices[k];
        assert(spec_slices[k as int] == slice@);
        let start = lc.start_line.saturating_add(slice.line_offset);
        let lines = lines_of(&slice.text);
        let end = start.saturating_add(lines.len() - 1);
        let record = ChunkData {
            id: content_id(&slice.text, k),
            file_path: file_path.to_owned(),
            language: d.get_name().to_owned(),
            chunk_type: string_of(&lc.chunk_type),
            chunk_name: string_of(&lc.chunk_name),
            context: string_of(&lc.context),
            signature: string_of(&lc.signature),
            comment: string_of(&lc.comment),
            code: string_of(&slice.text),
            start_line: start,
            end_line: end,
            token_count: slice.token_count,
        };
        assert(record@ == all[k as int]);
        let ghost before = chunk_views(out@);
        let ghost rv = record@;
        out.push(record);
        assert(chunk_views(out@) =~= before.push(rv));
        k = k + 1;
        assert(chunk_views(out@) =~= all.subrange(0, k as int));
    }
    assert(all.subrange(0, k as int) =~= all);
    Some(out)
}

/// The records of one file: none where no language uses its extension; else the
/// records of each declaration in node order, its slices in order. `None` where the
/// encoder fails on a text that the split needs counted.
pub fn process_file(
    file_path: &str,
    extension: &str,
    content: &str,
    tree: &SyntaxTree,
    max_chunk_tokens: usize,
) -> (r: Option<Vec<ChunkData>>)
    requires
        tree.wf(content@.len()),
    ensures
        driver_of(lower_of(extension@)) is None ==> r is Some && r->0@.len() == 0,
        driver_of(lower_of(extension@)) is Some ==> {
            let d = driver_of(lower_of(extension@))->0;
            &&& r is Some == file_ok(d, tree.nodes@, content@, max_chunk_tokens as nat)
            &&& r is Some ==> chunk_views(r->0@) == file_records(
                d,
                file_path@,
                tree.nodes@,
                content@,
                max_chunk_tokens as nat,
            )
        },
{
    let d = match driver_for_extension(extension) {
        Some(d) => d,
        None => return Some(Vec::new()),
    };
    let chunks = find_chunks(d, tree, content);
    let ghost lcs = logical_chunks(d, tree.nodes@, content@, tree.nodes@.len());
    let mut out: Vec<ChunkData> = Vec::new();
    let mut m: usize = 0;
    while m < chunks.len()
        invariant
            logical_views(chunks@) == lcs,
            lcs == logical_chunks(d, tree.nodes@, content@, tree.nodes@.len()),
            driver_of(lower_of(extension@)) == Some(d),
            m <= chunks@.len(),
            forall|j: int| 0 <= j < m ==> split_ok(#[trigger] lcs[j].text, max_chunk_tokens as nat),
            chunk_views(out@) == records_of_chunks(
                d,
                file_path@,
                lcs,
                max_chunk_tokens as nat,
                m as nat,
            ),
        decreases chunks@.len() - m,
    {
        assert(lcs[m as int] == chunks@[m as int]@);
        let mut records = match chunk_records_of(d, file_path, &chunks[m], max_chunk_tokens) {
            Some(v) => v,
            None => return None,
        };
        let ghost before = chunk_views(out@);
        let ghost added = chunk_views(records@);
        out.append(&mut records);
        m = m + 1;
        assert(chunk_views(out@) =~= before + added);
    }
    Some(out)
}

/// The code of the records of one logical chunk, joined by line breaks in order,
/// is the chunk's whole text.
pub proof fn lemma_records_complete(d: LanguageDriver, path: Seq<char>, lc: LogicalModel, max: nat)
    ensures
        chunk_records(d, path, lc, max).len() >= 1,
        join_with(
            chunk_records(d, path, lc, max).map_values(|r: ChunkModel| r.code),
            newline(),
        ) == lc.text,
{
    lemma_split_complete(lc.text, max);
    assert(chunk_records(d, path, lc, max).map_values(|r: ChunkModel| r.code) =~= slice_texts(
        split_spec(lc.text, max),
    ));
}

/// Whether the nearest named scope above node `i` is node `b`.
pub open spec fn nearest_scope_is(d: LanguageDriver, nodes: Seq<SyntaxNode>, i: int, b: int) -> bool
    decreases i,
{
    if 0 <= i < nodes.len() && nodes[i].parent is Some && nodes[i].parent->0 < i {
        let p = nodes[i].parent->0 as int;
        if d.is_scope_kind(nodes[p].kind@) {
            p == b
        } else {
            nearest_scope_is(d, nodes, p, b)
        }
    } else {
        false
    }
}

/// Whether no named scope lies above node `i`.
pub open spec fn no_scope_above(d: LanguageDriver, nodes: Seq<SyntaxNode>, i: int) -> bool
    decreases i,
{
    if 0 <= i < nodes.len() && nodes[i].parent is Some && nodes[i].parent->0 < i {
        let p = nodes[i].parent->0 as int;
        !d.is_scope_kind(nodes[p].kind@) && no_scope_above(d, nodes, p)
    } else {
        true
    }
}

proof fn lemma_labels_through_nearest(
    d: LanguageDriver,
    nodes: Seq<SyntaxNode>,
    content: Seq<char>,
    i: int,
    b: int,
)
    requires
        nearest_scope_is(d, nodes, i, b),
    ensures
        0 <= b < i,
        scope_labels(d, nodes, content, i) == scope_labels(d, nodes, content, b).push(
            scope_label(d, nodes[b], content),
        ),
    decreases i,
{
    let p = nodes[i].parent->0 as int;
    if !d.is_scope_kind(nodes[p].kind@) {
        lemma_labels_through_nearest(d, nodes, content, p, b);
    }
}

proof fn lemma_labels_at_top(d: LanguageDriver, nodes: Seq<SyntaxNode>, content: Seq<char>, i: int)
    requires
        no_scope_above(d, nodes, i),
    ensures
        scope_labels(d, nodes, content, i) == Seq::<Seq<char>>::empty(),
    decreases i,
{
    if 0 <= i < nodes.len() && nodes[i].parent is Some && nodes[i].parent->0 < i {
        lemma_labels_at_top(d, nodes, content, nodes[i].parent->0 as int);
    }
}

/// A declaration with no named scope above it has the breadcrumb `root`.
pub proof fn lemma_breadcrumb_top_level(
    d: LanguageDriver,
    nodes: Seq<SyntaxNode>,
    content: Seq<char>,
    i: int,
)
    requires
        no_scope_above(d, nodes, i),
    ensures
        context_of(scope_labels(d, nodes, content, i)) == "root"@,
{
    lemma_labels_at_top(d, nodes, content, i);
}

/// A declaration nested in scope `b`, itself nested in the outermost scope `a`,
/// has the breadcrumb `a > b`, each shown as `kind(name)`.
pub proof fn lemma_breadcrumb_two_scopes(
    d: LanguageDriver,
    nodes: Seq<SyntaxNode>,
    content: Seq<char>,
    i: int,
    a: int,
    b: int,
)
    requires
        nearest_scope_is(d, nodes, i, b),
        nearest_scope_is(d, nodes, b, a),
        no_scope_above(d, nodes, a),
    ensures
        context_of(scope_labels(d, nodes, content, i)) == scope_label(d, nodes[a], content)
            + " > "@ + scope_label(d, nodes[b], content),
{
    lemma_labels_through_nearest(d, nodes, content, i, b);
    lemma_labels_through_nearest(d, nodes, content, b, a);
    lemma_labels_at_top(d, nodes, content, a);
    let labels = scope_labels(d, nodes, content, i);
    assert(labels =~= seq![scope_label(d, nodes[a], content), scope_label(d, nodes[b], content)]);
    assert(labels.drop_last() =~= seq![scope_label(d, nodes[a], content)]);
    assert(join_with(labels.drop_last(), " > "@) == scope_label(d, nodes[a], content));
    assert(join_with(labels, " > "@) == join_with(labels.drop_last(), " > "@) + " > "@
        + labels.last());
}

/// Two comments just before a declaration, themselves after a node that is no
/// comment, make its comment block: both, in source order, and nothing before them.
pub proof fn lemma_two_comments_attach(
    d: LanguageDriver,
    nodes: Seq<SyntaxNode>,
    content: Seq<char>,
    i: usize,
    c1: usize,
    c2: usize,
)
    requires
        c1 < c2 < i < nodes.len(),
        nodes[i as int].prev_sibling == Some(c2),
        nodes[c2 as int].prev_sibling == Some(c1),
        d.is_comment_kind(nodes[c1 as int].kind@),
        d.is_comment_kind(nodes[c2 as int].kind@),
        nodes[c1 as int].prev_sibling is Some ==> nodes[c1 as int].prev_sibling->0 < c1
            && !d.is_comment_kind(nodes[nodes[c1 as int].prev_sibling->0 as int].kind@),
    ensures
        comment_block(d, nodes, content, i as int) == trim(node_text(content, nodes[c1 as int]))
            + newline() + trim(node_text(content, nodes[c2 as int])),
{
    assert(comment_run(d, nodes, c1 as int) =~= Seq::<int>::empty());
    assert(comment_run(d, nodes, c2 as int) =~= seq![c1 as int]);
    assert(comment_run(d, nodes, i as int) =~= seq![c1 as int, c2 as int]);
    let texts = comment_run(d, nodes, i as int).map_values(
        |s: int| trim(node_text(content, nodes[s])),
    );
    assert(texts.drop_last() =~= seq![trim(node_text(content, nodes[c1 as int]))]);
    assert(join_with(texts.drop_last(), newline()) == trim(node_text(content, nodes[c1 as int])));
    assert(join_with(texts, newline()) == join_with(texts.drop_last(), newline()) + newline()
        + texts.last());
}

/// Each record's identifier is the content address of its code and of its place
/// among the slices of its chunk, and nothing else.
pub proof fn lemma_ids_are_content_addresses(
    d: LanguageDriver,
    path: Seq<char>,
    lc: LogicalModel,
    max: nat,
)
    ensures
        forall|k: int|
            0 <= k < chunk_records(d, path, lc, max).len() ==> (#[trigger] chunk_records(
                d,
                path,
                lc,
                max,
            )[k]).id == content_id_of(chunk_records(d, path, lc, max)[k].code, k as nat),
{
}

proof fn lemma_two_declarations(
    d: LanguageDriver,
    nodes: Seq<SyntaxNode>,
    content: Seq<char>,
    c: int,
    f: int,
    m: nat,
)
    requires
        0 <= c < f < nodes.len(),
        m <= nodes.len(),
        forall|j: int|
            0 <= j < nodes.len() ==> (d.is_declaration_kind(#[trigger] nodes[j].kind@) <==> (j
                == c || j == f)),
    ensures
        logical_chunks(d, nodes, content, m) == if m <= c {
            Seq::<LogicalModel>::empty()
        } else if m <= f {
            seq![logical_chunk_of(d, nodes, content, c)]
        } else {
            seq![logical_chunk_of(d, nodes, content, c), logical_chunk_of(d, nodes, content, f)]
        },
    decreases m,
{
    if m > 0 {
        lemma_two_declarations(d, nodes, content, c, f, (m - 1) as nat);
        assert(d.is_declaration_kind(nodes[m - 1].kind@) <==> (m - 1 == c || m - 1 == f));
        if m - 1 == f {
            assert(seq![logical_chunk_of(d, nodes, content, c)].push(
                logical_chunk_of(d, nodes, content, f),
            ) =~= seq![logical_chunk_of(d, nodes, content, c), logical_chunk_of(d, nodes, content, f)]);
        }
        if m - 1 == c {
            assert(Seq::<LogicalModel>::empty().push(logical_chunk_of(d, nodes, content, c))
                =~= seq![logical_chunk_of(d, nodes, content, c)]);
        }
    }
}

/// A file whose only declarations are a top-level container `c` and a function `f`
/// nearest inside it, `f` just after its own doc comment `cf`, gives exactly two
/// records where both chunks' texts fit the budget: the container's, with the
/// breadcrumb `root`, then the function's, whose breadcrumb is the container's label,
/// whose comment is its doc comment, whose code is its whole text and whose token
/// count is that text's.
pub proof fn lemma_documented_container_and_function(
    d: LanguageDriver,
    path: Seq<char>,
    nodes: Seq<SyntaxNode>,
    content: Seq<char>,
    max: nat,
    c: usize,
    f: usize,
    cf: usize,
)
    requires
        c < f < nodes.len(),
        cf < f,
        forall|j: int|
            0 <= j < nodes.len() ==> (d.is_declaration_kind(#[trigger] nodes[j].kind@) <==> (j
                == c || j == f)),
        no_scope_above(d, nodes, c as int),
        nearest_scope_is(d, nodes, f as int, c as int),
        nodes[f as int].prev_sibling == Some(cf),
        d.is_comment_kind(nodes[cf as int].kind@),
        nodes[cf as int].prev_sibling is Some ==> nodes[cf as int].prev_sibling->0 < cf
            && !d.is_comment_kind(nodes[nodes[cf as int].prev_sibling->0 as int].kind@),
        trim(node_text(content, nodes[cf as int])).len() > 0,
        token_count_of(logical_chunk_of(d, nodes, content, c as int).text) <= max,
        token_count_of(logical_chunk_of(d, nodes, content, f as int).text) <= max,
    ensures
        ({
            let r = file_records(d, path, nodes, content, max);
            &&& r.len() == 2
            &&& r[0].chunk_type == nodes[c as int].kind@
            &&& r[0].context == "root"@
            &&& r[1].chunk_type == nodes[f as int].kind@
            &&& r[1].context == scope_label(d, nodes[c as int], content)
            &&& r[1].comment == trim(node_text(content, nodes[cf as int]))
            &&& r[1].code == trim(node_text(content, nodes[cf as int])) + newline() + node_text(
                content,
                nodes[f as int],
            )
            &&& r[1].token_count == token_count_of(r[1].code)
        }),
{
    let lcs = logical_chunks(d, nodes, content, nodes.len());
    lemma_two_declarations(d, nodes, content, c as int, f as int, nodes.len());
    let lc_c = logical_chunk_of(d, nodes, content, c as int);
    let lc_f = logical_chunk_of(d, nodes, content, f as int);
    assert(lcs == seq![lc_c, lc_f]);
    let r0 = chunk_records(d, path, lc_c, max);
    let r1 = chunk_records(d, path, lc_f, max);
    assert(records_of_chunks(d, path, lcs, max, 0) == Seq::<ChunkModel>::empty());
    assert(records_of_chunks(d, path, lcs, max, 1) == Seq::<ChunkModel>::empty() + r0);
    assert(records_of_chunks(d, path, lcs, max, 2) == records_of_chunks(d, path, lcs, max, 1)
        + r1);
    assert(r0.len() == 1);
    assert(r1.len() == 1);
    let r = file_records(d, path, nodes, content, max);
    assert(r =~= r0 + r1);
    assert(r[0] == r0[0]);
    assert(r[1] == r1[0]);
    lemma_breadcrumb_top_level(d, nodes, content, c as int);
    lemma_labels_through_nearest(d, nodes, content, f as int, c as int);
    lemma_labels_at_top(d, nodes, content, c as int);
    assert(scope_labels(d, nodes, content, f as int) =~= seq![scope_label(d, nodes[c as int], content)]);
    assert(comment_run(d, nodes, cf as int) =~= Seq::<int>::empty());
    assert(comment_run(d, nodes, f as int) =~= seq![cf as int]);
    let texts = comment_run(d, nodes, f as int).map_values(
        |s: int| trim(node_text(content, nodes[s])),
    );
    assert(texts =~= seq![trim(node_text(content, nodes[cf as int]))]);
    assert(lc_f.comment == trim(node_text(content, nodes[cf as int])));
    assert(r[0].chunk_type == nodes[c as int].kind@);
    assert(r[0].context == "root"@);
    assert(r[1].chunk_type == nodes[f as int].kind@);
    assert(r[1].context == scope_label(d, nodes[c as int], content));
    assert(r[1].comment == lc_f.comment);
    assert(r[1].code == lc_f.text);
    assert(r[1].token_count == token_count_of(r[1].code));
}


/// Every record of a file counts at most `max` tokens, but for a record of a single
/// line that alone counts more.
pub proof fn lemma_records_within_budget(
    d: LanguageDriver,
    path: Seq<char>,
    nodes: Seq<SyntaxNode>,
    content: Seq<char>,
    max: nat,
)
    ensures
        forall|k: int|
            0 <= k < file_records(d, path, nodes, content, max).len() ==> {
                let r = #[trigger] file_records(d, path, nodes, content, max)[k];
                r.token_count <= max || !r.code.contains('\n')
            },
{
    let lcs = logical_chunks(d, nodes, content, nodes.len());
    lemma_chunks_within_budget(d, path, lcs, max, lcs.len());
}

proof fn lemma_chunks_within_budget(
    d: LanguageDriver,
    path: Seq<char>,
    lcs: Seq<LogicalModel>,
    max: nat,
    m: nat,
)
    ensures
        forall|k: int|
            0 <= k < records_of_chunks(d, path, lcs, max, m).len() ==> {
                let r = #[trigger] records_of_chunks(d, path, lcs, max, m)[k];
                r.token_count <= max || !r.code.contains('\n')
            },
    decreases m,
{
    if m > 0 && m <= lcs.len() {
        lemma_chunks_within_budget(d, path, lcs, max, (m - 1) as nat);
        let before = records_of_chunks(d, path, lcs, max, (m - 1) as nat);
        let added = chunk_records(d, path, lcs[m - 1], max);
        lemma_split_within_budget(lcs[m - 1].text, max);
        let slices = split_spec(lcs[m - 1].text, max);
        let all = records_of_chunks(d, path, lcs, max, m);
        assert(all == before + added);
        assert forall|k: int| 0 <= k < all.len() implies {
            let r = #[trigger] all[k];
            r.token_count <= max || !r.code.contains('\n')
        } by {
            if k >= before.len() {
                let j = k - before.len();
                assert(all[k] == added[j]);
                let sl = slices[j];
                assert(sl.1 == token_count_of(sl.0));
            } else {
                assert(all[k] == before[k]);
            }
        }
    }
}

} // verus!
