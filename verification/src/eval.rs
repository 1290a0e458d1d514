//! The block evaluator: a stack machine over the token sequence.
//!
//! Output grows in a single buffer.  A loop or conditional opener records
//! the buffer offset where its body starts; the matching closer captures
//! the text from that offset on, truncates the buffer back, and re-appends
//! what the block produces.  Variable and condition lookups read only the
//! first row of the dataset, by design.  A file-splicing directive
//! evaluates the referenced template against the same dataset, guarded by
//! the set of paths already spliced during the current render: a path
//! already in the guard set is skipped, which both breaks inclusion cycles
//! and keeps any path from expanding twice in one render.
use vstd::prelude::*;

use crate::RenderError;
use crate::strmap::{StrMap, key_set, lookup};
use crate::text::{
    chars_of_str, replace_all, replace_sub, split_list, split_sub, string_of_chars, sub_chars,
};
use crate::token::{Token, TokenV, tokenize, tokenize_spec};

verus! {

/// One row: field name to field value, in entry order.
pub type RowV = Seq<(Seq<char>, Seq<char>)>;

/// One open block during evaluation: the names it was opened with and the
/// buffer offset where its body starts.
pub enum Frame {
    ForLoop(String, String, usize),
    IfCond(String, usize),
}

/// The mathematical model of a block frame.
pub ghost enum FrameV {
    ForLoop(Seq<char>, Seq<char>, int),
    IfCond(Seq<char>, int),
}

impl View for Frame {
    type V = FrameV;

    open spec fn view(&self) -> FrameV {
        match self {
            Frame::ForLoop(item, list, start) => FrameV::ForLoop(item@, list@, *start as int),
            Frame::IfCond(cond, start) => FrameV::IfCond(cond@, *start as int),
        }
    }
}

impl DeepView for Frame {
    type V = FrameV;

    open spec fn deep_view(&self) -> FrameV {
        self.view()
    }
}

pub open spec fn frame_start(f: FrameV) -> int {
    match f {
        FrameV::ForLoop(_, _, start) => start,
        FrameV::IfCond(_, start) => start,
    }
}

/// The evaluator state between tokens: the output buffer and the stack of
/// open blocks.
pub ghost struct StV {
    pub out: Seq<char>,
    pub stack: Seq<FrameV>,
}

/// Every recorded offset lies within the buffer, and offsets grow from
/// the bottom of the stack to the top.
pub open spec fn stack_wf(stack: Seq<FrameV>, out_len: int) -> bool {
    &&& forall|k: int| 0 <= k < stack.len() ==> 0 <= frame_start(#[trigger] stack[k]) <= out_len
    &&& forall|k: int|
        0 <= k < stack.len() - 1 ==> frame_start(#[trigger] stack[k]) <= frame_start(stack[k + 1])
}

pub open spec fn st_wf(st: StV) -> bool {
    stack_wf(st.stack, st.out.len() as int)
}

/// The value of `name` in the first row, if the dataset has a first row
/// that carries it.
pub open spec fn first_row_val(data: Seq<RowV>, name: Seq<char>) -> Option<Seq<char>> {
    if data.len() > 0 {
        lookup(data[0], name)
    } else {
        None
    }
}

/// A condition holds exactly when the first row maps it to the literal
/// text `true`.
pub open spec fn cond_true(data: Seq<RowV>, cond: Seq<char>) -> bool {
    first_row_val(data, cond) == Some("true"@)
}

/// The literal placeholder a loop body carries for its item.
pub open spec fn item_pat(item: Seq<char>) -> Seq<char> {
    seq!['{', ' '] + item + seq![' ', '}']
}

/// The loop body expanded for every comma-separated item of every row's
/// list field: each expansion replaces the literal item placeholder only,
/// with no re-tokenization of the body.
pub open spec fn items_expansion(items: Seq<Seq<char>>, ip: Seq<char>, body: Seq<char>) -> Seq<
    char,
>
    decreases items.len(),
{
    if items.len() == 0 {
        Seq::empty()
    } else {
        replace_sub(body, ip, items[0]) + items_expansion(items.drop_first(), ip, body)
    }
}

pub open spec fn row_expansion(row: RowV, ip: Seq<char>, list: Seq<char>, body: Seq<char>) -> Seq<
    char,
> {
    match lookup(row, list) {
        None => Seq::empty(),
        Some(val) => items_expansion(split_sub(val, seq![',']), ip, body),
    }
}

pub open spec fn for_expansion(data: Seq<RowV>, ip: Seq<char>, list: Seq<char>, body: Seq<char>) -> Seq<
    char,
>
    decreases data.len(),
{
    if data.len() == 0 {
        Seq::empty()
    } else {
        row_expansion(data[0], ip, list, body) + for_expansion(data.drop_first(), ip, list, body)
    }
}

/// One token's effect on the evaluator state, for every token but the
/// file-splicing one.
pub open spec fn eval_plain(st: StV, t: TokenV, data: Seq<RowV>) -> StV {
    match t {
        TokenV::Text(x) => StV { out: st.out + x, stack: st.stack },
        TokenV::Variable(v) => StV {
            out: st.out + (match first_row_val(data, v) {
                Some(x) => x,
                None => Seq::empty(),
            }),
            stack: st.stack,
        },
        TokenV::ForStart(item, list) => StV {
            out: st.out,
            stack: st.stack.push(FrameV::ForLoop(item, list, st.out.len() as int)),
        },
        TokenV::ForEnd => {
            if st.stack.len() > 0 {
                match st.stack.last() {
                    FrameV::ForLoop(item, list, start) => StV {
                        out: st.out.subrange(0, start) + for_expansion(
                            data,
                            item_pat(item),
                            list,
                            st.out.subrange(start, st.out.len() as int),
                        ),
                        stack: st.stack.drop_last(),
                    },
                    FrameV::IfCond(_, _) => StV { out: st.out, stack: st.stack.drop_last() },
                }
            } else {
                st
            }
        },
        TokenV::IfStart(cond) => StV {
            out: st.out,
            stack: st.stack.push(FrameV::IfCond(cond, st.out.len() as int)),
        },
        TokenV::Else => {
            if st.stack.len() > 0 {
                match st.stack.last() {
                    FrameV::IfCond(cond, start) => {
                        let then_branch = st.out.subrange(start, st.out.len() as int);
                        let kept = st.out.subrange(0, start);
                        let out2 = if cond_true(data, cond) {
                            kept + then_branch
                        } else {
                            kept
                        };
                        StV {
                            out: out2,
                            stack: st.stack.update(
                                st.stack.len() - 1,
                                FrameV::IfCond(cond, out2.len() as int),
                            ),
                        }
                    },
                    FrameV::ForLoop(_, _, _) => st,
                }
            } else {
                st
            }
        },
        TokenV::IfEnd => {
            if st.stack.len() > 0 {
                match st.stack.last() {
                    FrameV::IfCond(cond, start) => {
                        let else_branch = st.out.subrange(start, st.out.len() as int);
                        let kept = st.out.subrange(0, start);
                        StV {
                            out: if !cond_true(data, cond) {
                                kept + else_branch
                            } else {
                                kept
                            },
                            stack: st.stack.drop_last(),
                        }
                    },
                    FrameV::ForLoop(_, _, _) => StV {
                        out: st.out,
                        stack: st.stack.drop_last(),
                    },
                }
            } else {
                st
            }
        },
        TokenV::Embed(_) => st,
    }
}

/// A well-formed stack stays well formed when the buffer only grows.
proof fn lemma_wf_grow(stack: Seq<FrameV>, l1: int, l2: int)
    requires
        stack_wf(stack, l1),
        l1 <= l2,
    ensures
        stack_wf(stack, l2),
{
}

/// Pushing a frame that starts at the buffer end keeps the stack well
/// formed.
proof fn lemma_wf_push(stack: Seq<FrameV>, l: int, f: FrameV)
    requires
        0 <= l,
        stack_wf(stack, l),
        frame_start(f) == l,
    ensures
        stack_wf(stack.push(f), l),
{
    broadcast use vstd::seq::group_seq_axioms;

    let s2 = stack.push(f);
    assert forall|k: int| 0 <= k < s2.len() implies 0 <= frame_start(#[trigger] s2[k]) <= l by {
        if k < stack.len() {
            assert(s2[k] == stack[k]);
        } else {
            assert(s2[k] == f);
        }
    }
    assert forall|k: int| 0 <= k < s2.len() - 1 implies frame_start(#[trigger] s2[k])
        <= frame_start(s2[k + 1]) by {
        assert(s2[k] == stack[k]);
        if k + 1 < stack.len() {
            assert(s2[k + 1] == stack[k + 1]);
        }
    }
}

/// Within a well-formed stack, every start lies below the top frame's
/// start.
proof fn lemma_stack_starts_below_top(stack: Seq<FrameV>, k: int)
    requires
        forall|t: int|
            0 <= t < stack.len() - 1 ==> frame_start(#[trigger] stack[t]) <= frame_start(
                stack[t + 1],
            ),
        0 <= k < stack.len(),
    ensures
        frame_start(stack[k]) <= frame_start(stack.last()),
    decreases stack.len() - k,
{
    if k == stack.len() - 1 {
    } else {
        lemma_stack_starts_below_top(stack, k + 1);
    }
}

/// Dropping the top frame keeps the stack well formed for any buffer at
/// least as long as the dropped frame's start.
proof fn lemma_wf_drop(stack: Seq<FrameV>, l: int, l2: int)
    requires
        stack_wf(stack, l),
        stack.len() > 0,
        frame_start(stack.last()) <= l2,
    ensures
        stack_wf(stack.drop_last(), l2),
{
    broadcast use vstd::seq::group_seq_axioms;

    let s2 = stack.drop_last();
    assert forall|k: int| 0 <= k < s2.len() implies 0 <= frame_start(#[trigger] s2[k]) <= l2 by {
        assert(s2[k] == stack[k]);
        lemma_stack_starts_below_top(stack, k);
    }
    assert forall|k: int| 0 <= k < s2.len() - 1 implies frame_start(#[trigger] s2[k])
        <= frame_start(s2[k + 1]) by {
        assert(s2[k] == stack[k] && s2[k + 1] == stack[k + 1]);
    }
}

/// Replacing the top frame by one that starts at the new buffer end keeps
/// the stack well formed, provided the buffer did not shrink below the
/// old top start.
proof fn lemma_wf_retop(stack: Seq<FrameV>, l: int, f: FrameV, l2: int)
    requires
        stack_wf(stack, l),
        stack.len() > 0,
        frame_start(stack.last()) <= l2,
        frame_start(f) == l2,
    ensures
        stack_wf(stack.update(stack.len() - 1, f), l2),
{
    broadcast use vstd::seq::group_seq_axioms;

    let n = stack.len() as int;
    let s2 = stack.update(n - 1, f);
    assert forall|k: int| 0 <= k < s2.len() implies 0 <= frame_start(#[trigger] s2[k]) <= l2 by {
        if k < n - 1 {
            assert(s2[k] == stack[k]);
            lemma_stack_starts_below_top(stack, k);
        }
    }
    assert forall|k: int| 0 <= k < s2.len() - 1 implies frame_start(#[trigger] s2[k])
        <= frame_start(s2[k + 1]) by {
        if k + 1 < n - 1 {
            assert(s2[k] == stack[k] && s2[k + 1] == stack[k + 1]);
        } else {
            assert(s2[k] == stack[k]);
            lemma_stack_starts_below_top(stack, k);
        }
    }
}

/// A single step keeps the state well formed.
pub proof fn lemma_eval_plain_wf(st: StV, t: TokenV, data: Seq<RowV>)
    requires
        st_wf(st),
    ensures
        st_wf(eval_plain(st, t, data)),
{
    let r = eval_plain(st, t, data);
    let l = st.out.len() as int;
    match t {
        TokenV::Text(x) => {
            lemma_wf_grow(st.stack, l, r.out.len() as int);
        },
        TokenV::Variable(v) => {
            lemma_wf_grow(st.stack, l, r.out.len() as int);
        },
        TokenV::ForStart(item, list) => {
            lemma_wf_push(st.stack, l, FrameV::ForLoop(item, list, l));
        },
        TokenV::IfStart(cond) => {
            lemma_wf_push(st.stack, l, FrameV::IfCond(cond, l));
        },
        TokenV::ForEnd => {
            if st.stack.len() > 0 {
                match st.stack.last() {
                    FrameV::ForLoop(item, list, start) => {
                        assert(frame_start(st.stack.last()) == start);
                        assert(0 <= start <= l);
                        assert(r.out.len() >= start);
                        lemma_wf_drop(st.stack, l, r.out.len() as int);
                    },
                    FrameV::IfCond(_, _) => {
                        lemma_wf_drop(st.stack, l, l);
                    },
                }
            }
        },
        TokenV::Else => {
            if st.stack.len() > 0 {
                match st.stack.last() {
                    FrameV::IfCond(cond, start) => {
                        assert(frame_start(st.stack.last()) == start);
                        assert(0 <= start <= l);
                        assert(r.out.len() >= start);
                        lemma_wf_retop(
                            st.stack,
                            l,
                            FrameV::IfCond(cond, r.out.len() as int),
                            r.out.len() as int,
                        );
                        assert(r.stack =~= st.stack.update(
                            st.stack.len() - 1,
                            FrameV::IfCond(cond, r.out.len() as int),
                        ));
                    },
                    FrameV::ForLoop(_, _, _) => {},
                }
            }
        },
        TokenV::IfEnd => {
            if st.stack.len() > 0 {
                match st.stack.last() {
                    FrameV::IfCond(cond, start) => {
                        assert(frame_start(st.stack.last()) == start);
                        assert(0 <= start <= l);
                        assert(r.out.len() >= start);
                        lemma_wf_drop(st.stack, l, r.out.len() as int);
                    },
                    FrameV::ForLoop(_, _, _) => {
                        lemma_wf_drop(st.stack, l, l);
                    },
                }
            }
        },
        TokenV::Embed(_) => {},
    }
}

/// What evaluating a token list yields: the rendered text together with
/// the grown guard set, or the path of a template that was not available.
pub ghost enum EvalOut {
    Done(Seq<char>, Set<Seq<char>>),
    MissingFile(Seq<char>),
}

/// Evaluate `toks[i..]` in state `st` against `data`, with templates
/// drawn from `fs` and `vis` the guard set of already-spliced paths.
///
/// A splice whose path is already guarded is skipped.  Otherwise the path
/// joins the guard set first; a path absent from the store ends the whole
/// render.  The spliced template is evaluated with a fresh buffer and
/// stack but the same dataset and the same guard set, and what it
/// produces is appended.
pub open spec fn eval_list(
    toks: Seq<TokenV>,
    i: int,
    st: StV,
    data: Seq<RowV>,
    fs: RowV,
    vis: Set<Seq<char>>,
) -> EvalOut
    decreases key_set(fs).difference(vis).len(), toks.len() - i,
        when 0 <= i <= toks.len()
        via eval_list_dec
{
    if i >= toks.len() {
        EvalOut::Done(st.out, vis)
    } else {
        match toks[i] {
            TokenV::Embed(path) => {
                if vis.contains(path) {
                    eval_list(toks, i + 1, st, data, fs, vis)
                } else {
                    let vis1 = vis.insert(path);
                    match lookup(fs, path) {
                        None => EvalOut::MissingFile(path),
                        Some(content) => {
                            match eval_list(
                                tokenize_spec(content),
                                0,
                                StV { out: Seq::empty(), stack: Seq::empty() },
                                data,
                                fs,
                                vis1,
                            ) {
                                EvalOut::MissingFile(p) => EvalOut::MissingFile(p),
                                EvalOut::Done(sub_out, vis2) => eval_list(
                                    toks,
                                    i + 1,
                                    StV { out: st.out + sub_out, stack: st.stack },
                                    data,
                                    fs,
                                    vis1.union(vis2),
                                ),
                            }
                        },
                    }
                }
            },
            t => eval_list(toks, i + 1, eval_plain(st, t, data), data, fs, vis),
        }
    }
}

#[via_fn]
proof fn eval_list_dec(toks: Seq<TokenV>, i: int, st: StV, data: Seq<RowV>, fs: RowV, vis: Set<
    Seq<char>,
>) {
    broadcast use vstd::seq_lib::group_seq_lib_default;

    if i < toks.len() {
        match toks[i] {
            TokenV::Embed(path) => {
                if !vis.contains(path) {
                    let vis1 = vis.insert(path);
                    match lookup(fs, path) {
                        None => {},
                        Some(content) => {
                            crate::strmap::lemma_key_set_has(fs, path);
                            assert(key_set(fs).contains(path));
                            lemma_guard_difference_shrinks(key_set(fs), vis, path);
                            assert forall|vis2: Set<Seq<char>>| true implies key_set(
                                fs,
                            ).difference(vis1.union(vis2)).len() <= key_set(fs).difference(
                                vis,
                            ).len() by {
                                lemma_guard_difference_monotone(key_set(fs), vis, vis1.union(vis2));
                            }
                        },
                    }
                }
            },
            t => {},
        }
    }
}

/// Guarding a stored path strictly shrinks the set of stored paths not
/// yet guarded.
proof fn lemma_guard_difference_shrinks(store: Set<Seq<char>>, vis: Set<Seq<char>>, path: Seq<
    char,
>)
    requires
        store.finite(),
        store.contains(path),
        !vis.contains(path),
    ensures
        store.difference(vis.insert(path)).len() < store.difference(vis).len(),
        store.difference(vis.insert(path)).finite(),
{
    let before = store.difference(vis);
    let after = store.difference(vis.insert(path));
    vstd::set_lib::lemma_len_subset(before, store);
    vstd::set_lib::lemma_len_subset(after, store);
    assert(after =~= before.remove(path));
    assert(before.contains(path));
}

/// A larger guard set never grows the set of stored paths not yet
/// guarded.
proof fn lemma_guard_difference_monotone(
    store: Set<Seq<char>>,
    vis: Set<Seq<char>>,
    bigger: Set<Seq<char>>,
)
    requires
        store.finite(),
        vis.subset_of(bigger),
    ensures
        store.difference(bigger).len() <= store.difference(vis).len(),
        store.difference(bigger).finite(),
{
    vstd::set_lib::lemma_len_subset(store.difference(vis), store);
    vstd::set_lib::lemma_len_subset(store.difference(bigger), store.difference(vis));
}

/// Rendering one template: its tokens, evaluated from an empty state with
/// an empty guard set.
pub open spec fn render_spec(template: Seq<char>, data: Seq<RowV>, fs: RowV) -> EvalOut {
    eval_list(
        tokenize_spec(template),
        0,
        StV { out: Seq::empty(), stack: Seq::empty() },
        data,
        fs,
        Set::empty(),
    )
}

/// Expand the loop body `out[start..]` in place: the body is captured,
/// the buffer truncated back to `start`, and one substituted copy
/// appended per comma-separated item of each row's list field.
fn expand_for(out: &mut Vec<char>, start: usize, item: &String, list: &String, data: &Vec<StrMap>)
    requires
        start <= old(out)@.len(),
    ensures
        final(out)@ == old(out)@.subrange(0, start as int) + for_expansion(
            data.deep_view(),
            item_pat(item@),
            list@,
            old(out)@.subrange(start as int, old(out)@.len() as int),
        ),
{
    let ghost dv = data.deep_view();
    let body = sub_chars(out, start, out.len());
    out.truncate(start);
    let ghost out0 = out@;
    proof {
        assert(out0 =~= old(out)@.subrange(0, start as int));
    }
    let mut pat: Vec<char> = Vec::new();
    pat.push('{');
    pat.push(' ');
    let item_chars = chars_of_str(item.as_str());
    let mut q: usize = 0;
    while q < item_chars.len()
        invariant
            0 <= q <= item_chars@.len(),
            item_chars@ == item@,
            pat@ =~= seq!['{', ' '] + item@.subrange(0, q as int),
        decreases item_chars@.len() - q,
    {
        pat.push(item_chars[q]);
        assert(pat@ =~= seq!['{', ' '] + item@.subrange(0, q + 1));
        q = q + 1;
    }
    pat.push(' ');
    pat.push('}');
    proof {
        assert(pat@ =~= item_pat(item@));
    }
    let ghost ip = item_pat(item@);
    let mut r: usize = 0;
    let n = data.len();
    proof {
        assert(dv.skip(0) =~= dv);
        assert(dv.len() == n) by {
            assert(dv.len() == data@.len());
        }
    }
    while r < n
        invariant
            0 <= r <= n,
            dv == data.deep_view(),
            dv.len() == n,
            pat@ == ip,
            ip == item_pat(item@),
            ip.len() >= 4,
            body@ == old(out)@.subrange(start as int, old(out)@.len() as int),
            out@ + for_expansion(dv.skip(r as int), ip, list@, body@) == out0 + for_expansion(
                dv,
                ip,
                list@,
                body@,
            ),
        decreases n - r,
    {
        let ghost rowv = dv[r as int];
        proof {
            assert(data@[r as int].deep_view() == rowv);
            assert(dv.skip(r as int)[0] == rowv);
            assert(dv.skip(r as int).drop_first() =~= dv.skip(r + 1));
            assert(for_expansion(dv.skip(r as int), ip, list@, body@) == row_expansion(
                rowv,
                ip,
                list@,
                body@,
            ) + for_expansion(dv.skip(r + 1), ip, list@, body@));
        }
        let row = &data[r];
        match row.get(list.as_str()) {
            None => {
                proof {
                    assert(row_expansion(rowv, ip, list@, body@) =~= Seq::<char>::empty());
                    assert(out@ + for_expansion(dv.skip(r + 1), ip, list@, body@) == out0
                        + for_expansion(dv, ip, list@, body@));
                }
            },
            Some(val) => {
                let val_chars = chars_of_str(val.as_str());
                let mut comma: Vec<char> = Vec::new();
                comma.push(',');
                proof {
                    assert(comma@ =~= seq![',']);
                }
                let parts = split_list(&val_chars, &comma);
                let ghost partsv = parts.deep_view();
                proof {
                    assert(partsv == split_sub(lookup(rowv, list@)->0, seq![',']));
                    assert(row_expansion(rowv, ip, list@, body@) == items_expansion(
                        partsv,
                        ip,
                        body@,
                    ));
                    assert(partsv.skip(0) =~= partsv);
                }
                let ghost out_row = out@;
                let mut p: usize = 0;
                let pn = parts.len();
                while p < pn
                    invariant
                        0 <= p <= pn,
                        pn == partsv.len(),
                        partsv == parts.deep_view(),
                        pat@ == ip,
                        ip.len() >= 4,
                        body@ == old(out)@.subrange(start as int, old(out)@.len() as int),
                        out@ + items_expansion(partsv.skip(p as int), ip, body@) == out_row
                            + items_expansion(partsv, ip, body@),
                    decreases pn - p,
                {
                    proof {
                        assert(parts@[p as int]@ == partsv[p as int]);
                        assert(partsv.skip(p as int)[0] == partsv[p as int]);
                        assert(partsv.skip(p as int).drop_first() =~= partsv.skip(p + 1));
                    }
                    let mut replaced = replace_all(&body, &pat, &parts[p]);
                    out.append(&mut replaced);
                    p = p + 1;
                }
                proof {
                    assert(partsv.skip(pn as int) =~= Seq::<Seq<char>>::empty());
                    assert(items_expansion(partsv.skip(pn as int), ip, body@)
                        =~= Seq::<char>::empty());
                    assert(out@ =~= out_row + items_expansion(partsv, ip, body@));
                    assert(out@ + for_expansion(dv.skip(r + 1), ip, list@, body@) == out0
                        + for_expansion(dv, ip, list@, body@));
                }
            },
        }
        r = r + 1;
    }
    proof {
        assert(dv.skip(n as int) =~= Seq::<RowV>::empty());
        assert(for_expansion(dv.skip(n as int), ip, list@, body@) =~= Seq::<char>::empty());
        assert(out@ =~= out0 + for_expansion(dv, ip, list@, body@));
    }
}

/// The state after one non-splicing token, as the machine computes it.
pub open spec fn st_of(out: Seq<char>, stack: Seq<FrameV>) -> StV {
    StV { out: out, stack: stack }
}

/// Apply one non-splicing token to the buffer and block stack.
fn step_plain(out: &mut Vec<char>, stack: &mut Vec<Frame>, t: &Token, data: &Vec<StrMap>)
    requires
        !(t@ is Embed),
        st_wf(st_of(old(out)@, old(stack).deep_view())),
    ensures
        st_of(final(out)@, final(stack).deep_view()) == eval_plain(
            st_of(old(out)@, old(stack).deep_view()),
            t@,
            data.deep_view(),
        ),
        st_wf(st_of(final(out)@, final(stack).deep_view())),
{
    let ghost st0 = st_of(out@, stack.deep_view());
    let ghost dv = data.deep_view();
    proof {
        lemma_eval_plain_wf(st0, t@, dv);
    }
    match t {
        Token::Text(x) => {
            let mut xs = chars_of_str(x.as_str());
            out.append(&mut xs);
            proof {
                assert(stack.deep_view() =~= st0.stack);
            }
        },
        Token::Variable(v) => {
            if data.len() > 0 {
                proof {
                    assert(data@[0].deep_view() == dv[0]);
                }
                match data[0].get(v.as_str()) {
                    Some(val) => {
                        let mut xs = chars_of_str(val.as_str());
                        out.append(&mut xs);
                    },
                    None => {
                        proof {
                            assert(out@ =~= st0.out + Seq::<char>::empty());
                        }
                    },
                }
            } else {
                proof {
                    assert(out@ =~= st0.out + Seq::<char>::empty());
                }
            }
            proof {
                assert(stack.deep_view() =~= st0.stack);
            }
        },
        Token::ForStart(item, list) => {
            let start = out.len();
            stack.push(Frame::ForLoop(item.clone(), list.clone(), start));
            proof {
                assert(stack.deep_view() =~= st0.stack.push(
                    FrameV::ForLoop(item@, list@, start as int),
                ));
            }
        },
        Token::IfStart(cond) => {
            let start = out.len();
            stack.push(Frame::IfCond(cond.clone(), start));
            proof {
                assert(stack.deep_view() =~= st0.stack.push(FrameV::IfCond(cond@, start as int)));
            }
        },
        Token::ForEnd => {
            let popped = stack.pop();
            match popped {
                Some(Frame::ForLoop(item, list, start)) => {
                    proof {
                        assert(st0.stack.len() > 0);
                        assert(st0.stack.last() == FrameV::ForLoop(item@, list@, start as int));
                        assert(stack.deep_view() =~= st0.stack.drop_last());
                        assert(frame_start(st0.stack.last()) == start as int);
                        assert(start <= out@.len());
                    }
                    expand_for(out, start, &item, &list, data);
                },
                Some(Frame::IfCond(_, _)) => {
                    proof {
                        assert(st0.stack.len() > 0);
                        assert(st0.stack.last() is IfCond);
                        assert(stack.deep_view() =~= st0.stack.drop_last());
                    }
                },
                None => {
                    proof {
                        assert(st0.stack.len() == 0);
                        assert(stack.deep_view() =~= st0.stack);
                    }
                },
            }
        },
        Token::Else => {
            let n = stack.len();
            if n > 0 {
                let is_cond = match &stack[n - 1] {
                    Frame::IfCond(_, _) => true,
                    Frame::ForLoop(_, _, _) => false,
                };
                if is_cond {
                    let popped = stack.pop();
                    match popped {
                        Some(Frame::IfCond(cond, start)) => {
                            proof {
                                assert(st0.stack.last() == FrameV::IfCond(cond@, start as int));
                                assert(frame_start(st0.stack.last()) == start as int);
                                assert(start <= out@.len());
                            }
                            let then_branch = sub_chars(out, start, out.len());
                            out.truncate(start);
                            let truth = eval_cond(&cond, data);
                            if truth {
                                let mut tb = then_branch;
                                out.append(&mut tb);
                            }
                            let new_start = out.len();
                            stack.push(Frame::IfCond(cond, new_start));
                            proof {
                                let r = eval_plain(st0, t@, dv);
                                assert(out@ =~= r.out);
                                assert(stack.deep_view() =~= st0.stack.drop_last().push(
                                    FrameV::IfCond(
                                        st0.stack.last()->IfCond_0,
                                        new_start as int,
                                    ),
                                ));
                                assert(st0.stack.drop_last().push(
                                    FrameV::IfCond(st0.stack.last()->IfCond_0, new_start as int),
                                ) =~= st0.stack.update(
                                    st0.stack.len() - 1,
                                    FrameV::IfCond(st0.stack.last()->IfCond_0, new_start as int),
                                ));
                                assert(stack.deep_view() =~= r.stack);
                            }
                        },
                        _ => {
                            proof {
                                assert(false);
                            }
                        },
                    }
                } else {
                    proof {
                        assert(st0.stack.last() is ForLoop);
                        assert(stack.deep_view() =~= st0.stack);
                    }
                }
            } else {
                proof {
                    assert(st0.stack.len() == 0);
                }
            }
        },
        Token::IfEnd => {
            let popped = stack.pop();
            match popped {
                Some(Frame::IfCond(cond, start)) => {
                    proof {
                        assert(st0.stack.last() == FrameV::IfCond(cond@, start as int));
                        assert(frame_start(st0.stack.last()) == start as int);
                        assert(start <= out@.len());
                        assert(stack.deep_view() =~= st0.stack.drop_last());
                    }
                    let else_branch = sub_chars(out, start, out.len());
                    out.truncate(start);
                    let truth = eval_cond(&cond, data);
                    if !truth {
                        let mut eb = else_branch;
                        out.append(&mut eb);
                    }
                    proof {
                        let r = eval_plain(st0, t@, dv);
                        assert(out@ =~= r.out);
                    }
                },
                Some(Frame::ForLoop(_, _, _)) => {
                    proof {
                        assert(st0.stack.last() is ForLoop);
                        assert(stack.deep_view() =~= st0.stack.drop_last());
                    }
                },
                None => {
                    proof {
                        assert(st0.stack.len() == 0);
                        assert(stack.deep_view() =~= st0.stack);
                    }
                },
            }
        },
        Token::Embed(_) => {
            proof {
                assert(false);
            }
        },
    }
}

/// Whether the condition field of the first row holds the literal text
/// `true`.
fn eval_cond(cond: &String, data: &Vec<StrMap>) -> (r: bool)
    ensures
        r == cond_true(data.deep_view(), cond@),
{
    if data.len() > 0 {
        proof {
            assert(data@[0].deep_view() == data.deep_view()[0]);
        }
        match data[0].get(cond.as_str()) {
            Some(val) => crate::text::str_eq(val.as_str(), "true"),
            None => false,
        }
    } else {
        false
    }
}

/// Evaluate `tokens[i..]`, threading the guard map of already-spliced
/// paths; `fs` maps a path to the template text stored under it.
fn eval_tokens(
    tokens: &Vec<Token>,
    i: usize,
    out: Vec<char>,
    stack: Vec<Frame>,
    data: &Vec<StrMap>,
    fs: &StrMap,
    visited: &mut StrMap,
) -> (r: Result<Vec<char>, RenderError>)
    requires
        i <= tokens@.len(),
        st_wf(st_of(out@, stack.deep_view())),
    ensures
        key_set(old(visited)@).subset_of(key_set(final(visited)@)),
        match r {
            Ok(o) => eval_list(
                tokens.deep_view(),
                i as int,
                st_of(out@, stack.deep_view()),
                data.deep_view(),
                fs@,
                key_set(old(visited)@),
            ) == EvalOut::Done(o@, key_set(final(visited)@)),
            Err(e) => {
                &&& e matches RenderError::FileError(p) && eval_list(
                    tokens.deep_view(),
                    i as int,
                    st_of(out@, stack.deep_view()),
                    data.deep_view(),
                    fs@,
                    key_set(old(visited)@),
                ) == EvalOut::MissingFile(p@)
            },
        },
    decreases key_set(fs@).difference(key_set(visited@)).len(), tokens@.len() - i,
{
    let ghost toks = tokens.deep_view();
    let ghost st0 = st_of(out@, stack.deep_view());
    let ghost dv = data.deep_view();
    let ghost vis0 = key_set(visited@);
    proof {
        assert(toks.len() == tokens@.len());
    }
    if i == tokens.len() {
        return Ok(out);
    }
    proof {
        assert(toks[i as int] == tokens@[i as int]@);
    }
    let is_embed = match &tokens[i] {
        Token::Embed(_) => true,
        _ => false,
    };
    if !is_embed {
        let mut out2 = out;
        let mut stack2 = stack;
        step_plain(&mut out2, &mut stack2, &tokens[i], data);
        proof {
            assert(eval_list(toks, i as int, st0, dv, fs@, vis0) == eval_list(
                toks,
                i + 1,
                eval_plain(st0, toks[i as int], dv),
                dv,
                fs@,
                vis0,
            ));
        }
        return eval_tokens(tokens, i + 1, out2, stack2, data, fs, visited);
    }
    match &tokens[i] {
        Token::Embed(path) => {
            if visited.contains_key(path.as_str()) {
                proof {
                    crate::strmap::lemma_key_set_has(visited@, path@);
                    assert(vis0.contains(path@));
                    assert(eval_list(toks, i as int, st0, dv, fs@, vis0) == eval_list(
                        toks,
                        i + 1,
                        st0,
                        dv,
                        fs@,
                        vis0,
                    ));
                }
                eval_tokens(tokens, i + 1, out, stack, data, fs, visited)
            } else {
                proof {
                    crate::strmap::lemma_key_set_has(visited@, path@);
                    assert(!vis0.contains(path@));
                }
                let ghost mv0 = visited@;
                let guard_val = String::new();
                let ghost gv = guard_val@;
                visited.set(path.clone(), guard_val);
                proof {
                    crate::strmap::lemma_set_spec_keys(mv0, path@, gv);
                    assert(key_set(visited@) =~= vis0.insert(path@));
                }
                let ghost vis1 = key_set(visited@);
                match fs.get(path.as_str()) {
                    None => {
                        proof {
                            assert(lookup(fs@, path@) is None);
                            assert(eval_list(toks, i as int, st0, dv, fs@, vis0)
                                == EvalOut::MissingFile(path@));
                            vstd::set_lib::lemma_len_subset(vis0, vis1);
                        }
                        Err(RenderError::FileError(path.clone()))
                    },
                    Some(content) => {
                        proof {
                            assert(lookup(fs@, path@) == Some(content@));
                            crate::strmap::lemma_key_set_has(fs@, path@);
                            assert(key_set(fs@).contains(path@));
                            lemma_guard_difference_shrinks(key_set(fs@), vis0, path@);
                        }
                        let sub_tokens = tokenize(content.as_str());
                        let empty_out: Vec<char> = Vec::new();
                        let empty_stack: Vec<Frame> = Vec::new();
                        proof {
                            assert(sub_tokens.deep_view() == tokenize_spec(content@));
                            assert(empty_out@ =~= Seq::<char>::empty());
                            assert(empty_stack.deep_view() =~= Seq::<FrameV>::empty());
                            assert(st_of(empty_out@, empty_stack.deep_view()) == (StV {
                                out: Seq::<char>::empty(),
                                stack: Seq::<FrameV>::empty(),
                            }));
                        }
                        let sub_out = eval_tokens(
                            &sub_tokens,
                            0,
                            empty_out,
                            empty_stack,
                            data,
                            fs,
                            visited,
                        );
                        match sub_out {
                            Err(e) => {
                                proof {
                                    assert(eval_list(toks, i as int, st0, dv, fs@, vis0)
                                        matches EvalOut::MissingFile(_));
                                }
                                Err(e)
                            },
                            Ok(sub) => {
                                let ghost vis2 = key_set(visited@);
                                let mut out2 = out;
                                let mut sub2 = sub;
                                out2.append(&mut sub2);
                                proof {
                                    assert(vis1.union(vis2) =~= vis2);
                                    assert(eval_list(toks, i as int, st0, dv, fs@, vis0)
                                        == eval_list(
                                        toks,
                                        i + 1,
                                        st_of(st0.out + sub@, st0.stack),
                                        dv,
                                        fs@,
                                        vis2,
                                    ));
                                    assert(st_of(out2@, stack.deep_view()) == st_of(
                                        st0.out + sub@,
                                        st0.stack,
                                    ));
                                    lemma_wf_grow(
                                        st0.stack,
                                        st0.out.len() as int,
                                        out2@.len() as int,
                                    );
                                    lemma_guard_difference_monotone(key_set(fs@), vis0, vis2);
                                }
                                eval_tokens(tokens, i + 1, out2, stack, data, fs, visited)
                            },
                        }
                    },
                }
            }
        },
        _ => {
            proof {
                assert(false);
            }
            Err(RenderError::FileError(String::new()))
        },
    }
}

/// Render one template text against a dataset, drawing spliced templates
/// from `fs` and starting with an empty guard set.
pub fn render_template(template: &str, data: &Vec<StrMap>, fs: &StrMap) -> (r: Result<
    String,
    RenderError,
>)
    ensures
        match r {
            Ok(s) => (match render_spec(template@, data.deep_view(), fs@) {
                EvalOut::Done(o, _) => s@ == o,
                EvalOut::MissingFile(_) => false,
            }),
            Err(e) => (match render_spec(template@, data.deep_view(), fs@) {
                EvalOut::Done(_, _) => false,
                EvalOut::MissingFile(p) => e matches RenderError::FileError(q) && q@ == p,
            }),
        },
{
    let tokens = tokenize(template);
    let mut visited = StrMap::new();
    proof {
        broadcast use vstd::seq_lib::group_seq_lib_default;

        assert(visited@.map_values(|p: (Seq<char>, Seq<char>)| p.0) =~= Seq::<Seq<char>>::empty());
        assert(key_set(visited@) =~= Set::<Seq<char>>::empty());
    }
    let empty_out: Vec<char> = Vec::new();
    let empty_stack: Vec<Frame> = Vec::new();
    proof {
        assert(tokens.deep_view() == tokenize_spec(template@));
        assert(empty_out@ =~= Seq::<char>::empty());
        assert(empty_stack.deep_view() =~= Seq::<FrameV>::empty());
        assert(st_of(empty_out@, empty_stack.deep_view()) == (StV {
            out: Seq::<char>::empty(),
            stack: Seq::<FrameV>::empty(),
        }));
    }
    let res = eval_tokens(&tokens, 0, empty_out, empty_stack, data, fs, &mut visited);
    match res {
        Ok(o) => Ok(string_of_chars(&o)),
        Err(e) => Err(e),
    }
}

} // verus!