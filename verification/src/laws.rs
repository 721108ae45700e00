use vstd::prelude::*;
use crate::chars::is_ws_char;
use crate::text::trim_spec;
use crate::text::trim_start_spec;
use crate::text::trim_end_spec;
use crate::text::spaces;
use crate::text::split_lines;
use crate::text::lemma_trim_fixed;
use crate::text::lemma_split_lines_concat;
use crate::text::lemma_split_lines_no_nl;
use crate::text::lemma_trim_keeps_absence;
use crate::text::lemma_trim_spaces;
use crate::text::lemma_trim_start_concat;
use crate::text::lemma_trim_end_concat;
use crate::text::lemma_trim_start_noop;
use crate::text::lemma_trim_end_keeps_first;
use crate::key::collapse;
use crate::key::collapse_st;
use crate::key::lemma_collapse_concat;
use crate::key::lemma_collapse_in_quotes;
use crate::key::lemma_collapse_ws_run;
use crate::classify::is_container_spec;
use crate::classify::is_closing_spec;
use crate::classify::is_opening_spec;
use crate::key::key_spec;
use crate::engine::is_xml_decl_spec;
use crate::engine::pass_state;
use crate::engine::process_spec;

verus! {

// ---------------------------------------------------------------------------
// The emission trace
// ---------------------------------------------------------------------------
//
// The laws below speak about which lines a pass emits and at which depth.
// The trace records, for each emitted line, the depth at emission and the
// trimmed line; the pass state is recovered from it by replaying the same
// transitions.

/// Whether the pass emits this line given the signatures seen so far.
pub open spec fn step_emits(seen: Set<Seq<char>>, line: Seq<char>, strip: bool) -> bool {
    let t = trim_spec(line);
    &&& t.len() > 0
    &&& !(strip && is_xml_decl_spec(t))
    &&& (is_container_spec(t) || !seen.contains(key_spec(t)))
}

/// The depth at which a line is emitted: a closing tag first steps the depth
/// down, held at zero.
pub open spec fn clamp_dec(d: int, t: Seq<char>) -> int {
    if is_closing_spec(t) {
        if d > 0 {
            d - 1
        } else {
            0
        }
    } else {
        d
    }
}

/// The depth after a line is emitted: an opening tag steps it up.
pub open spec fn post_depth(d: int, t: Seq<char>) -> int {
    if is_opening_spec(t) {
        clamp_dec(d, t) + 1
    } else {
        clamp_dec(d, t)
    }
}

/// The emissions of the first `i` lines: for each emitted line, the depth it
/// is emitted at and its trimmed form, in order.
pub open spec fn trace(lines: Seq<Seq<char>>, strip: bool, i: int) -> Seq<(int, Seq<char>)>
    decreases i,
{
    if i <= 0 {
        Seq::empty()
    } else {
        let prev = trace(lines, strip, i - 1);
        let st = pass_state(lines, strip, i - 1);
        let t = trim_spec(lines[i - 1]);
        if step_emits(st.2, lines[i - 1], strip) {
            prev.push((clamp_dec(st.1, t), t))
        } else {
            prev
        }
    }
}

/// The trimmed lines of a trace, in order.
pub open spec fn trimmed_of(tr: Seq<(int, Seq<char>)>) -> Seq<Seq<char>>
    decreases tr.len(),
{
    if tr.len() == 0 {
        Seq::empty()
    } else {
        trimmed_of(tr.drop_last()).push(tr.last().1)
    }
}

pub proof fn lemma_trimmed_of_index(tr: Seq<(int, Seq<char>)>)
    ensures
        trimmed_of(tr).len() == tr.len(),
        forall|j: int| 0 <= j < tr.len() ==> trimmed_of(tr)[j] == tr[j].1,
    decreases tr.len(),
{
    if tr.len() > 0 {
        lemma_trimmed_of_index(tr.drop_last());
    }
}

/// One emitted line as text: two spaces per depth unit, the trimmed line, a
/// line feed.
pub open spec fn render_one(d: int, t: Seq<char>) -> Seq<char> {
    spaces((2 * d) as nat) + t + seq!['\n']
}

/// The emitted text of a whole trace.
pub open spec fn render(tr: Seq<(int, Seq<char>)>) -> Seq<char>
    decreases tr.len(),
{
    if tr.len() == 0 {
        Seq::empty()
    } else {
        render(tr.drop_last()) + render_one(tr.last().0, tr.last().1)
    }
}

/// Depth and seen set obtained by replaying the first `j` emitted lines.
pub open spec fn replay(ts: Seq<Seq<char>>, j: int) -> (int, Set<Seq<char>>)
    decreases j,
{
    if j <= 0 {
        (0, Set::empty())
    } else {
        let p = replay(ts, j - 1);
        let t = ts[j - 1];
        (
            post_depth(p.0, t),
            if is_container_spec(t) {
                p.1
            } else {
                p.1.insert(key_spec(t))
            },
        )
    }
}

pub proof fn lemma_replay_prefix(ts1: Seq<Seq<char>>, ts2: Seq<Seq<char>>, j: int)
    requires
        0 <= j <= ts1.len(),
        ts1.len() <= ts2.len(),
        forall|k: int| 0 <= k < j ==> ts1[k] == ts2[k],
    ensures
        replay(ts1, j) == replay(ts2, j),
    decreases j,
{
    if j > 0 {
        lemma_replay_prefix(ts1, ts2, j - 1);
    }
}

/// The pass state is what replaying the trace yields: the emitted text is the
/// trace rendered, depth and seen set are its replay, every traced line is
/// non-blank, trimmed, emitted at the replay's depth, and a non-container
/// line is only emitted when its signature is new.
#[verifier::rlimit(50)]
pub proof fn lemma_trace_invariants(lines: Seq<Seq<char>>, strip: bool, i: int)
    ensures
        ({
            let tr = trace(lines, strip, i);
            let ts = trimmed_of(tr);
            let st = pass_state(lines, strip, i);
            &&& st.0 == render(tr)
            &&& st.1 == replay(ts, ts.len() as int).0
            &&& st.2 == replay(ts, ts.len() as int).1
            &&& forall|j: int| 0 <= j < tr.len() ==> tr[j].1.len() > 0
            &&& forall|j: int| 0 <= j < tr.len() ==> trim_spec(#[trigger] tr[j].1) == tr[j].1
            &&& forall|j: int|
                0 <= j < tr.len() ==> tr[j].0 == clamp_dec(replay(ts, j).0, tr[j].1)
            &&& forall|j: int|
                0 <= j < tr.len() && !is_container_spec(#[trigger] tr[j].1)
                    ==> !replay(ts, j).1.contains(key_spec(tr[j].1))
            &&& forall|j: int|
                0 <= j < tr.len() ==> exists|li: int|
                    0 <= li < i && #[trigger] tr[j].1 == trim_spec(lines[li])
        }),
    decreases i,
{
    if i > 0 {
        lemma_trace_invariants(lines, strip, i - 1);
        let tr0 = trace(lines, strip, i - 1);
        let ts0 = trimmed_of(tr0);
        let st0 = pass_state(lines, strip, i - 1);
        let tr = trace(lines, strip, i);
        let ts = trimmed_of(tr);
        let st = pass_state(lines, strip, i);
        let t = trim_spec(lines[i - 1]);
        lemma_trimmed_of_index(tr0);
        lemma_trimmed_of_index(tr);
        if step_emits(st0.2, lines[i - 1], strip) {
            let entry = (clamp_dec(st0.1, t), t);
            assert(tr == tr0.push(entry));
            assert(tr.drop_last() =~= tr0);
            assert(ts =~= ts0.push(t));
            lemma_replay_prefix(ts0, ts, ts0.len() as int);
            lemma_trim_fixed(lines[i - 1]);
            assert(st.0 =~= render(tr0) + render_one(clamp_dec(st0.1, t), t));
            assert(st.1 == replay(ts, ts.len() as int).0);
            assert(st.2 == replay(ts, ts.len() as int).1);
            assert forall|j: int| 0 <= j < tr.len() implies tr[j].1.len() > 0 && trim_spec(
                #[trigger] tr[j].1,
            ) == tr[j].1 by {
                if j < tr0.len() {
                    assert(tr[j] == tr0[j]);
                } else {
                    assert(tr[j] == entry);
                }
            }
            assert forall|j: int| 0 <= j < tr.len() implies #[trigger] tr[j].0 == clamp_dec(
                replay(ts, j).0,
                tr[j].1,
            ) by {
                lemma_replay_prefix(ts0, ts, j);
                if j < tr0.len() {
                    assert(tr[j] == tr0[j]);
                } else {
                    assert(tr[j] == entry);
                    assert(replay(ts, j) == replay(ts0, j));
                }
            }
            assert forall|j: int|
                0 <= j < tr.len() && !is_container_spec(#[trigger] tr[j].1) implies !replay(
                ts,
                j,
            ).1.contains(key_spec(tr[j].1)) by {
                lemma_replay_prefix(ts0, ts, j);
                if j < tr0.len() {
                    assert(tr[j] == tr0[j]);
                } else {
                    assert(tr[j] == entry);
                    assert(replay(ts, j) == replay(ts0, j));
                }
            }
            assert forall|j: int| 0 <= j < tr.len() implies exists|li: int|
                0 <= li < i && #[trigger] tr[j].1 == trim_spec(lines[li]) by {
                if j < tr0.len() {
                    assert(tr[j] == tr0[j]);
                    let li0 = choose|li0: int|
                        0 <= li0 < i - 1 && tr0[j].1 == trim_spec(lines[li0]);
                    assert(0 <= li0 < i && tr[j].1 == trim_spec(lines[li0]));
                } else {
                    assert(tr[j] == entry);
                    assert(0 <= i - 1 < i && tr[j].1 == trim_spec(lines[i - 1]));
                }
            }
        } else {
            assert(tr == tr0);
            assert forall|j: int| 0 <= j < tr.len() implies exists|li: int|
                0 <= li < i && #[trigger] tr[j].1 == trim_spec(lines[li]) by {
                let li0 = choose|li0: int| 0 <= li0 < i - 1 && tr0[j].1 == trim_spec(lines[li0]);
                assert(0 <= li0 < i && tr[j].1 == trim_spec(lines[li0]));
            }
        }
    }
}

// ---------------------------------------------------------------------------
// Order preservation
// ---------------------------------------------------------------------------

/// `a` is a subsequence of `b`: its elements appear in `b` in the same
/// relative order.
pub open spec fn is_subseq_of(a: Seq<Seq<char>>, b: Seq<Seq<char>>) -> bool
    decreases a.len() + b.len(),
{
    if a.len() == 0 {
        true
    } else if b.len() == 0 {
        false
    } else {
        (a.last() == b.last() && is_subseq_of(a.drop_last(), b.drop_last())) || is_subseq_of(
            a,
            b.drop_last(),
        )
    }
}

/// The trimmed forms of all lines, in document order.
pub open spec fn trimmed_lines(lines: Seq<Seq<char>>) -> Seq<Seq<char>> {
    Seq::new(lines.len(), |j: int| trim_spec(lines[j]))
}

proof fn lemma_order_helper(lines: Seq<Seq<char>>, strip: bool, i: int)
    requires
        0 <= i <= lines.len(),
    ensures
        is_subseq_of(trimmed_of(trace(lines, strip, i)), trimmed_lines(lines).take(i)),
    decreases i,
{
    if i == 0 {
        assert(trimmed_lines(lines).take(0) =~= Seq::<Seq<char>>::empty());
    } else {
        lemma_order_helper(lines, strip, i - 1);
        let a0 = trimmed_of(trace(lines, strip, i - 1));
        let a = trimmed_of(trace(lines, strip, i));
        let b0 = trimmed_lines(lines).take(i - 1);
        let b = trimmed_lines(lines).take(i);
        let t = trim_spec(lines[i - 1]);
        assert(b =~= b0.push(t));
        assert(b.drop_last() =~= b0);
        let st0 = pass_state(lines, strip, i - 1);
        if step_emits(st0.2, lines[i - 1], strip) {
            assert(trace(lines, strip, i) == trace(lines, strip, i - 1).push(
                (clamp_dec(st0.1, t), t),
            ));
            assert(a == a0.push(t)) by {
                assert(trace(lines, strip, i).drop_last() =~= trace(lines, strip, i - 1));
            }
            assert(a.drop_last() =~= a0);
            assert(a.last() == b.last());
        } else {
            assert(a == a0);
            if a.len() > 0 {
                assert(is_subseq_of(a, b.drop_last()));
            }
        }
    }
}

/// ORDER PRESERVATION: the surviving lines appear in the output in the same
/// relative order as in the input — the emitted trimmed lines form a
/// subsequence of the trimmed input lines.
pub proof fn lemma_order_preserved(lines: Seq<Seq<char>>, strip: bool)
    ensures
        is_subseq_of(
            trimmed_of(trace(lines, strip, lines.len() as int)),
            trimmed_lines(lines),
        ),
{
    lemma_order_helper(lines, strip, lines.len() as int);
    assert(trimmed_lines(lines).take(lines.len() as int) =~= trimmed_lines(lines));
}

// ---------------------------------------------------------------------------
// Container exemption
// ---------------------------------------------------------------------------

/// How often `t` occurs in `ts`.
pub open spec fn count_eq(ts: Seq<Seq<char>>, t: Seq<char>) -> int
    decreases ts.len(),
{
    if ts.len() == 0 {
        0
    } else {
        count_eq(ts.drop_last(), t) + if ts.last() == t {
            1int
        } else {
            0int
        }
    }
}

proof fn lemma_container_helper(lines: Seq<Seq<char>>, t0: Seq<char>, i: int)
    requires
        is_container_spec(t0),
        0 <= i <= lines.len(),
    ensures
        count_eq(trimmed_of(trace(lines, false, i)), t0) == count_eq(
            trimmed_lines(lines).take(i),
            t0,
        ),
    decreases i,
{
    if i == 0 {
        assert(trimmed_lines(lines).take(0) =~= Seq::<Seq<char>>::empty());
    } else {
        lemma_container_helper(lines, t0, i - 1);
        let a0 = trimmed_of(trace(lines, false, i - 1));
        let a = trimmed_of(trace(lines, false, i));
        let b0 = trimmed_lines(lines).take(i - 1);
        let b = trimmed_lines(lines).take(i);
        let t = trim_spec(lines[i - 1]);
        assert(b =~= b0.push(t));
        assert(b.drop_last() =~= b0);
        assert(b.last() == t);
        let st0 = pass_state(lines, false, i - 1);
        if step_emits(st0.2, lines[i - 1], false) {
            assert(trace(lines, false, i) == trace(lines, false, i - 1).push(
                (clamp_dec(st0.1, t), t),
            ));
            assert(a == a0.push(t)) by {
                assert(trace(lines, false, i).drop_last() =~= trace(lines, false, i - 1));
            }
            assert(a.drop_last() =~= a0);
        } else {
            assert(a == a0);
            // A skipped line is never the container `t0`: a container line is
            // non-blank and exempt from deduplication.
            assert(t != t0);
        }
    }
}

/// CONTAINER EXEMPTION: a line whose trimmed form is a bare structural tag is
/// never removed — it is emitted exactly as often as it occurs in the input.
pub proof fn lemma_container_exempt(lines: Seq<Seq<char>>, t0: Seq<char>)
    requires
        is_container_spec(t0),
    ensures
        count_eq(trimmed_of(trace(lines, false, lines.len() as int)), t0) == count_eq(
            trimmed_lines(lines),
            t0,
        ),
{
    lemma_container_helper(lines, t0, lines.len() as int);
    assert(trimmed_lines(lines).take(lines.len() as int) =~= trimmed_lines(lines));
}

// ---------------------------------------------------------------------------
// Idempotence
// ---------------------------------------------------------------------------

/// The emitted lines as they stand in the output text, without their final
/// line feeds.
pub open spec fn piece_lines(tr: Seq<(int, Seq<char>)>) -> Seq<Seq<char>> {
    Seq::new(tr.len(), |j: int| spaces((2 * tr[j].0) as nat) + tr[j].1)
}

proof fn lemma_render_front(tr: Seq<(int, Seq<char>)>)
    requires
        tr.len() > 0,
    ensures
        render(tr) == render_one(tr[0].0, tr[0].1) + render(tr.drop_first()),
    decreases tr.len(),
{
    if tr.len() == 1 {
        assert(tr.drop_last() =~= Seq::<(int, Seq<char>)>::empty());
        assert(tr.drop_first() =~= Seq::<(int, Seq<char>)>::empty());
        assert(tr.last() == tr[0]);
        assert(Seq::<char>::empty() + render_one(tr[0].0, tr[0].1) =~= render_one(
            tr[0].0,
            tr[0].1,
        ));
        assert(render_one(tr[0].0, tr[0].1) + Seq::<char>::empty() =~= render_one(
            tr[0].0,
            tr[0].1,
        ));
    } else {
        let u = tr.drop_last();
        lemma_render_front(u);
        assert(u[0] == tr[0]);
        assert(tr.drop_first().drop_last() =~= u.drop_first());
        assert(tr.drop_first().last() == tr.last());
        assert(tr.drop_first().len() > 0);
        assert(render(tr.drop_first()) == render(u.drop_first()) + render_one(
            tr.last().0,
            tr.last().1,
        ));
        assert((render_one(tr[0].0, tr[0].1) + render(u.drop_first())) + render_one(
            tr.last().0,
            tr.last().1,
        ) =~= render_one(tr[0].0, tr[0].1) + (render(u.drop_first()) + render_one(
            tr.last().0,
            tr.last().1,
        )));
    }
}

/// Splitting the rendered trace recovers each emitted line, plus the empty
/// piece after the final line feed.
proof fn lemma_split_render(tr: Seq<(int, Seq<char>)>)
    requires
        forall|j: int, k: int|
            0 <= j < tr.len() && 0 <= k < tr[j].1.len() ==> #[trigger] tr[j].1[k] != '\n',
    ensures
        split_lines(render(tr)) == piece_lines(tr).push(Seq::<char>::empty()),
    decreases tr.len(),
{
    if tr.len() == 0 {
        assert(render(tr) == Seq::<char>::empty());
        assert(split_lines(Seq::<char>::empty()) =~= seq![Seq::<char>::empty()]);
        assert(piece_lines(tr).push(Seq::<char>::empty()) =~= seq![Seq::<char>::empty()]);
    } else {
        lemma_render_front(tr);
        let p0 = spaces((2 * tr[0].0) as nat) + tr[0].1;
        let rest = tr.drop_first();
        assert(render(tr) =~= p0 + seq!['\n'] + render(rest));
        assert forall|k: int| 0 <= k < p0.len() implies p0[k] != '\n' by {
            if k < spaces((2 * tr[0].0) as nat).len() {
                assert(p0[k] == ' ');
            } else {
                assert(p0[k] == tr[0].1[k - spaces((2 * tr[0].0) as nat).len()]);
            }
        }
        lemma_split_lines_concat(p0, render(rest));
        assert forall|j: int, k: int|
            0 <= j < rest.len() && 0 <= k < rest[j].1.len() implies #[trigger] rest[j].1[k]
            != '\n' by {
            assert(rest[j] == tr[j + 1]);
        }
        lemma_split_render(rest);
        assert(seq![p0] + piece_lines(rest).push(Seq::<char>::empty()) =~= piece_lines(tr).push(
            Seq::<char>::empty(),
        )) by {
            assert forall|j: int| 0 <= j < rest.len() implies piece_lines(rest)[j]
                == piece_lines(tr)[j + 1] by {
                assert(rest[j] == tr[j + 1]);
            }
        }
    }
}

/// Feeding the rendered trace back through the pass re-emits every line at
/// the same depth and finds no duplicates: the trace's own properties make
/// the second pass deterministic.
#[verifier::rlimit(50)]
proof fn lemma_second_pass(tr: Seq<(int, Seq<char>)>, j: int)
    requires
        0 <= j <= tr.len(),
        forall|k: int| 0 <= k < tr.len() ==> (#[trigger] tr[k].1).len() > 0,
        forall|k: int| 0 <= k < tr.len() ==> trim_spec(#[trigger] tr[k].1) == tr[k].1,
        forall|k: int|
            0 <= k < tr.len() ==> #[trigger] tr[k].0 == clamp_dec(
                replay(trimmed_of(tr), k).0,
                tr[k].1,
            ),
        forall|k: int|
            0 <= k < tr.len() && !is_container_spec(#[trigger] tr[k].1) ==> !replay(
                trimmed_of(tr),
                k,
            ).1.contains(key_spec(tr[k].1)),
    ensures
        ({
            let st2 = pass_state(piece_lines(tr).push(Seq::<char>::empty()), false, j);
            &&& st2.0 == render(tr.take(j))
            &&& st2.1 == replay(trimmed_of(tr), j).0
            &&& st2.2 == replay(trimmed_of(tr), j).1
            &&& st2.3 == 0
        }),
    decreases j,
{
    lemma_trimmed_of_index(tr);
    let ts = trimmed_of(tr);
    let lines2 = piece_lines(tr).push(Seq::<char>::empty());
    if j == 0 {
        assert(tr.take(0) =~= Seq::<(int, Seq<char>)>::empty());
    } else {
        lemma_second_pass(tr, j - 1);
        let st0 = pass_state(lines2, false, j - 1);
        let st2 = pass_state(lines2, false, j);
        let t = tr[j - 1].1;
        let line = lines2[j - 1];
        assert(line == spaces((2 * tr[j - 1].0) as nat) + t);
        lemma_trim_fixed(t);
        lemma_trim_spaces((2 * tr[j - 1].0) as nat, t);
        assert(trim_spec(line) == t);
        assert(st0.1 == replay(ts, j - 1).0);
        assert(st0.2 == replay(ts, j - 1).1);
        assert(clamp_dec(st0.1, t) == tr[j - 1].0);
        assert(ts[j - 1] == t);
        if !is_container_spec(t) {
            assert(!st0.2.contains(key_spec(t)));
        }
        assert(st2.0 =~= render(tr.take(j))) by {
            assert(tr.take(j).drop_last() =~= tr.take(j - 1));
            assert(tr.take(j).last() == tr[j - 1]);
            assert(render(tr.take(j)) == render(tr.take(j - 1)) + render_one(tr[j - 1].0, t));
        }
        assert(st2.1 == replay(ts, j).0);
        assert(st2.2 == replay(ts, j).1);
        assert(st2.3 == 0);
    }
}

/// IDEMPOTENCE: running the pass on its own output changes nothing and
/// removes no further duplicates.
pub proof fn lemma_idempotent(content: Seq<char>)
    ensures
        ({
            let out = process_spec(content, false).0;
            &&& process_spec(out, false).0 == out
            &&& process_spec(out, false).1 == 0
        }),
{
    let lines = split_lines(content);
    let k = lines.len() as int;
    lemma_trace_invariants(lines, false, k);
    let tr = trace(lines, false, k);
    let ts = trimmed_of(tr);
    lemma_trimmed_of_index(tr);
    let out = pass_state(lines, false, k).0;
    assert(out == render(tr));
    lemma_split_lines_no_nl(content);
    assert forall|j: int, kk: int|
        0 <= j < tr.len() && 0 <= kk < tr[j].1.len() implies #[trigger] tr[j].1[kk] != '\n' by {
        let li = choose|li: int| 0 <= li < k && tr[j].1 == trim_spec(lines[li]);
        assert(forall|k2: int| 0 <= k2 < lines[li].len() ==> lines[li][k2] != '\n');
        lemma_trim_keeps_absence(lines[li], '\n');
    }
    lemma_split_render(tr);
    let lines2 = piece_lines(tr).push(Seq::<char>::empty());
    assert(split_lines(out) == lines2);
    lemma_second_pass(tr, tr.len() as int);
    assert(tr.take(tr.len() as int) =~= tr);
    let n2 = lines2.len() as int;
    assert(n2 == tr.len() + 1);
    let stf = pass_state(lines2, false, n2);
    assert(lines2[n2 - 1] == Seq::<char>::empty());
    assert(trim_spec(Seq::<char>::empty()).len() == 0);
    assert(stf == pass_state(lines2, false, tr.len() as int));
    assert(stf.0 == render(tr));
    assert(stf.3 == 0);
}

// ---------------------------------------------------------------------------
// Quote safety
// ---------------------------------------------------------------------------

/// Shape of the collapse of a line holding one quoted span: what precedes
/// the span is collapsed on its own, the span is copied verbatim, and what
/// follows is collapsed from the closed-quote state.
proof fn lemma_quoted_span_shape(p: Seq<char>, q: char, w: Seq<char>, t: Seq<char>)
    requires
        q == '"' || q == '\'',
        !collapse_st(p, false, '\0', false).0,
        forall|k: int| 0 <= k < w.len() ==> w[k] != q,
    ensures
        collapse(p + seq![q] + w + seq![q] + t, false, '\0', false) == collapse(
            p,
            false,
            '\0',
            false,
        ) + seq![q] + w + seq![q] + collapse(t, false, q, false),
{
    let stp = collapse_st(p, false, '\0', false);
    let rest = seq![q] + (w + (seq![q] + t));
    assert(p + seq![q] + w + seq![q] + t =~= p + rest);
    lemma_collapse_concat(p, rest, false, '\0', false);
    assert(rest[0] == q);
    assert(rest.drop_first() =~= w + (seq![q] + t));
    assert(collapse(rest, stp.0, stp.1, stp.2) == seq![q] + collapse(
        w + (seq![q] + t),
        true,
        q,
        false,
    ));
    lemma_collapse_in_quotes(w, seq![q] + t, q);
    assert((seq![q] + t)[0] == q);
    assert((seq![q] + t).drop_first() =~= t);
    assert(collapse(seq![q] + t, true, q, false) == seq![q] + collapse(t, false, q, false));
    assert(collapse(p, false, '\0', false) + (seq![q] + (w + (seq![q] + collapse(
        t,
        false,
        q,
        false,
    )))) =~= collapse(p, false, '\0', false) + seq![q] + w + seq![q] + collapse(
        t,
        false,
        q,
        false,
    ));
}

/// QUOTE SAFETY, first half: two lines that differ only inside one quoted
/// span share their signature exactly when the quoted content is identical —
/// whitespace inside quotes is never collapsed away. The span must lie
/// outside any earlier quoted span and its content must not close it.
pub proof fn lemma_quote_safety(p: Seq<char>, q: char, w1: Seq<char>, w2: Seq<char>, t: Seq<char>)
    requires
        q == '"' || q == '\'',
        !collapse_st(p, false, '\0', false).0,
        forall|k: int| 0 <= k < w1.len() ==> w1[k] != q,
        forall|k: int| 0 <= k < w2.len() ==> w2[k] != q,
    ensures
        (key_spec(p + seq![q] + w1 + seq![q] + t) == key_spec(p + seq![q] + w2 + seq![q] + t))
            <==> w1 == w2,
{
    lemma_quoted_span_shape(p, q, w1, t);
    lemma_quoted_span_shape(p, q, w2, t);
    let cp = collapse(p, false, '\0', false);
    let b = collapse(t, false, q, false);
    let m1 = cp + seq![q] + w1 + seq![q] + b;
    let m2 = cp + seq![q] + w2 + seq![q] + b;
    assert(!is_ws_char(q));
    let tail1 = seq![q] + (w1 + (seq![q] + b));
    let tail2 = seq![q] + (w2 + (seq![q] + b));
    assert(m1 =~= cp + tail1);
    assert(m2 =~= cp + tail2);
    lemma_trim_start_concat(cp, tail1);
    lemma_trim_start_concat(cp, tail2);
    lemma_trim_start_noop(tail1);
    lemma_trim_start_noop(tail2);
    let d = if trim_start_spec(cp).len() > 0 {
        trim_start_spec(cp)
    } else {
        Seq::<char>::empty()
    };
    assert(trim_start_spec(m1) =~= (d + (seq![q] + w1)) + (seq![q] + b));
    assert(trim_start_spec(m2) =~= (d + (seq![q] + w2)) + (seq![q] + b));
    lemma_trim_end_concat(d + (seq![q] + w1), seq![q] + b);
    lemma_trim_end_concat(d + (seq![q] + w2), seq![q] + b);
    assert((seq![q] + b)[0] == q);
    lemma_trim_end_keeps_first(seq![q] + b);
    let e = trim_end_spec(seq![q] + b);
    assert(e.len() > 0);
    let k1 = trim_spec(m1);
    let k2 = trim_spec(m2);
    assert(k1 =~= (d + (seq![q] + w1)) + e);
    assert(k2 =~= (d + (seq![q] + w2)) + e);
    if k1 == k2 {
        assert(k1.len() == k2.len());
        assert(w1.len() == w2.len());
        assert forall|k: int| 0 <= k < w1.len() implies w1[k] == w2[k] by {
            assert(k1[d.len() + 1 + k] == w1[k]);
            assert(k2[d.len() + 1 + k] == w2[k]);
        }
        assert(w1 =~= w2);
    }
    if w1 == w2 {
        assert(p + seq![q] + w1 + seq![q] + t == p + seq![q] + w2 + seq![q] + t);
    }
}

/// QUOTE SAFETY, second half: two lines that differ only in the length of a
/// whitespace run outside quotes ARE merged — their signatures are equal.
pub proof fn lemma_outside_whitespace_merged(
    p: Seq<char>,
    u1: Seq<char>,
    u2: Seq<char>,
    t: Seq<char>,
)
    requires
        !collapse_st(p, false, '\0', false).0,
        u1.len() > 0,
        u2.len() > 0,
        forall|k: int| 0 <= k < u1.len() ==> is_ws_char(u1[k]),
        forall|k: int| 0 <= k < u2.len() ==> is_ws_char(u2[k]),
    ensures
        key_spec(p + u1 + t) == key_spec(p + u2 + t),
{
    let stp = collapse_st(p, false, '\0', false);
    assert(p + u1 + t =~= p + (u1 + t));
    assert(p + u2 + t =~= p + (u2 + t));
    lemma_collapse_concat(p, u1 + t, false, '\0', false);
    lemma_collapse_concat(p, u2 + t, false, '\0', false);
    lemma_collapse_ws_run(u1, t, stp.1, stp.2);
    lemma_collapse_ws_run(u2, t, stp.1, stp.2);
    assert(collapse(p + u1 + t, false, '\0', false) == collapse(p + u2 + t, false, '\0', false));
}

// ---------------------------------------------------------------------------
// Indentation balance
// ---------------------------------------------------------------------------

/// How many of the lines are opening tags.
pub open spec fn count_opening(ts: Seq<Seq<char>>) -> int
    decreases ts.len(),
{
    if ts.len() == 0 {
        0
    } else {
        count_opening(ts.drop_last()) + if is_opening_spec(ts.last()) {
            1int
        } else {
            0int
        }
    }
}

/// How many of the lines are closing tags.
pub open spec fn count_closing(ts: Seq<Seq<char>>) -> int
    decreases ts.len(),
{
    if ts.len() == 0 {
        0
    } else {
        count_closing(ts.drop_last()) + if is_closing_spec(ts.last()) {
            1int
        } else {
            0int
        }
    }
}

/// INDENTATION BALANCE, first half: the depth never goes negative — a stray
/// closing tag at depth zero leaves the depth at zero, and processing never
/// fails on it.
pub proof fn lemma_depth_never_negative(lines: Seq<Seq<char>>, strip: bool, i: int)
    ensures
        pass_state(lines, strip, i).1 >= 0,
    decreases i,
{
    if i > 0 {
        lemma_depth_never_negative(lines, strip, i - 1);
    }
}

proof fn lemma_balance_helper(ts: Seq<Seq<char>>, j: int)
    requires
        0 <= j <= ts.len(),
        forall|k: int|
            0 <= k <= j ==> count_closing(#[trigger] ts.take(k)) <= count_opening(ts.take(k)),
    ensures
        replay(ts, j).0 == count_opening(ts.take(j)) - count_closing(ts.take(j)),
    decreases j,
{
    if j == 0 {
        assert(ts.take(0) =~= Seq::<Seq<char>>::empty());
    } else {
        lemma_balance_helper(ts, j - 1);
        let t = ts[j - 1];
        assert(ts.take(j) =~= ts.take(j - 1).push(t));
        assert(ts.take(j).drop_last() =~= ts.take(j - 1));
        assert(ts.take(j).last() == t);
        let d = replay(ts, j - 1).0;
        if is_closing_spec(t) {
            assert(!is_opening_spec(t));
            assert(count_closing(ts.take(j)) == count_closing(ts.take(j - 1)) + 1);
            assert(count_closing(ts.take(j)) <= count_opening(ts.take(j)));
            assert(d >= 1);
        }
    }
}

/// INDENTATION BALANCE, second half: when the emitted lines' opening and
/// closing tags are balanced — no prefix closes more than it has opened, and
/// the totals agree — the final depth returns to zero.
pub proof fn lemma_balanced_depth_zero(lines: Seq<Seq<char>>, strip: bool)
    requires
        ({
            let ts = trimmed_of(trace(lines, strip, lines.len() as int));
            &&& forall|k: int|
                0 <= k <= ts.len() ==> count_closing(#[trigger] ts.take(k)) <= count_opening(
                    ts.take(k),
                )
            &&& count_opening(ts) == count_closing(ts)
        }),
    ensures
        pass_state(lines, strip, lines.len() as int).1 == 0,
{
    let tr = trace(lines, strip, lines.len() as int);
    let ts = trimmed_of(tr);
    lemma_trace_invariants(lines, strip, lines.len() as int);
    lemma_balance_helper(ts, ts.len() as int);
    assert(ts.take(ts.len() as int) =~= ts);
}

} // verus!

