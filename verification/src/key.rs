use vstd::prelude::*;
use crate::chars::is_ws_char;
use crate::chars::is_ws;
use crate::text::trim_spec;
use crate::text::trim_str;
use vstd::string::StrSliceExecFns;
use vstd::string::StringExecFns;

verus! {

// ---------------------------------------------------------------------------
// The quote-aware whitespace collapse
// ---------------------------------------------------------------------------
//
// The scan threads three pieces of state left to right: whether it stands
// inside a quoted span, which quote character opened that span, and whether
// the previous character already emitted a collapsed space.

/// Output of the collapse on `s` started in state (`in_q`, `qc`, `psp`):
/// inside quotes every character is copied verbatim; outside quotes a run of
/// whitespace becomes one space; `"` or `'` opens a span that the same
/// character closes.
pub open spec fn collapse(s: Seq<char>, in_q: bool, qc: char, psp: bool) -> Seq<char>
    decreases s.len(),
{
    if s.len() == 0 {
        s
    } else {
        let c = s[0];
        let rest = s.drop_first();
        if !in_q && (c == '"' || c == '\'') {
            seq![c] + collapse(rest, true, c, false)
        } else if in_q && c == qc {
            seq![c] + collapse(rest, false, qc, false)
        } else if in_q {
            seq![c] + collapse(rest, in_q, qc, false)
        } else if is_ws_char(c) {
            if psp {
                collapse(rest, false, qc, true)
            } else {
                seq![' '] + collapse(rest, false, qc, true)
            }
        } else {
            seq![c] + collapse(rest, false, qc, false)
        }
    }
}

/// Scan state after running the collapse over `s` from (`in_q`, `qc`, `psp`).
pub open spec fn collapse_st(s: Seq<char>, in_q: bool, qc: char, psp: bool) -> (bool, char, bool)
    decreases s.len(),
{
    if s.len() == 0 {
        (in_q, qc, psp)
    } else {
        let c = s[0];
        let rest = s.drop_first();
        if !in_q && (c == '"' || c == '\'') {
            collapse_st(rest, true, c, false)
        } else if in_q && c == qc {
            collapse_st(rest, false, qc, false)
        } else if in_q {
            collapse_st(rest, in_q, qc, false)
        } else if is_ws_char(c) {
            collapse_st(rest, false, qc, true)
        } else {
            collapse_st(rest, false, qc, false)
        }
    }
}

/// The collapse distributes over concatenation, threading its state.
pub proof fn lemma_collapse_concat(a: Seq<char>, b: Seq<char>, in_q: bool, qc: char, psp: bool)
    ensures
        collapse(a + b, in_q, qc, psp) == collapse(a, in_q, qc, psp) + collapse(
            b,
            collapse_st(a, in_q, qc, psp).0,
            collapse_st(a, in_q, qc, psp).1,
            collapse_st(a, in_q, qc, psp).2,
        ),
        collapse_st(a + b, in_q, qc, psp) == collapse_st(
            b,
            collapse_st(a, in_q, qc, psp).0,
            collapse_st(a, in_q, qc, psp).1,
            collapse_st(a, in_q, qc, psp).2,
        ),
    decreases a.len(),
{
    if a.len() == 0 {
        assert(a + b =~= b);
        assert(collapse(a, in_q, qc, psp) + collapse(b, in_q, qc, psp) =~= collapse(
            b,
            in_q,
            qc,
            psp,
        ));
    } else {
        let c = a[0];
        assert((a + b)[0] == c);
        assert((a + b).drop_first() =~= a.drop_first() + b);
        if !in_q && (c == '"' || c == '\'') {
            lemma_collapse_concat(a.drop_first(), b, true, c, false);
        } else if in_q && c == qc {
            lemma_collapse_concat(a.drop_first(), b, false, qc, false);
        } else if in_q {
            lemma_collapse_concat(a.drop_first(), b, in_q, qc, false);
        } else if is_ws_char(c) {
            lemma_collapse_concat(a.drop_first(), b, false, qc, true);
        } else {
            lemma_collapse_concat(a.drop_first(), b, false, qc, false);
        }
        assert(forall|x: char, u: Seq<char>, v: Seq<char>|
            (seq![x] + u) + v =~= seq![x] + (u + v));
    }
}

/// Inside a quoted span, every character before the closing quote is copied
/// verbatim and the state does not change.
pub proof fn lemma_collapse_in_quotes(w: Seq<char>, z: Seq<char>, q: char)
    requires
        forall|k: int| 0 <= k < w.len() ==> w[k] != q,
    ensures
        collapse(w + z, true, q, false) == w + collapse(z, true, q, false),
        collapse_st(w + z, true, q, false) == collapse_st(z, true, q, false),
    decreases w.len(),
{
    if w.len() == 0 {
        assert(w + z =~= z);
        assert(w + collapse(z, true, q, false) =~= collapse(z, true, q, false));
    } else {
        let c = w[0];
        assert((w + z)[0] == c);
        assert((w + z).drop_first() =~= w.drop_first() + z);
        lemma_collapse_in_quotes(w.drop_first(), z, q);
        assert(seq![c] + (w.drop_first() + collapse(z, true, q, false)) =~= w + collapse(
            z,
            true,
            q,
            false,
        ));
    }
}

/// Outside quotes, a non-empty run of whitespace becomes one space (none at
/// all when a space was just emitted), and leaves the scan expecting no
/// further space.
pub proof fn lemma_collapse_ws_run(u: Seq<char>, z: Seq<char>, qc: char, psp: bool)
    requires
        u.len() > 0,
        forall|k: int| 0 <= k < u.len() ==> is_ws_char(u[k]),
    ensures
        collapse(u + z, false, qc, psp) == (if psp {
            Seq::<char>::empty()
        } else {
            seq![' ']
        }) + collapse(z, false, qc, true),
        collapse_st(u + z, false, qc, psp) == collapse_st(z, false, qc, true),
    decreases u.len(),
{
    let c = u[0];
    assert(is_ws_char(c));
    assert(c != '"' && c != '\'');
    assert((u + z)[0] == c);
    assert((u + z).drop_first() =~= u.drop_first() + z);
    if u.len() == 1 {
        assert(u.drop_first() + z =~= z);
        if psp {
            assert((if psp {
                Seq::<char>::empty()
            } else {
                seq![' ']
            }) + collapse(z, false, qc, true) =~= collapse(z, false, qc, true));
        }
    } else {
        lemma_collapse_ws_run(u.drop_first(), z, qc, true);
        assert(Seq::<char>::empty() + collapse(z, false, qc, true) =~= collapse(
            z,
            false,
            qc,
            true,
        ));
        if !psp {
            assert(seq![' '] + (Seq::<char>::empty() + collapse(z, false, qc, true)) =~= seq![' ']
                + collapse(z, false, qc, true));
        }
    }
}

/// The signature under which lines are compared for duplication: the
/// quote-aware whitespace collapse of the line, trimmed at both ends.
pub open spec fn key_spec(s: Seq<char>) -> Seq<char> {
    trim_spec(collapse(s, false, '\0', false))
}

/// Collapses runs of whitespace outside quoted spans to a single space,
/// copies quoted spans byte for byte, and trims the ends. Two lines are
/// duplicates exactly when this signature is equal.
#[verifier::loop_isolation(false)]
pub fn normalize_whitespace(s: &str) -> (r: String)
    ensures
        r@ == key_spec(s@),
{
    let n = s.unicode_len();
    let mut out = String::new();
    let mut in_q = false;
    let mut qc: char = '\0';
    let mut psp = false;
    let mut i: usize = 0;
    proof {
        assert(s@.subrange(0, n as int) =~= s@);
    }
    while i < n
        invariant
            0 <= i <= n,
            n == s@.len(),
            out@ + collapse(s@.subrange(i as int, n as int), in_q, qc, psp) =~= collapse(
                s@,
                false,
                '\0',
                false,
            ),
        decreases n - i,
    {
        let ghost tail = s@.subrange(i as int, n as int);
        proof {
            assert(tail[0] == s@[i as int]);
            assert(tail.drop_first() =~= s@.subrange(i as int + 1, n as int));
        }
        let c = s.get_char(i);
        if !in_q && (c == '"' || c == '\'') {
            out.append(s.substring_char(i, i + 1));
            proof {
                assert(s@.subrange(i as int, i as int + 1) =~= seq![c]);
            }
            in_q = true;
            qc = c;
            psp = false;
        } else if in_q && c == qc {
            out.append(s.substring_char(i, i + 1));
            proof {
                assert(s@.subrange(i as int, i as int + 1) =~= seq![c]);
            }
            in_q = false;
            psp = false;
        } else if in_q {
            out.append(s.substring_char(i, i + 1));
            proof {
                assert(s@.subrange(i as int, i as int + 1) =~= seq![c]);
            }
            psp = false;
        } else if is_ws(c) {
            if !psp {
                out.append(" ");
                proof {
                    reveal_strlit(" ");
                    assert(" "@ =~= seq![' ']);
                }
                psp = true;
            }
        } else {
            out.append(s.substring_char(i, i + 1));
            proof {
                assert(s@.subrange(i as int, i as int + 1) =~= seq![c]);
            }
            psp = false;
        }
        i += 1;
    }
    proof {
        assert(s@.subrange(n as int, n as int) =~= Seq::<char>::empty());
        assert(out@ =~= collapse(s@, false, '\0', false));
    }
    let r = String::from_str(trim_str(out.as_str()));
    r
}

} // verus!
