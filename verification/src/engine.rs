use vstd::prelude::*;
use crate::text::trim_spec;
use crate::text::trim_str;
use crate::text::split_lines;
use crate::text::split_lines_exec;
use crate::text::views_of;
use crate::text::spaces;
use crate::text::lemma_trim_fixed;
use crate::classify::is_container_spec;
use crate::classify::is_closing_spec;
use crate::classify::is_opening_spec;
use crate::classify::is_container_element;
use crate::classify::is_opening_tag;
use crate::classify::is_closing_tag;
use crate::key::key_spec;
use crate::key::normalize_whitespace;
use vstd::string::StrSliceExecFns;
use vstd::string::StringExecFns;

verus! {

/// Whether the trimmed line is an XML declaration, `<?xml ...`.
pub open spec fn is_xml_decl_spec(t: Seq<char>) -> bool {
    t.len() >= 5 && t[0] == '<' && t[1] == '?' && t[2] == 'x' && t[3] == 'm' && t[4] == 'l'
}

/// One pass's running state: the emitted text, the nesting depth, the set of
/// signatures already seen, and the number of duplicate lines removed.
pub open spec fn init_state() -> (Seq<char>, int, Set<Seq<char>>, int) {
    (Seq::empty(), 0, Set::empty(), 0)
}

/// How one line of input changes the pass state, in this order: blank lines
/// and, when `strip` is set, XML declarations are discarded; a non-container
/// line whose signature was already seen is discarded and counted; otherwise
/// a closing tag first decreases the depth (held at zero), the line is
/// emitted behind two spaces per depth unit, and an opening tag then
/// increases the depth.
pub open spec fn line_step(
    st: (Seq<char>, int, Set<Seq<char>>, int),
    line: Seq<char>,
    strip: bool,
) -> (Seq<char>, int, Set<Seq<char>>, int) {
    let t = trim_spec(line);
    if t.len() == 0 {
        st
    } else if strip && is_xml_decl_spec(t) {
        st
    } else if !is_container_spec(t) && st.2.contains(key_spec(t)) {
        (st.0, st.1, st.2, st.3 + 1)
    } else {
        let seen2 = if is_container_spec(t) {
            st.2
        } else {
            st.2.insert(key_spec(t))
        };
        let d1 = if is_closing_spec(t) {
            if st.1 > 0 {
                st.1 - 1
            } else {
                0
            }
        } else {
            st.1
        };
        let d2 = if is_opening_spec(t) {
            d1 + 1
        } else {
            d1
        };
        (st.0 + spaces((2 * d1) as nat) + t + seq!['\n'], d2, seen2, st.3)
    }
}

/// The pass state after the first `i` lines.
pub open spec fn pass_state(lines: Seq<Seq<char>>, strip: bool, i: int) -> (
    Seq<char>,
    int,
    Set<Seq<char>>,
    int,
)
    decreases i,
{
    if i <= 0 {
        init_state()
    } else {
        line_step(pass_state(lines, strip, i - 1), lines[i - 1], strip)
    }
}

/// What processing a whole document returns: the emitted text and the number
/// of duplicate lines removed.
pub open spec fn process_spec(content: Seq<char>, strip: bool) -> (Seq<char>, int) {
    let lines = split_lines(content);
    let st = pass_state(lines, strip, lines.len() as int);
    (st.0, st.3)
}

proof fn lemma_views_push_to_set(v: Seq<String>, x: String)
    ensures
        views_of(v.push(x)).to_set() == views_of(v).to_set().insert(x@),
{
    let a = views_of(v);
    let b = views_of(v.push(x));
    assert(b =~= a.push(x@));
    assert forall|y: Seq<char>| a.push(x@).to_set().contains(y) implies a.to_set().insert(
        x@,
    ).contains(y) by {
        let idx = choose|idx: int| 0 <= idx < a.push(x@).len() && a.push(x@)[idx] == y;
        if idx < a.len() {
            assert(a[idx] == y);
            assert(a.contains(y));
        }
    }
    assert forall|y: Seq<char>| a.to_set().insert(x@).contains(y) implies a.push(
        x@,
    ).to_set().contains(y) by {
        if a.to_set().contains(y) {
            let idx = choose|idx: int| 0 <= idx < a.len() && a[idx] == y;
            assert(a.push(x@)[idx] == y);
        } else {
            assert(a.push(x@)[a.len() as int] == y);
        }
        assert(a.push(x@).contains(y));
    }
    assert(b.to_set() =~= a.to_set().insert(x@));
}

/// Whether the vector holds a string whose characters equal `key`.
#[verifier::loop_isolation(false)]
fn seen_contains(seen: &Vec<String>, key: &String) -> (r: bool)
    ensures
        r == views_of(seen@).to_set().contains(key@),
{
    let mut j: usize = 0;
    while j < seen.len()
        invariant
            0 <= j <= seen@.len(),
            forall|k: int| 0 <= k < j ==> views_of(seen@)[k] != key@,
        decreases seen@.len() - j,
    {
        if seen[j] == *key {
            proof {
                assert(views_of(seen@)[j as int] == key@);
                assert(views_of(seen@).contains(key@));
            }
            return true;
        }
        j += 1;
    }
    proof {
        assert(!views_of(seen@).contains(key@));
    }
    false
}

/// Processes the whole document in one pass over its lines: blank lines are
/// discarded, a non-container line whose whitespace-insensitive signature was
/// already seen is removed and counted, and each surviving line is emitted
/// with two spaces of indentation per nesting level, a closing tag first
/// stepping the depth down (never below zero) and an opening tag stepping it
/// up afterwards. When `strip_xml_declaration` is set, XML declaration lines
/// are discarded too. Returns the emitted text, each line terminated by a
/// line feed, and the number of duplicate lines removed.
#[verifier::loop_isolation(false)]
#[verifier::rlimit(50)]
pub fn process_xml_with_deduplication(content: &str, strip_xml_declaration: bool) -> (r: (
    String,
    usize,
))
    ensures
        r.0@ == process_spec(content@, strip_xml_declaration).0,
        r.1 as int == process_spec(content@, strip_xml_declaration).1,
{
    let lines = split_lines_exec(content);
    let ghost linesq = split_lines(content@);
    let n = lines.len();
    let mut out = String::new();
    let mut depth: usize = 0;
    let mut seen: Vec<String> = Vec::new();
    let mut dups: usize = 0;
    let mut i: usize = 0;
    proof {
        assert(views_of(Seq::<String>::empty()).to_set() =~= Set::<Seq<char>>::empty());
    }
    while i < n
        invariant
            0 <= i <= n,
            n == linesq.len(),
            views_of(lines@) == linesq,
            out@ == pass_state(linesq, strip_xml_declaration, i as int).0,
            depth as int == pass_state(linesq, strip_xml_declaration, i as int).1,
            views_of(seen@).to_set() == pass_state(linesq, strip_xml_declaration, i as int).2,
            dups as int == pass_state(linesq, strip_xml_declaration, i as int).3,
            depth <= i,
            dups <= i,
        decreases n - i,
    {
        let ghost st = pass_state(linesq, strip_xml_declaration, i as int);
        let ghost t_spec = trim_spec(linesq[i as int]);
        let line: &String = &lines[i];
        proof {
            assert(views_of(lines@)[i as int] == line@);
        }
        let t = trim_str(line.as_str());
        let tn = t.unicode_len();
        if tn == 0 {
            i += 1;
            continue;
        }
        let is_decl = tn >= 5 && t.get_char(0) == '<' && t.get_char(1) == '?' && t.get_char(2)
            == 'x' && t.get_char(3) == 'm' && t.get_char(4) == 'l';
        if strip_xml_declaration && is_decl {
            i += 1;
            continue;
        }
        let container = is_container_element(t);
        proof {
            lemma_trim_fixed(line@);
        }
        if !container {
            let key = normalize_whitespace(t);
            proof {
                assert(key@ == key_spec(t_spec));
            }
            if seen_contains(&seen, &key) {
                dups += 1;
                i += 1;
                continue;
            }
            proof {
                lemma_views_push_to_set(seen@, key);
            }
            seen.push(key);
        }
        if is_closing_tag(t) {
            if depth > 0 {
                depth -= 1;
            }
        }
        let ghost d1 = if is_closing_spec(t_spec) {
            if st.1 > 0 {
                st.1 - 1
            } else {
                0
            }
        } else {
            st.1
        };
        assert(depth as int == d1);
        let ghost out_before_indent = out@;
        let mut lvl: usize = 0;
        while lvl < depth
            invariant
                0 <= lvl <= depth,
                out@ == out_before_indent + spaces((2 * lvl) as nat),
            decreases depth - lvl,
        {
            out.append("  ");
            proof {
                reveal_strlit("  ");
                assert("  "@ =~= seq![' ', ' ']);
                assert(out_before_indent + spaces((2 * lvl) as nat) + "  "@ =~= out_before_indent
                    + spaces((2 * (lvl + 1)) as nat));
            }
            lvl += 1;
        }
        out.append(t);
        out.append("\n");
        proof {
            reveal_strlit("\n");
            assert("\n"@ =~= seq!['\n']);
            assert(out_before_indent + spaces((2 * d1) as nat) + t_spec + seq!['\n'] =~= out@);
        }
        if is_opening_tag(t) {
            depth += 1;
        }
        i += 1;
    }
    (out, dups)
}

} // verus!
