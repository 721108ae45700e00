use vstd::prelude::*;
use crate::chars::is_ws_char;
use crate::text::trim_spec;
use crate::text::trim_str;
use crate::text::lemma_trim_fixed;
use crate::trusted::is_alnum_char;
use crate::trusted::char_is_alphanumeric;
use vstd::string::StrSliceExecFns;

verus! {

/// Characters a bare tag name may consist of.
pub open spec fn is_tag_name_char(c: char) -> bool {
    is_alnum_char(c) || c == ':' || c == '-' || c == '.'
}

/// A container element: exactly `<name>` or `</name>`, with no attributes,
/// no inner content and no self-close marker.
pub open spec fn is_container_spec(t: Seq<char>) -> bool {
    &&& t.len() >= 3
    &&& t[0] == '<'
    &&& t[t.len() - 1] == '>'
    &&& if t[1] == '/' {
        forall|k: int| 2 <= k < t.len() - 1 ==> is_tag_name_char(t[k])
    } else {
        forall|k: int| 1 <= k < t.len() - 1 ==> is_tag_name_char(t[k])
    }
}

/// First index at or after `i` holding a space, tab or `>`; `t.len()` if
/// there is none. This is where the opening tag's name ends.
pub open spec fn term_scan(t: Seq<char>, i: int) -> int
    decreases t.len() - i,
{
    if i < 0 || i >= t.len() {
        t.len() as int
    } else if t[i] == ' ' || t[i] == '\t' || t[i] == '>' {
        i
    } else {
        term_scan(t, i + 1)
    }
}

/// First index at or after `i` holding `>`; `t.len()` if there is none.
pub open spec fn gt_scan(t: Seq<char>, i: int) -> int
    decreases t.len() - i,
{
    if i < 0 || i >= t.len() {
        t.len() as int
    } else if t[i] == '>' {
        i
    } else {
        gt_scan(t, i + 1)
    }
}

pub proof fn lemma_term_scan_skip(t: Seq<char>, i: int, j: int)
    requires
        0 <= i <= j <= t.len(),
        forall|k: int| i <= k < j ==> !(t[k] == ' ' || t[k] == '\t' || t[k] == '>'),
    ensures
        term_scan(t, i) == term_scan(t, j),
    decreases j - i,
{
    if i < j {
        lemma_term_scan_skip(t, i + 1, j);
    }
}

pub proof fn lemma_gt_scan_skip(t: Seq<char>, i: int, j: int)
    requires
        0 <= i <= j <= t.len(),
        forall|k: int| i <= k < j ==> t[k] != '>',
    ensures
        gt_scan(t, i) == gt_scan(t, j),
    decreases j - i,
{
    if i < j {
        lemma_gt_scan_skip(t, i + 1, j);
    }
}

/// A self-contained line: it starts with `<name ...>`, ends with the exact
/// matching `</name>`, and the content between the first `>` and that
/// closing tag is non-empty.
pub open spec fn is_self_contained_spec(t: Seq<char>) -> bool {
    let n = t.len() as int;
    &&& n >= 7
    &&& t[0] == '<'
    &&& t[n - 1] == '>'
    &&& {
        let e = term_scan(t, 1);
        let name = t.subrange(1, e);
        let g = gt_scan(t, 1);
        let cst = n - (e - 1) - 3;
        &&& cst > g + 1
        &&& t.subrange(cst, n) == seq!['<', '/'] + name + seq!['>']
    }
}

/// An opening tag: it begins with `<`, its second character is none of `/`,
/// `!`, `?`, it does not end with the self-close marker `/>`, and it is not
/// self-contained.
pub open spec fn is_opening_spec(t: Seq<char>) -> bool {
    &&& t.len() >= 2
    &&& t[0] == '<'
    &&& t[1] != '/' && t[1] != '!' && t[1] != '?'
    &&& !(t[t.len() - 2] == '/' && t[t.len() - 1] == '>')
    &&& !is_self_contained_spec(t)
}

/// A closing tag: it begins with `</`.
pub open spec fn is_closing_spec(t: Seq<char>) -> bool {
    t.len() >= 2 && t[0] == '<' && t[1] == '/'
}

/// Whether the trimmed line is a bare opening or closing tag with no
/// attributes and no content.
#[verifier::loop_isolation(false)]
pub fn is_container_element(s: &str) -> (r: bool)
    ensures
        r == is_container_spec(trim_spec(s@)),
{
    let t = trim_str(s);
    let n = t.unicode_len();
    if n < 3 {
        return false;
    }
    if t.get_char(0) != '<' || t.get_char(n - 1) != '>' {
        return false;
    }
    let lo: usize = if t.get_char(1) == '/' {
        2
    } else {
        1
    };
    let mut k = lo;
    while k < n - 1
        invariant
            lo <= k <= n - 1,
            n == t@.len(),
            n >= 3,
            forall|j: int| lo <= j < k ==> is_tag_name_char(t@[j]),
        decreases n - k,
    {
        let c = t.get_char(k);
        if !(char_is_alphanumeric(c) || c == ':' || c == '-' || c == '.') {
            proof {
                assert(!is_tag_name_char(t@[k as int]));
                if t@[1] == '/' {
                    assert(2 <= k < t@.len() - 1);
                } else {
                    assert(1 <= k < t@.len() - 1);
                }
                assert(!is_container_spec(t@));
            }
            return false;
        }
        k += 1;
    }
    true
}

/// Whether the trimmed line opens and closes the same tag on one line, with
/// non-empty content between them.
#[verifier::loop_isolation(false)]
pub fn is_self_contained(s: &str) -> (r: bool)
    ensures
        r == is_self_contained_spec(trim_spec(s@)),
{
    let t = trim_str(s);
    let n = t.unicode_len();
    if n < 7 {
        return false;
    }
    if t.get_char(0) != '<' || t.get_char(n - 1) != '>' {
        return false;
    }
    // Find where the opening tag's name ends.
    let mut e: usize = 1;
    while e < n && !(t.get_char(e) == ' ' || t.get_char(e) == '\t' || t.get_char(e) == '>')
        invariant
            1 <= e <= n,
            n == t@.len(),
            forall|k: int| 1 <= k < e ==> !(t@[k] == ' ' || t@[k] == '\t' || t@[k] == '>'),
        decreases n - e,
    {
        e += 1;
    }
    proof {
        lemma_term_scan_skip(t@, 1, e as int);
    }
    if e == n {
        // Cannot happen since the line ends with `>`, but settles the scan.
        assert(t@[n - 1] == '>');
        assert(false);
        return false;
    }
    assert(term_scan(t@, 1) == e);
    // Find the first `>`.
    let mut g: usize = 1;
    while g < n && t.get_char(g) != '>'
        invariant
            1 <= g <= n,
            n == t@.len(),
            forall|k: int| 1 <= k < g ==> t@[k] != '>',
        decreases n - g,
    {
        g += 1;
    }
    proof {
        lemma_gt_scan_skip(t@, 1, g as int);
    }
    if g == n {
        assert(t@[n - 1] == '>');
        assert(false);
        return false;
    }
    assert(gt_scan(t@, 1) == g);
    // Closing tag start: n - name_len - 3 where name_len == e - 1.
    if n - e < 2 {
        return false;
    }
    let cst = n - e - 2;
    if cst <= g {
        return false;
    }
    if cst - g < 2 {
        return false;
    }
    let ghost close = seq!['<', '/'] + t@.subrange(1, e as int) + seq!['>'];
    assert(close.len() == n - cst);
    if t.get_char(cst) != '<' {
        assert(t@.subrange(cst as int, n as int)[0] != close[0]);
        return false;
    }
    if t.get_char(cst + 1) != '/' {
        assert(t@.subrange(cst as int, n as int)[1] != close[1]);
        return false;
    }
    let name_len = e - 1;
    let mut k: usize = 0;
    while k < name_len
        invariant
            0 <= k <= name_len,
            name_len == e - 1,
            1 <= e,
            e + 2 <= n,
            cst == n - e - 2,
            n == t@.len(),
            forall|j: int| 0 <= j < k ==> #[trigger] t@[cst + 2 + j] == t@[1 + j],
        decreases name_len - k,
    {
        if t.get_char(cst + 2 + k) != t.get_char(1 + k) {
            proof {
                assert(close[2 + k] == t@.subrange(1, e as int)[k as int]);
                assert(t@.subrange(1, e as int)[k as int] == t@[1 + k]);
                assert(t@.subrange(cst as int, n as int)[2 + k] == t@[cst + 2 + k]);
                assert(t@.subrange(cst as int, n as int) != close);
            }
            return false;
        }
        k += 1;
    }
    proof {
        let sub = t@.subrange(cst as int, n as int);
        assert forall|j: int| 0 <= j < close.len() implies sub[j] == close[j] by {
            assert(sub[j] == t@[cst + j]);
            if j == 0 {
                assert(close[0] == '<');
            } else if j == 1 {
                assert(close[1] == '/');
            } else if j < e + 1 {
                assert(close[j] == t@.subrange(1, e as int)[j - 2]);
                assert(t@[cst + 2 + (j - 2)] == t@[1 + (j - 2)]);
            } else {
                assert(j == e + 1);
                assert(close[j] == '>');
                assert(cst + j == n - 1);
            }
        }
        assert(sub =~= close);
    }
    true
}

/// Whether the trimmed line is an opening tag that increases nesting depth.
#[verifier::loop_isolation(false)]
pub fn is_opening_tag(s: &str) -> (r: bool)
    ensures
        r == is_opening_spec(trim_spec(s@)),
{
    let t = trim_str(s);
    let n = t.unicode_len();
    if n < 2 {
        return false;
    }
    if t.get_char(0) != '<' {
        return false;
    }
    let c1 = t.get_char(1);
    if c1 == '/' || c1 == '!' || c1 == '?' {
        return false;
    }
    if t.get_char(n - 2) == '/' && t.get_char(n - 1) == '>' {
        return false;
    }
    let sc = is_self_contained(t);
    proof {
        lemma_trim_fixed(s@);
    }
    !sc
}

/// Whether the trimmed line is a closing tag.
pub fn is_closing_tag(s: &str) -> (r: bool)
    ensures
        r == is_closing_spec(trim_spec(s@)),
{
    let t = trim_str(s);
    let n = t.unicode_len();
    n >= 2 && t.get_char(0) == '<' && t.get_char(1) == '/'
}

} // verus!
