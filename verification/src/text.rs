use vstd::prelude::*;
use crate::chars::is_ws_char;
use crate::chars::is_ws;
use vstd::string::StrSliceExecFns;
use vstd::string::StringExecFns;

verus! {

// ---------------------------------------------------------------------------
// Trimming
// ---------------------------------------------------------------------------

/// `s` without its leading run of whitespace.
pub open spec fn trim_start_spec(s: Seq<char>) -> Seq<char>
    decreases s.len(),
{
    if s.len() > 0 && is_ws_char(s[0]) {
        trim_start_spec(s.drop_first())
    } else {
        s
    }
}

/// `s` without its trailing run of whitespace.
pub open spec fn trim_end_spec(s: Seq<char>) -> Seq<char>
    decreases s.len(),
{
    if s.len() > 0 && is_ws_char(s[s.len() - 1]) {
        trim_end_spec(s.drop_last())
    } else {
        s
    }
}

/// `s` without leading and trailing whitespace.
pub open spec fn trim_spec(s: Seq<char>) -> Seq<char> {
    trim_end_spec(trim_start_spec(s))
}

pub proof fn lemma_trim_start_skip(s: Seq<char>, i: int)
    requires
        0 <= i <= s.len(),
        forall|k: int| 0 <= k < i ==> is_ws_char(s[k]),
    ensures
        trim_start_spec(s) == trim_start_spec(s.subrange(i, s.len() as int)),
    decreases i,
{
    if i == 0 {
        assert(s.subrange(0, s.len() as int) =~= s);
    } else {
        assert(is_ws_char(s[0]));
        assert(trim_start_spec(s) == trim_start_spec(s.drop_first()));
        assert(s.drop_first() =~= s.subrange(1, s.len() as int));
        let s1 = s.drop_first();
        assert(forall|k: int| 0 <= k < i - 1 ==> is_ws_char(s1[k]));
        lemma_trim_start_skip(s1, i - 1);
        assert(s1.subrange(i - 1, s1.len() as int) =~= s.subrange(i, s.len() as int));
    }
}

pub proof fn lemma_trim_start_noop(s: Seq<char>)
    requires
        s.len() == 0 || !is_ws_char(s[0]),
    ensures
        trim_start_spec(s) == s,
{
}

pub proof fn lemma_trim_end_skip(s: Seq<char>, j: int)
    requires
        0 <= j <= s.len(),
        forall|k: int| j <= k < s.len() ==> is_ws_char(s[k]),
    ensures
        trim_end_spec(s) == trim_end_spec(s.subrange(0, j)),
    decreases s.len() - j,
{
    if j == s.len() {
        assert(s.subrange(0, s.len() as int) =~= s);
    } else {
        assert(is_ws_char(s[s.len() - 1]));
        assert(trim_end_spec(s) == trim_end_spec(s.drop_last()));
        assert(s.drop_last() =~= s.subrange(0, s.len() - 1));
        let s1 = s.drop_last();
        lemma_trim_end_skip(s1, j);
        assert(s1.subrange(0, j) =~= s.subrange(0, j));
    }
}

pub proof fn lemma_trim_end_noop(s: Seq<char>)
    requires
        s.len() == 0 || !is_ws_char(s[s.len() - 1]),
    ensures
        trim_end_spec(s) == s,
{
}

/// The ends of a trimmed sequence carry no whitespace.
pub proof fn lemma_trim_start_ends(s: Seq<char>)
    ensures
        trim_start_spec(s).len() == 0 || !is_ws_char(trim_start_spec(s)[0]),
    decreases s.len(),
{
    if s.len() > 0 && is_ws_char(s[0]) {
        lemma_trim_start_ends(s.drop_first());
    }
}

pub proof fn lemma_trim_end_ends(s: Seq<char>)
    ensures
        trim_end_spec(s).len() == 0 || !is_ws_char(trim_end_spec(s)[trim_end_spec(s).len() - 1]),
    decreases s.len(),
{
    if s.len() > 0 && is_ws_char(s[s.len() - 1]) {
        lemma_trim_end_ends(s.drop_last());
    }
}

/// `trim_end_spec` only drops a suffix, so a non-blank first character stays.
pub proof fn lemma_trim_end_keeps_first(s: Seq<char>)
    requires
        s.len() > 0,
        !is_ws_char(s[0]),
    ensures
        trim_end_spec(s).len() > 0,
        trim_end_spec(s)[0] == s[0],
    decreases s.len(),
{
    if is_ws_char(s[s.len() - 1]) {
        lemma_trim_end_keeps_first(s.drop_last());
    }
}

/// A trimmed, non-empty sequence starts and ends with non-whitespace and is
/// its own trimmed form.
pub proof fn lemma_trim_fixed(s: Seq<char>)
    ensures
        trim_spec(s).len() > 0 ==> !is_ws_char(trim_spec(s)[0]),
        trim_spec(s).len() > 0 ==> !is_ws_char(trim_spec(s)[trim_spec(s).len() - 1]),
        trim_spec(trim_spec(s)) == trim_spec(s),
{
    let a = trim_start_spec(s);
    let t = trim_end_spec(a);
    lemma_trim_start_ends(s);
    lemma_trim_end_ends(a);
    if t.len() > 0 {
        if a.len() > 0 && !is_ws_char(a[0]) {
            lemma_trim_end_keeps_first(a);
            assert(t[0] == a[0]);
        }
        lemma_trim_start_noop(t);
        lemma_trim_end_noop(t);
    } else {
        lemma_trim_start_noop(t);
        lemma_trim_end_noop(t);
    }
}

/// Leading trim passes over a prefix into what follows it only when the
/// prefix is all whitespace.
pub proof fn lemma_trim_start_concat(a: Seq<char>, z: Seq<char>)
    ensures
        trim_start_spec(a + z) == if trim_start_spec(a).len() > 0 {
            trim_start_spec(a) + z
        } else {
            trim_start_spec(z)
        },
    decreases a.len(),
{
    if a.len() == 0 {
        assert(a + z =~= z);
    } else if is_ws_char(a[0]) {
        assert((a + z)[0] == a[0]);
        assert((a + z).drop_first() =~= a.drop_first() + z);
        lemma_trim_start_concat(a.drop_first(), z);
    } else {
        assert((a + z)[0] == a[0]);
    }
}

/// Trailing trim passes over a suffix into what precedes it only when the
/// suffix is all whitespace.
pub proof fn lemma_trim_end_concat(a: Seq<char>, z: Seq<char>)
    ensures
        trim_end_spec(a + z) == if trim_end_spec(z).len() > 0 {
            a + trim_end_spec(z)
        } else {
            trim_end_spec(a)
        },
    decreases z.len(),
{
    if z.len() == 0 {
        assert(a + z =~= a);
    } else if is_ws_char(z[z.len() - 1]) {
        assert((a + z)[(a + z).len() - 1] == z[z.len() - 1]);
        assert((a + z).drop_last() =~= a + z.drop_last());
        lemma_trim_end_concat(a, z.drop_last());
    } else {
        assert((a + z)[(a + z).len() - 1] == z[z.len() - 1]);
    }
}

proof fn lemma_trim_start_keeps_absence(s: Seq<char>, c: char)
    requires
        forall|k: int| 0 <= k < s.len() ==> s[k] != c,
    ensures
        forall|k: int| 0 <= k < trim_start_spec(s).len() ==> trim_start_spec(s)[k] != c,
    decreases s.len(),
{
    if s.len() > 0 && is_ws_char(s[0]) {
        let s1 = s.drop_first();
        assert(forall|k: int| 0 <= k < s1.len() ==> s1[k] != c);
        lemma_trim_start_keeps_absence(s1, c);
        assert(trim_start_spec(s) == trim_start_spec(s1));
        assert forall|k: int| 0 <= k < trim_start_spec(s).len() implies trim_start_spec(s)[k]
            != c by {
            assert(trim_start_spec(s)[k] == trim_start_spec(s1)[k]);
        }
    } else {
        assert forall|k: int| 0 <= k < trim_start_spec(s).len() implies trim_start_spec(s)[k]
            != c by {
            assert(trim_start_spec(s)[k] == s[k]);
        }
    }
}

proof fn lemma_trim_end_keeps_absence(s: Seq<char>, c: char)
    requires
        forall|k: int| 0 <= k < s.len() ==> s[k] != c,
    ensures
        forall|k: int| 0 <= k < trim_end_spec(s).len() ==> trim_end_spec(s)[k] != c,
    decreases s.len(),
{
    if s.len() > 0 && is_ws_char(s[s.len() - 1]) {
        let s1 = s.drop_last();
        assert(forall|k: int| 0 <= k < s1.len() ==> s1[k] != c);
        lemma_trim_end_keeps_absence(s1, c);
        assert(trim_end_spec(s) == trim_end_spec(s1));
        assert forall|k: int| 0 <= k < trim_end_spec(s).len() implies trim_end_spec(s)[k] != c by {
            assert(trim_end_spec(s)[k] == trim_end_spec(s1)[k]);
        }
    } else {
        assert forall|k: int| 0 <= k < trim_end_spec(s).len() implies trim_end_spec(s)[k] != c by {
            assert(trim_end_spec(s)[k] == s[k]);
        }
    }
}

/// Trimming introduces no character that the line did not hold.
pub proof fn lemma_trim_keeps_absence(s: Seq<char>, c: char)
    requires
        forall|k: int| 0 <= k < s.len() ==> s[k] != c,
    ensures
        forall|k: int| 0 <= k < trim_spec(s).len() ==> trim_spec(s)[k] != c,
{
    lemma_trim_start_keeps_absence(s, c);
    lemma_trim_end_keeps_absence(trim_start_spec(s), c);
}

/// Indentation in front of a trimmed, non-blank line trims away again.
pub proof fn lemma_trim_spaces(nsp: nat, t: Seq<char>)
    requires
        t.len() > 0,
        !is_ws_char(t[0]),
        !is_ws_char(t[t.len() - 1]),
    ensures
        trim_spec(spaces(nsp) + t) == t,
{
    let sp = spaces(nsp);
    assert(forall|k: int| 0 <= k < sp.len() ==> is_ws_char(sp[k]));
    lemma_trim_start_concat(sp, t);
    lemma_trim_start_skip(sp, nsp as int);
    assert(sp.subrange(nsp as int, nsp as int) =~= Seq::<char>::empty());
    assert(trim_start_spec(sp).len() == 0);
    lemma_trim_start_noop(t);
    lemma_trim_end_noop(t);
}

/// Trims a borrowed string slice; whitespace is `is_ws_char`.
pub fn trim_str<'a>(s: &'a str) -> (r: &'a str)
    ensures
        r@ == trim_spec(s@),
{
    let n = s.unicode_len();
    let mut a: usize = 0;
    while a < n && is_ws(s.get_char(a))
        invariant
            0 <= a <= n,
            n == s@.len(),
            forall|k: int| 0 <= k < a ==> is_ws_char(s@[k]),
        decreases n - a,
    {
        a += 1;
    }
    proof {
        lemma_trim_start_skip(s@, a as int);
    }
    if a == n {
        let r = s.substring_char(n, n);
        proof {
            assert(s@.subrange(n as int, n as int) =~= Seq::<char>::empty());
            assert(trim_start_spec(s@) =~= Seq::<char>::empty());
            lemma_trim_end_noop(trim_start_spec(s@));
        }
        return r;
    }
    let mut b: usize = n;
    while b > a && is_ws(s.get_char(b - 1))
        invariant
            a <= b <= n,
            n == s@.len(),
            forall|k: int| b <= k < n ==> is_ws_char(s@[k]),
        decreases b,
    {
        b -= 1;
    }
    let r = s.substring_char(a, b);
    proof {
        let tail = s@.subrange(a as int, n as int);
        assert(!is_ws_char(tail[0]));
        lemma_trim_start_noop(tail);
        assert(forall|k: int| b - a <= k < tail.len() ==> is_ws_char(tail[k]));
        lemma_trim_end_skip(tail, b - a);
        assert(tail.subrange(0, b - a) =~= s@.subrange(a as int, b as int));
        assert(b > a);
        assert(!is_ws_char(s@[b - 1]));
        lemma_trim_end_noop(s@.subrange(a as int, b as int));
    }
    r
}

// ---------------------------------------------------------------------------
// Splitting into lines
// ---------------------------------------------------------------------------

/// Index of the first line feed in `s`, or `s.len()` if there is none.
pub open spec fn first_nl(s: Seq<char>) -> int
    decreases s.len(),
{
    if s.len() == 0 {
        0
    } else if s[0] == '\n' {
        0
    } else {
        1 + first_nl(s.drop_first())
    }
}

pub proof fn lemma_first_nl(s: Seq<char>)
    ensures
        0 <= first_nl(s) <= s.len(),
        forall|k: int| 0 <= k < first_nl(s) ==> s[k] != '\n',
        first_nl(s) < s.len() ==> s[first_nl(s)] == '\n',
    decreases s.len(),
{
    if s.len() > 0 && s[0] != '\n' {
        let s1 = s.drop_first();
        lemma_first_nl(s1);
        assert forall|k: int| 0 <= k < first_nl(s) implies s[k] != '\n' by {
            if k > 0 {
                assert(s1[k - 1] == s[k]);
            }
        }
    }
}

/// The lines of `s`, split at each line feed. Splitting keeps an empty final
/// piece after a trailing line feed and yields one empty piece for empty
/// input.
pub open spec fn split_lines(s: Seq<char>) -> Seq<Seq<char>>
    decreases s.len(),
    via split_lines_decreases
{
    let i = first_nl(s);
    if i >= s.len() {
        seq![s]
    } else {
        seq![s.subrange(0, i)] + split_lines(s.subrange(i + 1, s.len() as int))
    }
}

#[via_fn]
proof fn split_lines_decreases(s: Seq<char>) {
    lemma_first_nl(s);
}

/// Where a line feed first occurs is where the split happens.
pub proof fn lemma_first_nl_at(s: Seq<char>, i: int)
    requires
        0 <= i <= s.len(),
        forall|k: int| 0 <= k < i ==> s[k] != '\n',
        i < s.len() ==> s[i] == '\n',
    ensures
        first_nl(s) == if i < s.len() { i } else { s.len() as int },
    decreases s.len(),
{
    if s.len() > 0 && s[0] != '\n' {
        let s1 = s.drop_first();
        assert(forall|k: int| 0 <= k < i - 1 ==> s1[k] != '\n');
        lemma_first_nl_at(s1, if i > 0 { i - 1 } else { 0 });
    }
}

/// No piece of the split contains a line feed.
pub proof fn lemma_split_lines_no_nl(s: Seq<char>)
    ensures
        forall|j: int, k: int|
            0 <= j < split_lines(s).len() && 0 <= k < split_lines(s)[j].len()
                ==> split_lines(s)[j][k] != '\n',
    decreases s.len(),
{
    lemma_first_nl(s);
    let i = first_nl(s);
    let r = split_lines(s);
    if i >= s.len() {
        assert forall|j: int, k: int| 0 <= j < r.len() && 0 <= k < r[j].len() implies r[j][k]
            != '\n' by {
            assert(r[j] == s);
        }
    } else {
        let rest = split_lines(s.subrange(i + 1, s.len() as int));
        lemma_split_lines_no_nl(s.subrange(i + 1, s.len() as int));
        assert forall|j: int, k: int| 0 <= j < r.len() && 0 <= k < r[j].len() implies r[j][k]
            != '\n' by {
            if j == 0 {
                assert(r[0] == s.subrange(0, i));
                assert(s.subrange(0, i)[k] == s[k]);
            } else {
                assert(r[j] == rest[j - 1]);
            }
        }
    }
}

/// Splitting text that begins with one line-feed-free line followed by a
/// line feed yields that line and then the split of the rest.
pub proof fn lemma_split_lines_concat(a: Seq<char>, rest: Seq<char>)
    requires
        forall|k: int| 0 <= k < a.len() ==> a[k] != '\n',
    ensures
        split_lines(a + seq!['\n'] + rest) == seq![a] + split_lines(rest),
{
    let s = a + seq!['\n'] + rest;
    assert(s[a.len() as int] == '\n');
    assert(forall|k: int| 0 <= k < a.len() ==> s[k] == a[k]);
    lemma_first_nl_at(s, a.len() as int);
    assert(first_nl(s) == a.len());
    assert(s.subrange(0, a.len() as int) =~= a);
    assert(s.subrange(a.len() as int + 1, s.len() as int) =~= rest);
}

/// Splits a string slice into its lines.
pub fn split_lines_exec(s: &str) -> (r: Vec<String>)
    ensures
        views_of(r@) == split_lines(s@),
{
    let n = s.unicode_len();
    let mut out: Vec<String> = Vec::new();
    let mut start: usize = 0;
    let mut i: usize = 0;
    proof {
        assert(s@.subrange(0, n as int) =~= s@);
        assert(views_of(out@) =~= Seq::<Seq<char>>::empty());
    }
    while i < n
        invariant
            0 <= start <= i <= n,
            n == s@.len(),
            forall|k: int| start <= k < i ==> s@[k] != '\n',
            split_lines(s@) =~= views_of(out@) + split_lines(
                s@.subrange(start as int, n as int),
            ),
        decreases n - i,
    {
        let c = s.get_char(i);
        if c == '\n' {
            let piece = String::from_str(s.substring_char(start, i));
            proof {
                let tail = s@.subrange(start as int, n as int);
                lemma_first_nl_at(tail, i - start);
                assert(tail.subrange(0, i - start) =~= s@.subrange(start as int, i as int));
                assert(tail.subrange(i - start + 1, tail.len() as int) =~= s@.subrange(
                    i as int + 1,
                    n as int,
                ));
                assert(views_of(out@.push(piece)) =~= views_of(out@).push(piece@));
            }
            out.push(piece);
            start = i + 1;
        }
        i += 1;
    }
    let piece = String::from_str(s.substring_char(start, n));
    proof {
        let tail = s@.subrange(start as int, n as int);
        lemma_first_nl_at(tail, n - start);
        assert(split_lines(tail) =~= seq![tail]);
        assert(views_of(out@.push(piece)) =~= views_of(out@).push(piece@));
        assert(views_of(out@.push(piece)) =~= views_of(out@) + seq![tail]);
    }
    out.push(piece);
    out
}

/// The views of a vector of strings.
pub open spec fn views_of(v: Seq<String>) -> Seq<Seq<char>> {
    v.map_values(|x: String| x@)
}

// ---------------------------------------------------------------------------
// Indentation units
// ---------------------------------------------------------------------------

/// `n` space characters.
pub open spec fn spaces(n: nat) -> Seq<char> {
    Seq::new(n, |i: int| ' ')
}

// ---------------------------------------------------------------------------
// Content normalization
// ---------------------------------------------------------------------------

/// `s` with a leading byte-order mark removed.
pub open spec fn strip_bom_spec(s: Seq<char>) -> Seq<char> {
    if s.len() > 0 && s[0] == '\u{FEFF}' {
        s.drop_first()
    } else {
        s
    }
}

/// `s` with every carriage-return/line-feed pair and every bare carriage
/// return rewritten to a single line feed.
pub open spec fn normalize_nl_spec(s: Seq<char>) -> Seq<char>
    decreases s.len(),
{
    if s.len() == 0 {
        s
    } else if s[0] == '\r' && s.len() >= 2 && s[1] == '\n' {
        seq!['\n'] + normalize_nl_spec(s.subrange(2, s.len() as int))
    } else if s[0] == '\r' {
        seq!['\n'] + normalize_nl_spec(s.drop_first())
    } else {
        seq![s[0]] + normalize_nl_spec(s.drop_first())
    }
}

/// What `clean_content` returns.
pub open spec fn clean_spec(s: Seq<char>) -> Seq<char> {
    normalize_nl_spec(strip_bom_spec(s))
}

/// Strips a leading byte-order mark and rewrites every line terminator
/// (`\r\n` or bare `\r`) to a single line feed.
pub fn clean_content(content: &str) -> (r: String)
    ensures
        r@ == clean_spec(content@),
{
    let n = content.unicode_len();
    let mut out = String::new();
    let mut i: usize = 0;
    if n > 0 && content.get_char(0) == '\u{FEFF}' {
        i = 1;
    }
    proof {
        assert(strip_bom_spec(content@) =~= content@.subrange(i as int, n as int));
    }
    while i < n
        invariant
            0 <= i <= n,
            n == content@.len(),
            out@ + normalize_nl_spec(content@.subrange(i as int, n as int)) =~= clean_spec(
                content@,
            ),
        decreases n - i,
    {
        let ghost pre = out@;
        let ghost tail = content@.subrange(i as int, n as int);
        let c = content.get_char(i);
        if c == '\r' {
            out.append("\n");
            proof {
                reveal_strlit("\n");
                assert("\n"@ =~= seq!['\n']);
            }
            if i + 1 < n && content.get_char(i + 1) == '\n' {
                proof {
                    assert(tail.subrange(2, tail.len() as int) =~= content@.subrange(
                        i as int + 2,
                        n as int,
                    ));
                    assert(out@ + normalize_nl_spec(content@.subrange(i as int + 2, n as int))
                        =~= pre + normalize_nl_spec(tail));
                }
                i += 2;
            } else {
                proof {
                    assert(tail.drop_first() =~= content@.subrange(i as int + 1, n as int));
                    assert(out@ + normalize_nl_spec(content@.subrange(i as int + 1, n as int))
                        =~= pre + normalize_nl_spec(tail));
                }
                i += 1;
            }
        } else {
            out.append(content.substring_char(i, i + 1));
            proof {
                assert(content@.subrange(i as int, i as int + 1) =~= seq![tail[0]]);
                assert(tail.drop_first() =~= content@.subrange(i as int + 1, n as int));
                assert(out@ + normalize_nl_spec(content@.subrange(i as int + 1, n as int)) =~= pre
                    + normalize_nl_spec(tail));
            }
            i += 1;
        }
    }
    proof {
        assert(content@.subrange(n as int, n as int) =~= Seq::<char>::empty());
        assert(out@ =~= clean_spec(content@));
    }
    out
}

} // verus!
