use vstd::prelude::*;
use crate::trusted::unix_now_secs;
use vstd::string::StrSliceExecFns;
use vstd::string::StringExecFns;

verus! {

/// The decimal digit character for `d`.
pub open spec fn digit_char(d: int) -> char {
    if d == 0 {
        '0'
    } else if d == 1 {
        '1'
    } else if d == 2 {
        '2'
    } else if d == 3 {
        '3'
    } else if d == 4 {
        '4'
    } else if d == 5 {
        '5'
    } else if d == 6 {
        '6'
    } else if d == 7 {
        '7'
    } else if d == 8 {
        '8'
    } else {
        '9'
    }
}

/// The decimal form of `n`, most significant digit first, no leading zeros
/// (a single `0` for zero).
pub open spec fn dec_spec(n: int) -> Seq<char>
    decreases n,
{
    if n < 10 {
        seq![digit_char(n)]
    } else {
        dec_spec(n / 10) + seq![digit_char(n % 10)]
    }
}

fn digit_str(d: u64) -> (r: &'static str)
    requires
        d < 10,
    ensures
        r@ == seq![digit_char(d as int)],
{
    let r: &'static str = if d == 0 {
        "0"
    } else if d == 1 {
        "1"
    } else if d == 2 {
        "2"
    } else if d == 3 {
        "3"
    } else if d == 4 {
        "4"
    } else if d == 5 {
        "5"
    } else if d == 6 {
        "6"
    } else if d == 7 {
        "7"
    } else if d == 8 {
        "8"
    } else {
        "9"
    };
    proof {
        reveal_strlit("0");
        reveal_strlit("1");
        reveal_strlit("2");
        reveal_strlit("3");
        reveal_strlit("4");
        reveal_strlit("5");
        reveal_strlit("6");
        reveal_strlit("7");
        reveal_strlit("8");
        reveal_strlit("9");
        assert(r@ =~= seq![digit_char(d as int)]);
    }
    r
}

/// Renders `n` in decimal.
pub fn u64_to_dec(n: u64) -> (r: String)
    ensures
        r@ == dec_spec(n as int),
    decreases n,
{
    if n < 10 {
        String::from_str(digit_str(n))
    } else {
        let mut s = u64_to_dec(n / 10);
        s.append(digit_str(n % 10));
        s
    }
}

/// Index of the last `.` in `s`, or -1 if there is none.
pub open spec fn last_dot(s: Seq<char>) -> int
    decreases s.len(),
{
    if s.len() == 0 {
        -1
    } else if s[s.len() - 1] == '.' {
        s.len() - 1
    } else {
        last_dot(s.drop_last())
    }
}

proof fn lemma_last_dot_none(s: Seq<char>)
    requires
        forall|k: int| 0 <= k < s.len() ==> s[k] != '.',
    ensures
        last_dot(s) == -1,
    decreases s.len(),
{
    if s.len() > 0 {
        lemma_last_dot_none(s.drop_last());
    }
}

proof fn lemma_last_dot_at(s: Seq<char>, d: int)
    requires
        0 <= d < s.len(),
        s[d] == '.',
        forall|k: int| d < k < s.len() ==> s[k] != '.',
    ensures
        last_dot(s) == d,
    decreases s.len(),
{
    if s[s.len() - 1] == '.' {
        assert(d == s.len() - 1);
    } else {
        lemma_last_dot_at(s.drop_last(), d);
    }
}

/// The default output name: the extension after the last dot is kept and
/// `organized` is spliced in before it; a name without a dot gets
/// `.organized` appended.
pub open spec fn organized_name_spec(s: Seq<char>) -> Seq<char> {
    let d = last_dot(s);
    if d >= 0 {
        s.subrange(0, d) + ".organized."@ + s.subrange(d + 1, s.len() as int)
    } else {
        s + ".organized"@
    }
}

/// The output path for a processed document. In replace mode it is the input
/// path with `.tmp.` and the clock's current second appended, a unique
/// scratch name later swapped over the original; otherwise it is the input
/// name with `organized` spliced in before the extension.
#[verifier::loop_isolation(false)]
pub fn get_output_filename(input_file: &str, replace_mode: bool) -> (r: String)
    ensures
        !replace_mode ==> r@ == organized_name_spec(input_file@),
        replace_mode ==> exists|secs: u64|
            r@ == input_file@ + ".tmp."@ + dec_spec(secs as int),
{
    if replace_mode {
        let secs = unix_now_secs();
        let mut r = String::from_str(input_file);
        r.append(".tmp.");
        let d = u64_to_dec(secs);
        r.append(d.as_str());
        proof {
            assert(r@ == input_file@ + ".tmp."@ + dec_spec(secs as int));
        }
        r
    } else {
        let n = input_file.unicode_len();
        let mut dot: usize = n;
        let mut j: usize = 0;
        while j < n
            invariant
                0 <= j <= n,
                n == input_file@.len(),
                dot == n || (dot < j && input_file@[dot as int] == '.'),
                dot == n ==> forall|k: int| 0 <= k < j ==> input_file@[k] != '.',
                dot < n ==> forall|k: int| dot < k < j ==> input_file@[k] != '.',
            decreases n - j,
        {
            if input_file.get_char(j) == '.' {
                dot = j;
            }
            j += 1;
        }
        if dot == n {
            proof {
                lemma_last_dot_none(input_file@);
            }
            let mut r = String::from_str(input_file);
            r.append(".organized");
            r
        } else {
            proof {
                lemma_last_dot_at(input_file@, dot as int);
            }
            let mut r = String::from_str(input_file.substring_char(0, dot));
            r.append(".organized.");
            r.append(input_file.substring_char(dot + 1, n));
            r
        }
    }
}

} // verus!
