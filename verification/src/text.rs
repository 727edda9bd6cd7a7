//! Small verified text utilities the pipeline leans on: character-exact
//! string comparison, prefix tests, first-occurrence substring search and
//! line splitting.
use vstd::prelude::*;
use vstd::string::StrSliceExecFns;
use crate::codec::chars_to_string;

verus! {

/// Character-for-character equality of two strings.
pub fn str_eq(a: &str, b: &str) -> (r: bool)
    ensures
        r == (a@ == b@),
{
    let na = a.unicode_len();
    let nb = b.unicode_len();
    if na != nb {
        assert(a@ != b@);
        return false;
    }
    let mut i: usize = 0;
    while i < na
        invariant
            i <= na,
            na == a@.len(),
            na == b@.len(),
            forall|m: int| 0 <= m < i ==> a@[m] == b@[m],
        decreases na - i,
    {
        if a.get_char(i) != b.get_char(i) {
            assert(a@ != b@);
            return false;
        }
        i = i + 1;
    }
    assert(a@ =~= b@);
    true
}

/// `pat` occurs in `s` at position `i`.
pub open spec fn occurs_at(s: Seq<char>, pat: Seq<char>, i: int) -> bool {
    0 <= i && i + pat.len() <= s.len() && s.subrange(i, i + pat.len()) == pat
}

/// `pre` is a prefix of `s`.
pub open spec fn is_prefix(s: Seq<char>, pre: Seq<char>) -> bool {
    occurs_at(s, pre, 0)
}

/// Whether the characters of `s` starting at `i` are exactly `pat`.
pub fn matches_at(s: &Vec<char>, pat: &Vec<char>, i: usize) -> (r: bool)
    requires
        i + pat@.len() <= s@.len(),
    ensures
        r == occurs_at(s@, pat@, i as int),
{
    let n = s.len();
    let mut k: usize = 0;
    while k < pat.len()
        invariant
            k <= pat@.len(),
            i + pat@.len() <= s@.len(),
            n == s@.len(),
            forall|m: int| 0 <= m < k ==> s@[i + m] == pat@[m],
        decreases pat@.len() - k,
    {
        assert(i + k < n);
        if s[i + k] != pat[k] {
            proof {
                let sub = s@.subrange(i as int, i + pat@.len());
                assert(sub[k as int] == s@[i + k]);
                assert(sub != pat@);
            }
            return false;
        }
        k = k + 1;
    }
    proof {
        assert(s@.subrange(i as int, i + pat@.len()) =~= pat@);
    }
    true
}

/// Whether `s` begins with `pre`.
pub fn starts_with(s: &str, pre: &str) -> (r: bool)
    ensures
        r == is_prefix(s@, pre@),
{
    let sv = crate::codec::string_to_chars(s);
    let pv = crate::codec::string_to_chars(pre);
    if pv.len() > sv.len() {
        return false;
    }
    matches_at(&sv, &pv, 0)
}

/// Finds the first occurrence of `pat` in `s[from..]`.
pub fn find_from(s: &Vec<char>, pat: &Vec<char>, from: usize) -> (r: Option<usize>)
    requires
        from <= s@.len(),
    ensures
        match r {
            Some(i) => from <= i && occurs_at(s@, pat@, i as int) && forall|m: int|
                from <= m < i ==> !occurs_at(s@, pat@, m),
            None => forall|m: int| from <= m ==> !occurs_at(s@, pat@, m),
        },
{
    if pat.len() == 0 {
        assert(s@.subrange(from as int, from as int) =~= pat@);
        return Some(from);
    }
    if pat.len() > s.len() {
        assert(forall|m: int| from <= m ==> !occurs_at(s@, pat@, m));
        return None;
    }
    let stop = s.len() - pat.len();
    if from > stop {
        assert(forall|m: int| from <= m ==> !occurs_at(s@, pat@, m));
        return None;
    }
    let mut i: usize = from;
    while i <= stop
        invariant
            from <= i,
            i <= stop + 1,
            stop == s@.len() - pat@.len(),
            stop <= usize::MAX - 1,
            1 <= pat@.len() <= s@.len(),
            forall|m: int| from <= m < i ==> !occurs_at(s@, pat@, m),
        decreases stop + 1 - i,
    {
        if matches_at(s, pat, i) {
            return Some(i);
        }
        i = i + 1;
    }
    assert(forall|m: int| from <= m ==> !occurs_at(s@, pat@, m)) by {
        assert(forall|m: int| m > stop ==> !occurs_at(s@, pat@, m));
    }
    None
}

/// The position of the first occurrence of `pat` in `s` at or after `i`.
pub open spec fn find_sub_from(s: Seq<char>, pat: Seq<char>, i: int) -> Option<int>
    decreases s.len() - i + 1,
{
    if i < 0 || i + pat.len() > s.len() {
        None
    } else if occurs_at(s, pat, i) {
        Some(i)
    } else {
        find_sub_from(s, pat, i + 1)
    }
}

pub proof fn lemma_find_sub_from_props(s: Seq<char>, pat: Seq<char>, i: int)
    requires
        0 <= i,
    ensures
        match find_sub_from(s, pat, i) {
            Some(at) => i <= at && occurs_at(s, pat, at) && forall|m: int|
                i <= m < at ==> !occurs_at(s, pat, m),
            None => forall|m: int| i <= m ==> !occurs_at(s, pat, m),
        },
    decreases s.len() - i + 1,
{
    if i + pat.len() > s.len() {
        assert(forall|m: int| i <= m ==> !occurs_at(s, pat, m));
    } else if occurs_at(s, pat, i) {
    } else {
        lemma_find_sub_from_props(s, pat, i + 1);
    }
}

/// Finds the first occurrence of `pat` in `s`, exactly as `find_sub_from`
/// describes.
pub fn find_sub(s: &Vec<char>, pat: &Vec<char>) -> (r: Option<usize>)
    ensures
        match r {
            Some(i) => find_sub_from(s@, pat@, 0) == Some(i as int),
            None => find_sub_from(s@, pat@, 0) is None,
        },
{
    let r = find_from(s, pat, 0);
    proof {
        lemma_find_sub_from_props(s@, pat@, 0);
        match r {
            Some(i) => {
                match find_sub_from(s@, pat@, 0) {
                    Some(at) => {
                        if at < i as int {
                            assert(occurs_at(s@, pat@, at));
                            assert(false);
                        }
                        if at > i as int {
                            assert(occurs_at(s@, pat@, i as int));
                            assert(false);
                        }
                    },
                    None => {
                        assert(!occurs_at(s@, pat@, i as int));
                        assert(false);
                    },
                }
            },
            None => {
                if find_sub_from(s@, pat@, 0) is Some {
                    let at = find_sub_from(s@, pat@, 0)->Some_0;
                    assert(occurs_at(s@, pat@, at));
                    assert(false);
                }
            },
        }
    }
    r
}

/// The position of the first `c` in `s` at or after `i`.
pub open spec fn find_char_from(s: Seq<char>, c: char, i: int) -> Option<int>
    decreases s.len() - i,
{
    if i < 0 || i >= s.len() {
        None
    } else if s[i] == c {
        Some(i)
    } else {
        find_char_from(s, c, i + 1)
    }
}

pub proof fn lemma_find_char_from_props(s: Seq<char>, c: char, i: int)
    requires
        0 <= i,
    ensures
        match find_char_from(s, c, i) {
            Some(at) => i <= at < s.len() && s[at] == c && forall|m: int| i <= m < at ==> s[m] != c,
            None => forall|m: int| i <= m < s.len() ==> s[m] != c,
        },
    decreases s.len() - i,
{
    if 0 <= i < s.len() && s[i] != c {
        lemma_find_char_from_props(s, c, i + 1);
    }
}

/// A line with any trailing carriage return removed.
pub open spec fn drop_cr(line: Seq<char>) -> Seq<char> {
    if line.len() > 0 && line.last() == '\r' {
        line.drop_last()
    } else {
        line
    }
}

/// The lines of `s[i..]`, split on newlines, each stripped of a trailing
/// carriage return; text after the last newline is one final line.
pub open spec fn lines_from(s: Seq<char>, i: int) -> Seq<Seq<char>>
    decreases s.len() - i,
{
    if i < 0 || i >= s.len() {
        Seq::empty()
    } else {
        match find_char_from(s, '\n', i) {
            None => seq![drop_cr(s.subrange(i, s.len() as int))],
            Some(nl) => if i <= nl < s.len() {
                seq![drop_cr(s.subrange(i, nl))] + lines_from(s, nl + 1)
            } else {
                Seq::empty()
            },
        }
    }
}

/// Splits `s[from..]` into lines, exactly as `lines_from` describes.
pub fn split_lines(s: &Vec<char>, from: usize) -> (r: Vec<String>)
    requires
        from <= s@.len(),
    ensures
        r@.len() == lines_from(s@, from as int).len(),
        forall|m: int|
            0 <= m < r@.len() ==> (#[trigger] r@[m])@ == lines_from(s@, from as int)[m],
    decreases s@.len() - from,
{
    let mut out: Vec<String> = Vec::new();
    if from == s.len() {
        return out;
    }
    proof {
        lemma_find_char_from_props(s@, '\n', from as int);
    }
    let mut j: usize = from;
    while j < s.len() && s[j] != '\n'
        invariant
            from <= j <= s@.len(),
            forall|m: int| from <= m < j ==> s@[m] != '\n',
        decreases s@.len() - j,
    {
        j = j + 1;
    }
    let mut end = j;
    if end > from && s[end - 1] == '\r' {
        end = end - 1;
    }
    let mut line: Vec<char> = Vec::new();
    let mut k: usize = from;
    while k < end
        invariant
            from <= k <= end <= s@.len(),
            line@ == s@.subrange(from as int, k as int),
        decreases end - k,
    {
        line.push(s[k]);
        k = k + 1;
        assert(line@ =~= s@.subrange(from as int, k as int));
    }
    let text = chars_to_string(&line);
    out.push(text);
    if j == s.len() {
        proof {
            assert(find_char_from(s@, '\n', from as int) is None);
            assert(drop_cr(s@.subrange(from as int, s@.len() as int)) =~= s@.subrange(
                from as int,
                end as int,
            ));
        }
        out
    } else {
        assert(s@[j as int] == '\n');
        proof {
            assert(find_char_from(s@, '\n', from as int) == Some(j as int));
            assert(drop_cr(s@.subrange(from as int, j as int)) =~= s@.subrange(
                from as int,
                end as int,
            ));
        }
        let rest = split_lines(s, j + 1);
        let mut combined = out;
        let ghost rest_len = rest@.len();
        let mut rest_mut = rest;
        let ghost rv = rest_mut@;
        combined.append(&mut rest_mut);
        proof {
            let all = lines_from(s@, from as int);
            assert(all == seq![drop_cr(s@.subrange(from as int, j as int))] + lines_from(
                s@,
                j as int + 1,
            ));
            assert(combined@.len() == all.len());
            assert forall|m: int| 0 <= m < combined@.len() implies (#[trigger] combined@[m])@
                == all[m] by {
                if m >= 1 {
                    assert(combined@[m] == rv[m - 1]);
                    assert(all[m] == lines_from(s@, j as int + 1)[m - 1]);
                }
            }
        }
        combined
    }
}

/// The characters `s[from..to]` as a fresh vector.
pub fn vec_slice(s: &Vec<char>, from: usize, to: usize) -> (r: Vec<char>)
    requires
        from <= to <= s@.len(),
    ensures
        r@ == s@.subrange(from as int, to as int),
{
    let mut out: Vec<char> = Vec::new();
    let mut k: usize = from;
    while k < to
        invariant
            from <= k <= to <= s@.len(),
            out@ == s@.subrange(from as int, k as int),
        decreases to - k,
    {
        out.push(s[k]);
        k = k + 1;
        assert(out@ =~= s@.subrange(from as int, k as int));
    }
    out
}

} // verus!
