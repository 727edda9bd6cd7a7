//! Stripping caller-side bootstrap code from mounted source text: attribute
//! lines that belong to the caller's front end, and the caller's own entry
//! function, neither of which may reach the shadow project.
//!
//! The text is handled line by line: an attribute is removed when it stands
//! alone on a line, and a function is removed from its header line to the
//! line on which its braces close.
use vstd::prelude::*;
use vstd::string::StrSliceExecFns;
use crate::codec::string_to_chars;
use crate::text::is_prefix;
use crate::text::lines_from;
use crate::text::split_lines;
use crate::text::starts_with;

verus! {

/// A line carrying exactly the attribute `#[name]` or `#[name(...)]` at its
/// start.
pub open spec fn attr_line_for(line: Seq<char>, name: Seq<char>) -> bool {
    ||| is_prefix(line, "#["@ + name + "]"@)
    ||| is_prefix(line, "#["@ + name + "("@)
}

/// The character sequences a list of strings stands for.
pub open spec fn views_of_strings(ts: Seq<String>) -> Seq<Seq<char>> {
    ts.map_values(|s: String| s@)
}

/// Whether any of the target macros opens this line.
pub open spec fn strips_line(line: Seq<char>, targets: Seq<Seq<char>>) -> bool {
    exists|k: int| 0 <= k < targets.len() && attr_line_for(line, #[trigger] targets[k])
}

/// The text with every line that carries a target attribute removed; the
/// kept lines each end in a newline.
pub open spec fn kept_text(lv: Seq<Seq<char>>, i: int, targets: Seq<Seq<char>>) -> Seq<char>
    decreases lv.len() - i,
{
    if i < 0 || i >= lv.len() {
        Seq::empty()
    } else if strips_line(lv[i], targets) {
        kept_text(lv, i + 1, targets)
    } else {
        lv[i] + seq!['\n'] + kept_text(lv, i + 1, targets)
    }
}

/// Removes attribute lines for a set of macro names from source text.
pub struct MacroRemover {
    pub target_macros: Vec<String>,
}

impl MacroRemover {
    /// Whether this line opens with one of the target attributes, exactly
    /// as `strips_line` describes.
    fn line_matches(&self, line: &str) -> (r: bool)
        ensures
            r == strips_line(line@, views_of_strings(self.target_macros@)),
    {
        let ghost tv = views_of_strings(self.target_macros@);
        let n = self.target_macros.len();
        let mut k: usize = 0;
        while k < n
            invariant
                k <= n,
                n == self.target_macros@.len(),
                tv == views_of_strings(self.target_macros@),
                tv.len() == n,
                forall|m: int| 0 <= m < k ==> !attr_line_for(line@, #[trigger] tv[m]),
            decreases n - k,
        {
            assert(tv[k as int] == self.target_macros@[k as int]@);
            let name = &self.target_macros[k];
            let mut closed = String::new();
            closed.append("#[");
            closed.append(name.as_str());
            closed.append("]");
            let mut opened = String::new();
            opened.append("#[");
            opened.append(name.as_str());
            opened.append("(");
            if starts_with(line, closed.as_str()) || starts_with(line, opened.as_str()) {
                return true;
            }
            k = k + 1;
        }
        false
    }

    /// Appends the kept lines `lv[k..]`.
    fn push_kept(&self, out: &mut String, lines: &Vec<String>, k: usize, Ghost(lv): Ghost<
        Seq<Seq<char>>,
    >)
        requires
            lines@.len() == lv.len(),
            forall|m: int| 0 <= m < lv.len() ==> (#[trigger] lines@[m])@ == lv[m],
            k <= lv.len(),
        ensures
            final(out)@ == old(out)@ + kept_text(
                lv,
                k as int,
                views_of_strings(self.target_macros@),
            ),
        decreases lv.len() - k,
    {
        let ghost tv = views_of_strings(self.target_macros@);
        if k == lines.len() {
            assert(kept_text(lv, k as int, tv) =~= Seq::<char>::empty());
            return ;
        }
        let l = &lines[k];
        assert(l@ == lv[k as int]);
        if self.line_matches(l.as_str()) {
            self.push_kept(out, lines, k + 1, Ghost(lv));
        } else {
            out.append(l.as_str());
            out.append("\n");
            self.push_kept(out, lines, k + 1, Ghost(lv));
            proof {
                reveal_strlit("\n");
                assert("\n"@ =~= seq!['\n']);
                assert(old(out)@ + lv[k as int] + "\n"@ + kept_text(lv, k as int + 1, tv) =~= old(
                    out,
                )@ + kept_text(lv, k as int, tv));
            }
        }
    }

    /// The source with every line that carries a target attribute removed.
    pub fn strip(&self, source: &str) -> (r: String)
        ensures
            r@ == kept_text(lines_from(source@, 0), 0, views_of_strings(self.target_macros@)),
    {
        let chars = string_to_chars(source);
        let lines = split_lines(&chars, 0);
        let mut out = String::new();
        self.push_kept(&mut out, &lines, 0, Ghost(lines_from(source@, 0)));
        out
    }
}

/// Removes every line that carries one of the target attributes.
pub fn remove_macro(source: &str, target_macros: Vec<String>) -> (r: String)
    ensures
        r@ == kept_text(lines_from(source@, 0), 0, views_of_strings(target_macros@)),
{
    let remover = MacroRemover { target_macros };
    remover.strip(source)
}

/// A line that begins the definition of the function `name` at the top
/// level of a file.
pub open spec fn fn_header_line(line: Seq<char>, name: Seq<char>) -> bool {
    ||| is_prefix(line, "fn "@ + name + "("@)
    ||| is_prefix(line, "pub fn "@ + name + "("@)
    ||| is_prefix(line, "async fn "@ + name + "("@)
    ||| is_prefix(line, "pub async fn "@ + name + "("@)
}

/// How many times `c` occurs in `s`.
pub open spec fn count_char(s: Seq<char>, c: char) -> int
    decreases s.len(),
{
    if s.len() == 0 {
        0
    } else {
        (if s[0] == c {
            1int
        } else {
            0int
        }) + count_char(s.drop_first(), c)
    }
}

/// A line's net effect on brace depth.
pub open spec fn brace_delta(line: Seq<char>) -> int {
    count_char(line, '{') - count_char(line, '}')
}

/// The deepest brace nesting the removal tracks; a source nested deeper
/// (far beyond anything a compiler accepts) is treated as staying at this
/// depth.
pub const MAX_BRACE_DEPTH: u64 = 0xFFFF_FFFF;

/// The text with the function `name` removed: from its header line through
/// the line on which its braces balance out.
pub open spec fn removed_fn_text(
    lv: Seq<Seq<char>>,
    i: int,
    name: Seq<char>,
    skipping: bool,
    depth: int,
) -> Seq<char>
    decreases lv.len() - i,
{
    if i < 0 || i >= lv.len() {
        Seq::empty()
    } else if skipping {
        let d = depth + brace_delta(lv[i]);
        if d <= 0 {
            removed_fn_text(lv, i + 1, name, false, 0)
        } else if d > MAX_BRACE_DEPTH {
            removed_fn_text(lv, i + 1, name, true, MAX_BRACE_DEPTH as int)
        } else {
            removed_fn_text(lv, i + 1, name, true, d)
        }
    } else if fn_header_line(lv[i], name) {
        let d = brace_delta(lv[i]);
        if d <= 0 {
            removed_fn_text(lv, i + 1, name, false, 0)
        } else if d > MAX_BRACE_DEPTH {
            removed_fn_text(lv, i + 1, name, true, MAX_BRACE_DEPTH as int)
        } else {
            removed_fn_text(lv, i + 1, name, true, d)
        }
    } else {
        lv[i] + seq!['\n'] + removed_fn_text(lv, i + 1, name, false, 0)
    }
}

/// Counts braces of one kind in a line, exactly as `count_char` describes.
fn count_char_exec(line: &Vec<char>, c: char) -> (r: usize)
    ensures
        r as int == count_char(line@, c),
{
    let n = line.len();
    proof {
        assert(line@.skip(0) =~= line@);
    }
    let mut k: usize = 0;
    let mut acc: usize = 0;
    while k < n
        invariant
            k <= n,
            n == line@.len(),
            acc <= k,
            acc as int == count_char(line@, c) - count_char(line@.skip(k as int), c),
        decreases n - k,
    {
        proof {
            assert(line@.skip(k as int)[0] == line@[k as int]);
            assert(line@.skip(k as int).drop_first() =~= line@.skip(k as int + 1));
        }
        if line[k] == c {
            acc = acc + 1;
        }
        k = k + 1;
    }
    proof {
        assert(line@.skip(k as int) =~= Seq::<char>::empty());
    }
    acc
}

/// Removes the top-level function `name` from source text, exactly as
/// `removed_fn_text` describes.
pub fn remove_function(source: &str, function_name: &str) -> (r: String)
    ensures
        r@ == removed_fn_text(lines_from(source@, 0), 0, function_name@, false, 0),
{
    let chars = string_to_chars(source);
    let lines = split_lines(&chars, 0);
    let mut out = String::new();
    push_without_fn(
        &mut out,
        &lines,
        0,
        function_name,
        false,
        0,
        Ghost(lines_from(source@, 0)),
    );
    out
}

/// Appends `lv[k..]` with the named function removed.
fn push_without_fn(
    out: &mut String,
    lines: &Vec<String>,
    k: usize,
    name: &str,
    skipping: bool,
    depth: u64,
    Ghost(lv): Ghost<Seq<Seq<char>>>,
)
    requires
        lines@.len() == lv.len(),
        forall|m: int| 0 <= m < lv.len() ==> (#[trigger] lines@[m])@ == lv[m],
        k <= lv.len(),
        skipping ==> 1 <= depth <= MAX_BRACE_DEPTH,
        !skipping ==> depth == 0,
    ensures
        final(out)@ == old(out)@ + removed_fn_text(lv, k as int, name@, skipping, depth as int),
    decreases lv.len() - k,
{
    if k == lines.len() {
        assert(removed_fn_text(lv, k as int, name@, skipping, depth as int) =~= Seq::<
            char,
        >::empty());
        return ;
    }
    let l = &lines[k];
    assert(l@ == lv[k as int]);
    let lchars = string_to_chars(l.as_str());
    if skipping {
        let opens = count_char_exec(&lchars, '{');
        let closes = count_char_exec(&lchars, '}');
        let w: u128 = depth as u128 + opens as u128;
        if w <= closes as u128 {
            push_without_fn(out, lines, k + 1, name, false, 0, Ghost(lv));
        } else {
            let d: u128 = w - closes as u128;
            let next: u64 = if d > MAX_BRACE_DEPTH as u128 {
                MAX_BRACE_DEPTH
            } else {
                d as u64
            };
            push_without_fn(out, lines, k + 1, name, true, next, Ghost(lv));
        }
    } else {
        let mut h1 = String::new();
        h1.append("fn ");
        h1.append(name);
        h1.append("(");
        let mut h2 = String::new();
        h2.append("pub fn ");
        h2.append(name);
        h2.append("(");
        let mut h3 = String::new();
        h3.append("async fn ");
        h3.append(name);
        h3.append("(");
        let mut h4 = String::new();
        h4.append("pub async fn ");
        h4.append(name);
        h4.append("(");
        let is_header = starts_with(l.as_str(), h1.as_str()) || starts_with(l.as_str(), h2.as_str())
            || starts_with(l.as_str(), h3.as_str()) || starts_with(l.as_str(), h4.as_str());
        assert(is_header == fn_header_line(lv[k as int], name@));
        if is_header {
            let opens = count_char_exec(&lchars, '{');
            let closes = count_char_exec(&lchars, '}');
            if opens <= closes {
                push_without_fn(out, lines, k + 1, name, false, 0, Ghost(lv));
            } else {
                let d: u128 = opens as u128 - closes as u128;
                let next: u64 = if d > MAX_BRACE_DEPTH as u128 {
                    MAX_BRACE_DEPTH
                } else {
                    d as u64
                };
                push_without_fn(out, lines, k + 1, name, true, next, Ghost(lv));
            }
        } else {
            out.append(l.as_str());
            out.append("\n");
            push_without_fn(out, lines, k + 1, name, false, 0, Ghost(lv));
            proof {
                reveal_strlit("\n");
                assert("\n"@ =~= seq!['\n']);
                assert(old(out)@ + lv[k as int] + "\n"@ + removed_fn_text(
                    lv,
                    k as int + 1,
                    name@,
                    false,
                    0,
                ) =~= old(out)@ + removed_fn_text(lv, k as int, name@, false, 0));
            }
        }
    }
}

/// The caller's entry source with its bootstrap stripped: the front end's
/// attribute lines removed, then the caller's own `main`.
pub open spec fn stripped_entry_text(source: Seq<char>) -> Seq<char> {
    let without_macros = kept_text(
        lines_from(source, 0),
        0,
        seq!["function"@, "mount"@, "function_experiment"@],
    );
    removed_fn_text(lines_from(without_macros, 0), 0, "main"@, false, 0)
}

/// Strips the caller's bootstrap from its entry source before it is
/// mounted, exactly as `stripped_entry_text` describes.
pub fn strip_entry_code(source: &str) -> (r: String)
    ensures
        r@ == stripped_entry_text(source@),
{
    let mut targets: Vec<String> = Vec::new();
    let mut t1 = String::new();
    t1.append("function");
    targets.push(t1);
    let mut t2 = String::new();
    t2.append("mount");
    targets.push(t2);
    let mut t3 = String::new();
    t3.append("function_experiment");
    targets.push(t3);
    proof {
        assert(views_of_strings(targets@) =~= seq![
            "function"@,
            "mount"@,
            "function_experiment"@,
        ]);
    }
    let cleaned = remove_macro(source, targets);
    remove_function(cleaned.as_str(), "main")
}

} // verus!
