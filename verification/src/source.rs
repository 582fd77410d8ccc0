//! Preparation of NineScript source for the lexer: NUL-led markers in front of
//! function heads and tuple-unpacking targets, and tabs widened to spaces.

use crate::scanner::model::MAX_SOURCE_CHARS;
use vstd::prelude::*;
use vstd::std_specs::iter::IteratorSpec;

verus! {

broadcast use vstd::string::axiom_spec_iter, vstd::string::next_postcondition;

/// The error type of `regex::Regex::new`, carried through unchanged.
#[verifier::external_type_specification]
#[verifier::external_body]
pub struct ExRegexError(regex::Error);

/// Whether `regex::Regex::new` accepts the pattern.
pub uninterp spec fn regex_compiles(pattern: Seq<char>) -> bool;

/// What `regex::Regex::replace_all` makes of `haystack` for the compiled
/// `pattern` and the `replacement` template.
pub uninterp spec fn regex_replace_all(
    pattern: Seq<char>,
    haystack: Seq<char>,
    replacement: Seq<char>,
) -> Seq<char>;

/// Compiles `pattern` with `regex::Regex::new` and, where that succeeds,
/// replaces every match in `haystack` by `replacement` with
/// `regex::Regex::replace_all`. The contract claims that compilation succeeds
/// exactly when `regex_compiles` holds of the pattern, and that the text
/// returned is `regex_replace_all` of the three arguments; what a match is
/// and how `$0` expands are left to those names.
#[verifier::external_body]
fn rewrite_all(pattern: &str, haystack: &str, replacement: &str) -> (r: Result<
    String,
    regex::Error,
>)
    ensures
        r is Ok <==> regex_compiles(pattern@),
        r matches Ok(text) ==> text@ == regex_replace_all(pattern@, haystack@, replacement@),
{
    match regex::Regex::new(pattern) {
        Ok(re) => Ok(re.replace_all(haystack, replacement).into_owned()),
        Err(e) => Err(e),
    }
}

/// A function head at the very start of the source: `name<...>(...) =>`.
pub open spec fn function_head_pattern() -> Seq<char> {
    r"^([_a-zA-Z]+[_a-zA-Z0-9]*)(<.*>)?\(.*\) =>"@
}

/// A NUL, the marker word `function`, a space, then the match.
pub open spec fn function_head_replacement() -> Seq<char> {
    "\0function $0"@
}

/// A tuple-unpacking target: `[a, b, ...] =`.
pub open spec fn tuple_target_pattern() -> Seq<char> {
    r"\[([_a-zA-Z]+[_a-zA-Z0-9]*)(,\s*[_a-zA-Z]+[_a-zA-Z0-9]*)*\]\s*="@
}

/// A NUL, the marker word `unpack_tuple`, a space, then the match.
pub open spec fn tuple_target_replacement() -> Seq<char> {
    "\0unpack_tuple $0"@
}

/// The source with both kinds of marker in place.
pub open spec fn marked_source(src: Seq<char>) -> Seq<char> {
    regex_replace_all(
        tuple_target_pattern(),
        regex_replace_all(function_head_pattern(), src, function_head_replacement()),
        tuple_target_replacement(),
    )
}

/// `s` with every tab replaced by `width` spaces.
pub open spec fn expand_tabs(s: Seq<char>, width: nat) -> Seq<char>
    decreases s.len(),
{
    if s.len() == 0 {
        Seq::empty()
    } else {
        expand_tabs(s.drop_last(), width) + if s.last() == '\t' {
            Seq::new(width, |i: int| ' ')
        } else {
            seq![s.last()]
        }
    }
}

/// The characters that the lexer reads for `src`.
pub open spec fn prepared_source(src: Seq<char>, width: nat) -> Seq<char> {
    expand_tabs(marked_source(src), width)
}

/// Whether the lexer can be built for `src`: both patterns compile and the
/// prepared source is not longer than the lexer accepts.
pub open spec fn source_accepted(src: Seq<char>, width: nat) -> bool {
    &&& regex_compiles(function_head_pattern())
    &&& regex_compiles(tuple_target_pattern())
    &&& prepared_source(src, width).len() <= MAX_SOURCE_CHARS
}

/// Widening tabs never shortens: a prefix widens to no more than the whole.
proof fn lemma_expand_tabs_grows(a: Seq<char>, b: Seq<char>, width: nat)
    ensures
        expand_tabs(a, width).len() <= expand_tabs(a + b, width).len(),
    decreases b.len(),
{
    if b.len() > 0 {
        assert((a + b).drop_last() =~= a + b.drop_last());
        lemma_expand_tabs_grows(a, b.drop_last(), width);
    } else {
        assert(a + b =~= a);
    }
}

/// No tab occurs in `s`.
pub open spec fn tab_free(s: Seq<char>) -> bool {
    forall|i: int| 0 <= i < s.len() ==> #[trigger] s[i] != '\t'
}

proof fn lemma_expand_tabs_tab_free(s: Seq<char>, width: nat)
    ensures
        tab_free(expand_tabs(s, width)),
    decreases s.len(),
{
    if s.len() > 0 {
        lemma_expand_tabs_tab_free(s.drop_last(), width);
        let head = expand_tabs(s.drop_last(), width);
        let tail = if s.last() == '\t' {
            Seq::new(width, |i: int| ' ')
        } else {
            seq![s.last()]
        };
        assert forall|i: int| 0 <= i < (head + tail).len() implies #[trigger] (head + tail)[i]
            != '\t' by {
            if i >= head.len() {
                assert((head + tail)[i] == tail[i - head.len()]);
            } else {
                assert((head + tail)[i] == head[i]);
            }
        }
    }
}

proof fn lemma_expand_tabs_keeps_tab_free(s: Seq<char>, width: nat)
    requires
        tab_free(s),
    ensures
        expand_tabs(s, width) == s,
    decreases s.len(),
{
    if s.len() > 0 {
        assert(tab_free(s.drop_last())) by {
            assert forall|i: int| 0 <= i < s.drop_last().len() implies #[trigger] s.drop_last()[i]
                != '\t' by {
                assert(s.drop_last()[i] == s[i]);
            }
        }
        lemma_expand_tabs_keeps_tab_free(s.drop_last(), width);
        assert(s[s.len() - 1] != '\t');
        assert(s.drop_last() + seq![s.last()] =~= s);
    }
}

/// A tab counts as `width` spaces: widening the tabs of a text that already
/// had its tabs widened changes nothing, so a lexer built from a text and one
/// built from that text with its tabs replaced by spaces start alike.
pub proof fn lemma_tabs_count_as_spaces(text: Seq<char>, width: nat)
    ensures
        expand_tabs(expand_tabs(text, width), width) == expand_tabs(text, width),
{
    lemma_expand_tabs_tab_free(text, width);
    lemma_expand_tabs_keeps_tab_free(expand_tabs(text, width), width);
}

/// The characters of `text` with every tab replaced by `width` spaces, or
/// `None` where that is longer than the lexer accepts.
pub(crate) fn expand_tabs_within_limit(text: &str, width: usize) -> (r: Option<Vec<char>>)
    ensures
        r is Some <==> expand_tabs(text@, width as nat).len() <= MAX_SOURCE_CHARS,
        r matches Some(v) ==> v@ == expand_tabs(text@, width as nat),
{
    let mut it = text.chars();
    let mut out: Vec<char> = Vec::new();
    let ghost mut done: Seq<char> = Seq::empty();
    loop
        invariant
            done + it.remaining() == text@,
            out@ == expand_tabs(done, width as nat),
            out@.len() <= MAX_SOURCE_CHARS,
        ensures
            out@ == expand_tabs(text@, width as nat),
        decreases text@.len() - done.len(),
    {
        let ghost rest = it.remaining();
        match it.next() {
            Some(c) => {
                let ghost next_done = done.push(c);
                assert(next_done.drop_last() =~= done);
                assert(next_done + it.remaining() =~= text@) by {
                    assert(rest =~= seq![c] + it.remaining());
                }
                if c == '\t' {
                    if width > MAX_SOURCE_CHARS - out.len() {
                        proof {
                            lemma_expand_tabs_grows(next_done, it.remaining(), width as nat);
                        }
                        return None;
                    }
                    let ghost base = out@;
                    let mut k: usize = 0;
                    while k < width
                        invariant
                            k <= width,
                            out@ == base + Seq::new(k as nat, |i: int| ' '),
                            base.len() + width <= MAX_SOURCE_CHARS,
                        decreases width - k,
                    {
                        out.push(' ');
                        k = k + 1;
                        assert(out@ =~= base + Seq::new(k as nat, |i: int| ' '));
                    }
                } else {
                    if out.len() >= MAX_SOURCE_CHARS {
                        proof {
                            lemma_expand_tabs_grows(next_done, it.remaining(), width as nat);
                        }
                        return None;
                    }
                    out.push(c);
                }
                proof {
                    done = next_done;
                }
                assert(out@ =~= expand_tabs(done, width as nat));
            },
            None => {
                assert(done =~= text@);
                break;
            },
        }
    }
    Some(out)
}

/// The prepared characters of `src`: markers in place and tabs widened to
/// `width` spaces; `None` where a pattern does not compile or the result is
/// longer than the lexer accepts.
pub(crate) fn prepare_source(src: &str, width: usize) -> (r: Option<Vec<char>>)
    ensures
        r is Some <==> source_accepted(src@, width as nat),
        r matches Some(v) ==> v@ == prepared_source(src@, width as nat),
{
    let marked = match rewrite_all(
        r"^([_a-zA-Z]+[_a-zA-Z0-9]*)(<.*>)?\(.*\) =>",
        src,
        "\0function $0",
    ) {
        Ok(text) => text,
        Err(_) => return None,
    };
    let marked = match rewrite_all(
        r"\[([_a-zA-Z]+[_a-zA-Z0-9]*)(,\s*[_a-zA-Z]+[_a-zA-Z0-9]*)*\]\s*=",
        marked.as_str(),
        "\0unpack_tuple $0",
    ) {
        Ok(text) => text,
        Err(_) => return None,
    };
    expand_tabs_within_limit(marked.as_str(), width)
}

} // verus!
