//! Plain text from embedded markup: every tag is replaced by a space, then
//! whitespace is collapsed. Character entities are left as they are.

use vstd::prelude::*;
use crate::chars::{to_chars, from_chars};

verus! {

/// The pattern that matches one tag: `<`, any run of characters other than
/// `>`, then `>`.
pub open spec fn tag_pattern() -> Seq<char> {
    seq!['<', '[', '^', '>', ']', '*', '>']
}

/// The index of the first `>` of `s` at or after `from`, or the length of `s`
/// where there is none.
pub open spec fn first_close(s: Seq<char>, from: int) -> nat
    decreases s.len() - from,
{
    if from < 0 || from >= s.len() {
        s.len()
    } else if s[from] == '>' {
        from as nat
    } else {
        first_close(s, from + 1)
    }
}

/// `s` with every tag replaced by `rep`. A tag starts at a `<` that has a `>`
/// somewhere after it and runs up to the first such `>`. Tags are found from
/// left to right and do not overlap; a `<` with no `>` after it stays.
pub open spec fn tags_replaced(s: Seq<char>, rep: Seq<char>) -> Seq<char>
    decreases s.len(),
{
    if s.len() == 0 {
        s
    } else if s[0] == '<' && first_close(s, 0) < s.len() {
        rep + tags_replaced(s.skip(first_close(s, 0) as int + 1), rep)
    } else {
        seq![s[0]] + tags_replaced(s.skip(1), rep)
    }
}

/// Whether `c` has the Unicode property White_Space.
pub open spec fn char_is_whitespace(c: char) -> bool {
    let u = c as u32;
    ||| 0x09 <= u <= 0x0D
    ||| u == 0x20
    ||| u == 0x85
    ||| u == 0xA0
    ||| u == 0x1680
    ||| 0x2000 <= u <= 0x200A
    ||| u == 0x2028
    ||| u == 0x2029
    ||| u == 0x202F
    ||| u == 0x205F
    ||| u == 0x3000
}

/// Whether `c` is whitespace.
pub fn is_whitespace(c: char) -> (b: bool)
    ensures
        b == char_is_whitespace(c),
{
    let u: u32 = c as u32;
    (0x09 <= u && u <= 0x0D) || u == 0x20 || u == 0x85 || u == 0xA0 || u == 0x1680
        || (0x2000 <= u && u <= 0x200A) || u == 0x2028 || u == 0x2029 || u == 0x202F
        || u == 0x205F || u == 0x3000
}

/// Replaces every match of `pattern` in `haystack` by `rep`, through
/// `Regex::new` and `Regex::replace_all` of the regex crate.
///
/// Trusted, not proved, and claimed for the tag pattern alone: what comes
/// back is `tags_replaced`. That crate reports the leftmost match first and
/// searches on after its end, so matches do not overlap. `[^>]` matches every
/// character but `>`, line breaks too, so a match runs from a `<` to the
/// first `>` after it, and a `<` with no `>` after it starts no match. A
/// replacement without `$` is put in as it stands. The pattern is well
/// formed, so compiling it does not fail.
#[verifier::external_body]
fn replace_all_matches(pattern: &str, haystack: &str, rep: &str) -> (r: String)
    requires
        pattern@ == tag_pattern(),
        !rep@.contains('$'),
    ensures
        r@ == tags_replaced(haystack@, rep@),
{
    regex::Regex::new(pattern).unwrap().replace_all(haystack, rep).into_owned()
}

/// `s` with its words joined by single spaces. A word is a longest run of
/// characters that are not whitespace; whitespace before the first word and
/// after the last one is dropped.
pub open spec fn collapsed(s: Seq<char>) -> Seq<char>
    decreases s.len(),
{
    if s.len() == 0 {
        s
    } else if char_is_whitespace(s.last()) {
        collapsed(s.drop_last())
    } else if s.len() > 1 && char_is_whitespace(s[s.len() - 2]) && collapsed(s.drop_last()).len() > 0 {
        collapsed(s.drop_last()).push(' ').push(s.last())
    } else {
        collapsed(s.drop_last()).push(s.last())
    }
}

/// The plain text of `html`.
pub open spec fn extracted_text(html: Seq<char>) -> Seq<char> {
    collapsed(tags_replaced(html, seq![' ']))
}

/// Whether a `<` of `s` has a `>` somewhere after it.
pub open spec fn has_tag_span(s: Seq<char>) -> bool {
    exists|i: int, j: int| 0 <= i < j < s.len() && s[i] == '<' && s[j] == '>'
}

/// Whether every character of `s` is whitespace.
pub open spec fn all_whitespace(s: Seq<char>) -> bool {
    forall|i: int| 0 <= i < s.len() ==> char_is_whitespace(#[trigger] s[i])
}

/// Collapses the whitespace of `s`.
pub fn normalize_whitespace(s: &str) -> (r: String)
    ensures
        r@ == collapsed(s@),
{
    let v = to_chars(s);
    let mut out: Vec<char> = Vec::new();
    let mut after_space = false;
    let mut i: usize = 0;
    while i < v.len()
        invariant
            i <= v.len(),
            out@ == collapsed(v@.take(i as int)),
            after_space == (i > 0 && char_is_whitespace(v@[i - 1])),
        decreases v.len() - i,
    {
        let c = v[i];
        let ws = is_whitespace(c);
        proof {
            let t = v@.take(i as int + 1);
            assert(t.drop_last() =~= v@.take(i as int));
            assert(t.last() == c);
            assert(i > 0 ==> t[t.len() - 2] == v@[i - 1]);
        }
        if !ws {
            if after_space && out.len() > 0 {
                out.push(' ');
            }
            out.push(c);
        }
        after_space = ws;
        i += 1;
    }
    proof {
        assert(v@.take(v.len() as int) =~= v@);
    }
    from_chars(&out)
}

/// The plain text of `html`: tags replaced by spaces, whitespace collapsed.
pub fn extract_text_from_html(html: &str) -> (text: String)
    ensures
        text@ == extracted_text(html@),
        !has_tag_span(text@),
        !has_tag_span(html@) ==> text@ == collapsed(html@),
        all_whitespace(html@) ==> text@.len() == 0,
        text@.len() == 0 <==> all_whitespace(tags_replaced(html@, seq![' '])),
{
    let pattern = "<[^>]*>";
    let rep = " ";
    proof {
        reveal_strlit("<[^>]*>");
        reveal_strlit(" ");
        assert(pattern@ =~= tag_pattern());
        assert(rep@ =~= seq![' ']);
        lemma_text_has_no_tag(html@);
        lemma_plain_text_kept(html@);
        lemma_blank_gives_empty(html@);
    }
    let stripped = replace_all_matches(pattern, html, rep);
    normalize_whitespace(stripped.as_str())
}

/// `first_close` answers with an index of a `>` that has none before it, or
/// with the length.
pub proof fn lemma_first_close(s: Seq<char>, from: int)
    requires
        0 <= from <= s.len(),
    ensures
        from <= first_close(s, from) <= s.len(),
        first_close(s, from) < s.len() ==> s[first_close(s, from) as int] == '>',
        forall|k: int| from <= k < first_close(s, from) ==> s[k] != '>',
    decreases s.len() - from,
{
    if from < s.len() && s[from] != '>' {
        lemma_first_close(s, from + 1);
    }
}

/// A character of the replaced text that the replacement does not hold was a
/// character of the input.
proof fn lemma_replaced_chars_from_input(s: Seq<char>, rep: Seq<char>, c: char)
    requires
        !rep.contains(c),
        tags_replaced(s, rep).contains(c),
    ensures
        s.contains(c),
    decreases s.len(),
{
    let t = tags_replaced(s, rep);
    let k = choose|k: int| 0 <= k < t.len() && t[k] == c;
    if s.len() == 0 {
    } else if s[0] == '<' && first_close(s, 0) < s.len() {
        lemma_first_close(s, 0);
        let rest = s.skip(first_close(s, 0) as int + 1);
        if k < rep.len() {
            assert(rep[k] == c);
            assert(rep.contains(c));
        } else {
            assert(tags_replaced(rest, rep)[k - rep.len()] == c);
            lemma_replaced_chars_from_input(rest, rep, c);
            let m = choose|m: int| 0 <= m < rest.len() && rest[m] == c;
            assert(s[m + first_close(s, 0) + 1] == c);
        }
    } else {
        if k == 0 {
            assert(s[0] == c);
        } else {
            let rest = s.skip(1);
            assert(tags_replaced(rest, rep)[k - 1] == c);
            lemma_replaced_chars_from_input(rest, rep, c);
            let m = choose|m: int| 0 <= m < rest.len() && rest[m] == c;
            assert(s[m + 1] == c);
        }
    }
}

/// After the tags are replaced, no `<` has a `>` after it.
pub proof fn lemma_replaced_has_no_tag(s: Seq<char>, rep: Seq<char>)
    requires
        !rep.contains('<'),
        !rep.contains('>'),
    ensures
        !has_tag_span(tags_replaced(s, rep)),
    decreases s.len(),
{
    let t = tags_replaced(s, rep);
    if s.len() == 0 {
    } else if s[0] == '<' && first_close(s, 0) < s.len() {
        lemma_first_close(s, 0);
        let rest = s.skip(first_close(s, 0) as int + 1);
        let u = tags_replaced(rest, rep);
        lemma_replaced_has_no_tag(rest, rep);
        assert forall|i: int, j: int| 0 <= i < j < t.len() && t[i] == '<' implies t[j] != '>' by {
            if i < rep.len() {
                assert(rep[i] == '<');
                assert(rep.contains('<'));
            } else if t[j] == '>' {
                assert(u[i - rep.len()] == '<' && u[j - rep.len()] == '>');
            }
        }
    } else {
        let rest = s.skip(1);
        let u = tags_replaced(rest, rep);
        lemma_replaced_has_no_tag(rest, rep);
        assert forall|i: int, j: int| 0 <= i < j < t.len() && t[i] == '<' implies t[j] != '>' by {
            if t[j] == '>' {
                if i == 0 {
                    assert(u[j - 1] == '>');
                    assert(u.contains('>'));
                    lemma_replaced_chars_from_input(rest, rep, '>');
                    let m = choose|m: int| 0 <= m < rest.len() && rest[m] == '>';
                    assert(s[m + 1] == '>');
                    lemma_first_close(s, 0);
                } else {
                    assert(u[i - 1] == '<' && u[j - 1] == '>');
                }
            }
        }
    }
}

/// Text without a tag is left as it is when tags are replaced.
pub proof fn lemma_replaced_keeps_plain(s: Seq<char>, rep: Seq<char>)
    requires
        !has_tag_span(s),
    ensures
        tags_replaced(s, rep) == s,
    decreases s.len(),
{
    if s.len() > 0 {
        lemma_first_close(s, 0);
        if s[0] == '<' && first_close(s, 0) < s.len() {
            assert(0 <= 0 < first_close(s, 0) < s.len() && s[0] == '<' && s[first_close(s, 0) as int] == '>');
        } else {
            let rest = s.skip(1);
            assert forall|i: int, j: int| 0 <= i < j < rest.len() && rest[i] == '<' implies rest[j] != '>' by {
                if rest[j] == '>' {
                    assert(0 <= i + 1 < j + 1 < s.len() && s[i + 1] == '<' && s[j + 1] == '>');
                }
            }
            lemma_replaced_keeps_plain(rest, rep);
            assert(seq![s[0]] + rest =~= s);
        }
    }
}

/// Collapsing whitespace brings in no `<` and no `>`, and keeps the order of
/// those that were there.
pub proof fn lemma_collapsed_has_no_tag(s: Seq<char>)
    requires
        !has_tag_span(s),
    ensures
        !has_tag_span(collapsed(s)),
        collapsed(s).contains('<') ==> s.contains('<'),
    decreases s.len(),
{
    if s.len() > 0 {
        let p = s.drop_last();
        let c = s.last();
        let t = collapsed(s);
        let u = collapsed(p);
        assert forall|i: int, j: int| 0 <= i < j < p.len() && p[i] == '<' implies p[j] != '>' by {
            if p[j] == '>' {
                assert(0 <= i < j < s.len() && s[i] == '<' && s[j] == '>');
            }
        }
        lemma_collapsed_has_no_tag(p);
        if u.contains('<') {
            let m = choose|m: int| 0 <= m < p.len() && p[m] == '<';
            assert(s[m] == '<');
            assert(c != '>') by {
                if c == '>' {
                    assert(0 <= m < s.len() - 1 < s.len() && s[m] == '<' && s[s.len() - 1] == '>');
                }
            }
        }
        if t.contains('<') {
            let k = choose|k: int| 0 <= k < t.len() && t[k] == '<';
            if k < u.len() {
                assert(u[k] == '<');
                assert(u.contains('<'));
            } else {
                assert(c == '<');
                assert(s[s.len() - 1] == '<');
            }
        }
        assert forall|i: int, j: int| 0 <= i < j < t.len() && t[i] == '<' implies t[j] != '>' by {
            if t[j] == '>' {
                if j < u.len() {
                    assert(u[i] == '<' && u[j] == '>');
                } else {
                    assert(u[i] == '<');
                    assert(u.contains('<'));
                }
            }
        }
    }
}

/// Extracted text holds no tag: no `<` of it has a `>` after it.
pub proof fn lemma_text_has_no_tag(html: Seq<char>)
    ensures
        !has_tag_span(extracted_text(html)),
{
    let rep = seq![' '];
    assert(!rep.contains('<'));
    assert(!rep.contains('>'));
    lemma_replaced_has_no_tag(html, rep);
    lemma_collapsed_has_no_tag(tags_replaced(html, rep));
}

/// Text without a tag, and so text without angle brackets, comes out as it
/// went in, up to the collapsing of its whitespace.
pub proof fn lemma_plain_text_kept(html: Seq<char>)
    ensures
        !has_tag_span(html) ==> extracted_text(html) == collapsed(html),
        !html.contains('<') ==> extracted_text(html) == collapsed(html),
        !html.contains('>') ==> extracted_text(html) == collapsed(html),
{
    if !has_tag_span(html) {
        lemma_replaced_keeps_plain(html, seq![' ']);
    }
}

/// Whether `t` is in collapsed form: it neither starts nor ends with
/// whitespace, and its only whitespace is single spaces between words.
pub open spec fn normalized(t: Seq<char>) -> bool {
    &&& t.len() > 0 ==> !char_is_whitespace(t[0]) && !char_is_whitespace(t.last())
    &&& forall|i: int|
        0 <= i < t.len() && char_is_whitespace(#[trigger] t[i]) ==> t[i] == ' ' && i + 1 < t.len()
            && !char_is_whitespace(t[i + 1])
}

/// Collapsed text is in collapsed form.
pub proof fn lemma_collapsed_is_normalized(s: Seq<char>)
    ensures
        normalized(collapsed(s)),
    decreases s.len(),
{
    if s.len() > 0 {
        let p = s.drop_last();
        let c = s.last();
        let u = collapsed(p);
        let t = collapsed(s);
        lemma_collapsed_is_normalized(p);
        if !char_is_whitespace(c) {
            assert forall|i: int| 0 <= i < t.len() && char_is_whitespace(#[trigger] t[i]) implies t[i]
                == ' ' && i + 1 < t.len() && !char_is_whitespace(t[i + 1]) by {
                if i < u.len() {
                    assert(t[i] == u[i]);
                    assert(char_is_whitespace(u[i]));
                    assert(i + 1 < u.len());
                    assert(t[i + 1] == u[i + 1]);
                }
            }
            if u.len() > 0 {
                assert(t[0] == u[0]);
            }
        }
    }
}

proof fn lemma_normalized_prefix(t: Seq<char>, k: int)
    requires
        normalized(t),
        0 <= k <= t.len(),
    ensures
        collapsed(t.take(k)) == if k > 0 && char_is_whitespace(t[k - 1]) {
            t.take(k - 1)
        } else {
            t.take(k)
        },
    decreases k,
{
    if k > 0 {
        let x = t.take(k);
        let c = t[k - 1];
        assert(x.last() == c);
        assert(x.drop_last() =~= t.take(k - 1));
        lemma_normalized_prefix(t, k - 1);
        if char_is_whitespace(c) {
            assert(k - 1 > 0);
            if char_is_whitespace(t[k - 2]) {
                assert(!char_is_whitespace(t[(k - 2) + 1]));
            }
        } else if k > 1 && char_is_whitespace(t[k - 2]) {
            assert(x[x.len() - 2] == t[k - 2]);
            assert(k - 2 > 0);
            assert(t[k - 2] == ' ');
            assert(collapsed(t.take(k - 1)) == t.take(k - 2));
            assert(t.take(k - 2).push(' ').push(c) =~= t.take(k));
        } else {
            if k > 1 {
                assert(x[x.len() - 2] == t[k - 2]);
            }
            assert(t.take(k - 1).push(c) =~= t.take(k));
        }
    } else {
        assert(t.take(0) =~= Seq::<char>::empty());
    }
}

/// Collapsing whitespace twice is collapsing it once.
pub proof fn lemma_collapsed_twice(s: Seq<char>)
    ensures
        collapsed(collapsed(s)) == collapsed(s),
{
    let t = collapsed(s);
    lemma_collapsed_is_normalized(s);
    lemma_normalized_prefix(t, t.len() as int);
    assert(t.take(t.len() as int) =~= t);
}

/// Extraction is idempotent: extracted text is its own extraction.
pub proof fn lemma_extraction_idempotent(html: Seq<char>)
    ensures
        extracted_text(extracted_text(html)) == extracted_text(html),
{
    let t = extracted_text(html);
    lemma_text_has_no_tag(html);
    lemma_replaced_keeps_plain(t, seq![' ']);
    lemma_collapsed_twice(tags_replaced(html, seq![' ']));
}

/// Text collapses to nothing exactly when it is whitespace alone.
pub proof fn lemma_blank_collapses(s: Seq<char>)
    ensures
        collapsed(s).len() == 0 <==> all_whitespace(s),
    decreases s.len(),
{
    if s.len() > 0 {
        let p = s.drop_last();
        lemma_blank_collapses(p);
        if all_whitespace(s) {
            assert(char_is_whitespace(s[s.len() - 1]));
            assert forall|i: int| 0 <= i < p.len() implies char_is_whitespace(#[trigger] p[i]) by {
                assert(p[i] == s[i]);
            }
        } else if char_is_whitespace(s.last()) {
            let k = choose|k: int| 0 <= k < s.len() && !char_is_whitespace(s[k]);
            assert(p[k] == s[k]);
        }
    }
}

/// Markup gives empty text exactly when nothing but whitespace is left once
/// its tags are replaced. Markup that is empty or whitespace alone is such.
pub proof fn lemma_blank_gives_empty(html: Seq<char>)
    ensures
        extracted_text(html).len() == 0 <==> all_whitespace(tags_replaced(html, seq![' '])),
        all_whitespace(html) ==> extracted_text(html).len() == 0,
{
    lemma_blank_collapses(tags_replaced(html, seq![' ']));
    if all_whitespace(html) {
        lemma_blank_collapses(html);
        if has_tag_span(html) {
            let (i, j) = choose|i: int, j: int| 0 <= i < j < html.len() && html[i] == '<' && html[j] == '>';
            assert(char_is_whitespace(html[i]));
            assert('<' as u32 == 0x3C);
        } else {
            lemma_replaced_keeps_plain(html, seq![' ']);
        }
    }
}

} // verus!
